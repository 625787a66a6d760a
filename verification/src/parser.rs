//! The parser: byte-cursor recursive descent over raw input bytes.
//!
//! A single advancing cursor walks the input; the leading byte of a value
//! selects one of the mutually recursive sub-parsers. There is no
//! whitespace skipping anywhere: a byte that does not start a token where
//! a value is expected is an error. String bytes are copied verbatim, one
//! byte becoming one character; escape sequences are not decoded.

use crate::model::{lemma_views_push, views, Json, JsonView};
use crate::printer::{print_children, print_view};
use vstd::prelude::*;

verus! {

/// The characters that the input bytes stand for, one byte per character.
pub open spec fn chars_of(s: Seq<u8>) -> Seq<char> {
    s.map_values(|b: u8| b as char)
}

/// A decimal digit.
pub open spec fn is_digit(c: char) -> bool {
    48 <= c as u32 <= 57
}

/// One step of the number automaton. States: 0 expects the leading digit;
/// 1 is in the integer digits; 2 is past the decimal point; 3 is just past
/// the exponent mark; 4 is past the exponent's sign; 5 is in the exponent
/// digits; 6 is the dead state.
pub open spec fn num_step(st: int, c: char) -> int {
    if st == 0 {
        if is_digit(c) {
            1
        } else {
            6
        }
    } else if st == 1 {
        if is_digit(c) {
            1
        } else if c == '.' {
            2
        } else if c == 'e' || c == 'E' {
            3
        } else {
            6
        }
    } else if st == 2 {
        if is_digit(c) {
            2
        } else if c == 'e' || c == 'E' {
            3
        } else {
            6
        }
    } else if st == 3 {
        if is_digit(c) {
            5
        } else if c == '+' || c == '-' {
            4
        } else {
            6
        }
    } else if st == 4 || st == 5 {
        if is_digit(c) {
            5
        } else {
            6
        }
    } else {
        6
    }
}

/// The automaton's state after reading all of `s`, starting from 0.
pub open spec fn num_run(s: Seq<char>) -> int
    decreases s.len(),
{
    if s.len() == 0 {
        0
    } else {
        num_step(num_run(s.drop_last()), s.last())
    }
}

/// Well-formed numeric text: digits, then optionally a point and more
/// digits, then optionally an exponent with an optional sign and at least
/// one digit — exactly the digit-led decimal forms of a 64-bit float.
pub open spec fn is_number_text(s: Seq<char>) -> bool {
    num_run(s) == 1 || num_run(s) == 2 || num_run(s) == 5
}

/// Run the number automaton over accumulated characters.
fn check_number(chars: &Vec<char>) -> (r: bool)
    ensures
        r == is_number_text(chars@),
{
    let mut st: u8 = 0;
    let mut i: usize = 0;
    while i < chars.len()
        invariant
            0 <= i <= chars@.len(),
            st <= 6,
            st as int == num_run(chars@.take(i as int)),
        decreases chars@.len() - i,
    {
        let c = chars[i];
        let u = c as u32;
        let digit = 48 <= u && u <= 57;
        let next: u8 = if st == 0 {
            if digit {
                1
            } else {
                6
            }
        } else if st == 1 {
            if digit {
                1
            } else if c == '.' {
                2
            } else if c == 'e' || c == 'E' {
                3
            } else {
                6
            }
        } else if st == 2 {
            if digit {
                2
            } else if c == 'e' || c == 'E' {
                3
            } else {
                6
            }
        } else if st == 3 {
            if digit {
                5
            } else if c == '+' || c == '-' {
                4
            } else {
                6
            }
        } else if st == 4 || st == 5 {
            if digit {
                5
            } else {
                6
            }
        } else {
            6
        };
        proof {
            assert(chars@.take(i + 1).drop_last() =~= chars@.take(i as int));
            assert(chars@.take(i + 1).last() == chars@[i as int]);
        }
        st = next;
        i += 1;
    }
    proof {
        assert(chars@.take(chars@.len() as int) =~= chars@);
    }
    st == 1 || st == 2 || st == 5
}

/// Relies on `String::from_iter`: the collected string holds exactly the
/// given characters, in order.
#[verifier::external_body]
fn chars_to_string(v: Vec<char>) -> (r: String)
    ensures
        r@ == v@,
{
    String::from_iter(v)
}

/// A character that may open a value at the top level: an object, a
/// string (or entry name), an array, a boolean, null, or a digit.
pub open spec fn is_token_start(c: char) -> bool {
    c == '{' || c == '"' || c == '[' || c == 't' || c == 'f' || c == 'n' || is_digit(c)
}

/// The fixed short messages a parse error can carry.
pub open spec fn error_message_ok(m: Seq<char>) -> bool {
    ||| m == "Not a valid json format"@
    ||| m == "Error parsing json."@
    ||| m == "Error parsing array."@
    ||| m == "Error parsing string."@
    ||| m == "Error parsing object."@
    ||| m == "Error parsing number."@
    ||| m == "Error parsing bool."@
    ||| m == "Error parsing null."@
}

/// A delimiter that ends a bare literal: the comma and the two closers.
pub open spec fn is_delim(c: char) -> bool {
    c == ',' || c == '}' || c == ']'
}

/// Text that can be copied into a quoted string and read back: it holds
/// no quote, so the closing quote found is the one that was printed.
pub open spec fn text_ok(s: Seq<char>) -> bool {
    forall|k: int| 0 <= k < s.len() ==> s[k] != '"'
}

/// A tree that prints to text the parser reads back as the same tree:
/// entry names and string contents hold no quote, numeric text is
/// well-formed, and an object never holds a raw object child — exactly
/// the trees the mutation API builds from well-formed leaves.
pub open spec fn wf(v: JsonView) -> bool
    decreases v,
{
    match v {
        JsonView::OBJECT { name, value } => text_ok(name) && wf(*value),
        JsonView::JSON(cs) => forall|k: int|
            0 <= k < cs.len() ==> !((#[trigger] cs[k]) is JSON) && wf(cs[k]),
        JsonView::ARRAY(cs) => forall|k: int| 0 <= k < cs.len() ==> wf(#[trigger] cs[k]),
        JsonView::STRING(s) => text_ok(s),
        JsonView::NUMBER(s) => is_number_text(s),
        JsonView::BOOL(_) => true,
        JsonView::NULL => true,
    }
}

/// Whether what follows a printed value at position `end` lets the parser
/// stop exactly there: a bare literal must be followed by a delimiter or
/// the end of input, a string by anything but a colon; brackets close
/// themselves, and an entry ends with its value.
pub open spec fn delim_ok(v: JsonView, s: Seq<char>, end: int) -> bool
    decreases v,
{
    match v {
        JsonView::JSON(_) => true,
        JsonView::ARRAY(_) => true,
        JsonView::STRING(_) => end == s.len() || s[end] != ':',
        JsonView::OBJECT { name: _, value } => delim_ok(*value, s, end),
        _ => end == s.len() || is_delim(s[end]),
    }
}

/// The printed text of `v` stands in `s` at position `i`.
pub open spec fn print_at(s: Seq<char>, i: int, v: JsonView) -> bool {
    &&& 0 <= i
    &&& i + print_view(v).len() <= s.len()
    &&& s.subrange(i, i + print_view(v).len() as int) == print_view(v)
}

/// A well-formed tree printed at the cursor with an acceptable follower:
/// the situation in which a parser must read it back.
pub open spec fn canonical(v: JsonView, s: Seq<char>, start: int) -> bool {
    wf(v) && print_at(s, start, v) && delim_ok(v, s, start + print_view(v).len())
}

/// The canonical-input clause of a sub-parser: whenever a well-formed
/// tree of the handled shapes is printed at the cursor, with an
/// acceptable follower, parsing succeeds with exactly that tree and the
/// cursor moves past its text.
pub open spec fn reads_back(
    v: JsonView,
    s: Seq<char>,
    start: int,
    r: Result<Json, (usize, &'static str)>,
    end: int,
) -> bool {
    canonical(v, s, start) ==> (r matches Ok(j) && j@ == v && end == start + print_view(v).len())
}

/// Every character of well-formed numeric text is a digit, a point, an
/// exponent mark or a sign — never a delimiter, a quote or a colon —
/// and the text begins with a digit.
pub open spec fn num_char(c: char) -> bool {
    is_digit(c) || c == '.' || c == 'e' || c == 'E' || c == '+' || c == '-'
}

/// The dead state of the number automaton absorbs, so accepted text has
/// passed through live states only: every character is a number
/// character, and the first one is a digit.
pub proof fn lemma_number_text_chars(s: Seq<char>)
    requires
        is_number_text(s),
    ensures
        s.len() > 0,
        is_digit(s[0]),
        forall|k: int| 0 <= k < s.len() ==> num_char(#[trigger] s[k]),
{
    lemma_num_run_live(s);
}

/// In any text whose run avoids the dead state, every character steps a
/// live state, so it is a number character; the first steps from 0, so
/// it is a digit.
proof fn lemma_num_run_live(s: Seq<char>)
    requires
        num_run(s) != 6,
        s.len() > 0,
    ensures
        is_digit(s[0]),
        forall|k: int| 0 <= k < s.len() ==> num_char(#[trigger] s[k]),
    decreases s.len(),
{
    let head = s.drop_last();
    assert(num_step(num_run(head), s.last()) != 6);
    assert(num_char(s.last()));
    if s.len() == 1 {
        assert(num_run(head) == 0);
    } else {
        assert(num_run(head) != 6);
        lemma_num_run_live(head);
        assert(head[0] == s[0]);
    }
    assert forall|k: int| 0 <= k < s.len() implies num_char(#[trigger] s[k]) by {
        if k == s.len() - 1 {
            assert(s[k] == s.last());
        } else {
            assert(s[k] == head[k]);
        }
    }
}

/// A literal of delimiter-free text, printed at `i` and followed by a
/// delimiter or the end of input, is consumed exactly: a scan from `i`
/// that stops at the first delimiter or at the end stops right past it.
pub proof fn lemma_literal_run(s: Seq<char>, i: int, t: Seq<char>, stop: int)
    requires
        0 <= i,
        i + t.len() <= s.len(),
        s.subrange(i, i + t.len() as int) == t,
        forall|k: int| 0 <= k < t.len() ==> !is_delim(#[trigger] t[k]),
        i + t.len() == s.len() || is_delim(s[i + t.len()]),
        i <= stop <= s.len(),
        stop == s.len() || is_delim(s[stop as int]),
        forall|k: int| i <= k < stop ==> !is_delim(#[trigger] s[k]),
    ensures
        stop == i + t.len(),
{
    if stop < i + t.len() {
        assert(s[stop] == t[stop - i]);
    }
    if stop > i + t.len() {
        assert(!is_delim(s[i + t.len()]));
    }
}

/// At the very end of the input every printed value may stop.
pub proof fn lemma_delim_ok_at_end(v: JsonView, s: Seq<char>)
    ensures
        delim_ok(v, s, s.len() as int),
    decreases v,
{
    match v {
        JsonView::OBJECT { name: _, value } => {
            lemma_delim_ok_at_end(*value, s);
        },
        _ => {},
    }
}

/// The first printed character of a well-formed tree names its shape.
pub proof fn lemma_first_char(v: JsonView)
    requires
        wf(v),
    ensures
        print_view(v).len() > 0,
        v is JSON ==> print_view(v)[0] == '{',
        v is ARRAY ==> print_view(v)[0] == '[',
        (v is STRING || v is OBJECT) ==> print_view(v)[0] == '"',
        v is BOOL ==> (print_view(v)[0] == 't' || print_view(v)[0] == 'f'),
        v is NULL ==> print_view(v)[0] == 'n',
        v is NUMBER ==> is_digit(print_view(v)[0]),
{
    match v {
        JsonView::NUMBER(s) => {
            lemma_number_text_chars(s);
        },
        _ => {},
    }
}

/// The position just past the printed text of the first `m` children,
/// counting the opening bracket.
pub open spec fn after_children(cs: Seq<JsonView>, i0: int, m: int) -> int {
    i0 + 1 + print_children(cs.take(m)).len()
}

/// The loop state of a container body: `rviews` children are read so far,
/// matching the printed ones, and the cursor rests either right after
/// them or right after the following comma.
pub open spec fn container_inv(cs: Seq<JsonView>, i0: int, rviews: Seq<JsonView>, at: int) -> bool {
    let m = rviews.len() as int;
    &&& m <= cs.len()
    &&& rviews == cs.take(m)
    &&& (at == after_children(cs, i0, m) || (1 <= m && m < cs.len() && at == after_children(
        cs,
        i0,
        m,
    ) + 1))
}

/// The printed text of the first `k` children is a prefix of the printed
/// text of all of them.
proof fn lemma_pc_prefix(cs: Seq<JsonView>, k: int)
    requires
        0 <= k <= cs.len(),
    ensures
        print_children(cs.take(k)).len() <= print_children(cs).len(),
        print_children(cs).subrange(0, print_children(cs.take(k)).len() as int) == print_children(
            cs.take(k),
        ),
    decreases cs.len() - k,
{
    if k == cs.len() {
        assert(cs.take(k) =~= cs);
    } else {
        crate::printer::lemma_print_children_take(cs, k);
        lemma_pc_prefix(cs, k + 1);
        let a = print_children(cs.take(k));
        let b = print_children(cs.take(k + 1));
        let c = print_children(cs);
        assert(b.subrange(0, a.len() as int) =~= a);
        assert(c.subrange(0, a.len() as int) =~= c.subrange(0, b.len() as int).subrange(
            0,
            a.len() as int,
        ));
    }
}

/// Where a delimiter follows, any printed value may stop: a comma or a
/// closer is not a colon and ends a bare literal.
proof fn lemma_delim_ok_from_delim(v: JsonView, s: Seq<char>, end: int)
    requires
        0 <= end < s.len(),
        is_delim(s[end]),
    ensures
        delim_ok(v, s, end),
    decreases v,
{
    match v {
        JsonView::OBJECT { name: _, value } => {
            lemma_delim_ok_from_delim(*value, s, end);
        },
        _ => {},
    }
}

/// Each printed character of a value standing at `i0` can be read off
/// the surrounding text.
proof fn lemma_print_at_chars(s: Seq<char>, i0: int, v: JsonView)
    requires
        print_at(s, i0, v),
    ensures
        forall|j: int| 0 <= j < print_view(v).len() ==> s[i0 + j] == #[trigger] print_view(v)[j],
{
    let t = print_view(v);
    assert forall|j: int| 0 <= j < t.len() implies s[i0 + j] == #[trigger] t[j] by {
        assert(s.subrange(i0, i0 + t.len() as int)[j] == s[i0 + j]);
    }
}

/// A printed container shows its opener, its children's text, and its
/// closer at fixed offsets.
proof fn lemma_container_frame(s: Seq<char>, i0: int, cs: Seq<JsonView>, arr: bool)
    requires
        arr ==> print_at(s, i0, JsonView::ARRAY(cs)),
        !arr ==> print_at(s, i0, JsonView::JSON(cs)),
    ensures
        i0 + 2 + print_children(cs).len() <= s.len(),
        s[i0] == (if arr {
            '['
        } else {
            '{'
        }),
        s[i0 + 1 + print_children(cs).len()] == (if arr {
            ']'
        } else {
            '}'
        }),
        forall|j: int|
            0 <= j < print_children(cs).len() ==> s[i0 + 1 + j] == #[trigger] print_children(cs)[j],
{
    let v = if arr {
        JsonView::ARRAY(cs)
    } else {
        JsonView::JSON(cs)
    };
    let pc = print_children(cs);
    let pv = print_view(v);
    lemma_print_at_chars(s, i0, v);
    assert(pv.len() == pc.len() + 2);
    assert(pv[0] == (if arr {
        '['
    } else {
        '{'
    }));
    assert(pv[1 + pc.len() as int] == (if arr {
        ']'
    } else {
        '}'
    }));
    assert forall|j: int| 0 <= j < pc.len() implies s[i0 + 1 + j] == #[trigger] pc[j] by {
        assert(pv[1 + j] == pc[j]);
        assert(s[i0 + (1 + j)] == pv[1 + j]);
    }
}

/// Inside a printed container, child `m` stands in full (with an
/// acceptable follower) right past the first `m` children and the comma
/// that separates it from them.
proof fn lemma_container_child(s: Seq<char>, i0: int, cs: Seq<JsonView>, m: int, arr: bool)
    requires
        arr ==> canonical(JsonView::ARRAY(cs), s, i0),
        !arr ==> canonical(JsonView::JSON(cs), s, i0),
        0 <= m < cs.len(),
    ensures
        ({
            let sep: int = if m > 0 {
                1int
            } else {
                0int
            };
            let start = after_children(cs, i0, m) + sep;
            &&& m >= 1 ==> s[after_children(cs, i0, m)] == ','
            &&& wf(cs[m])
            &&& canonical(cs[m], s, start)
            &&& print_view(cs[m]).len() >= 1
            &&& s[start] == print_view(cs[m])[0]
            &&& start + print_view(cs[m]).len() == after_children(cs, i0, m + 1)
            &&& after_children(cs, i0, m + 1) <= i0 + 1 + print_children(cs).len()
            &&& start < s.len()
        }),
{
    let pc = print_children(cs);
    lemma_container_frame(s, i0, cs, arr);
    lemma_pc_prefix(cs, m);
    crate::printer::lemma_print_children_take(cs, m);
    lemma_pc_prefix(cs, m + 1);
    let a = print_children(cs.take(m));
    let b = print_children(cs.take(m + 1));
    let child = print_view(cs[m]);
    let sep: int = if m > 0 {
        1int
    } else {
        0int
    };
    assert(b.len() == a.len() + sep + child.len());
    assert(forall|j: int| 0 <= j < b.len() ==> pc[j] == #[trigger] b[j]);
    if m >= 1 {
        assert(b[a.len() as int] == ',');
        assert(s[after_children(cs, i0, m)] == ',');
    }
    let start = after_children(cs, i0, m) + sep;
    assert forall|j: int| 0 <= j < child.len() implies s[start + j] == #[trigger] child[j] by {
        assert(b[a.len() + sep + j] == child[j]);
        assert(pc[a.len() + sep + j] == b[a.len() + sep + j]);
        assert(s[i0 + 1 + (a.len() + sep + j)] == pc[a.len() + sep + j]);
    }
    assert(wf(cs[m])) by {
        if arr {
            assert(wf(JsonView::ARRAY(cs)));
        } else {
            assert(wf(JsonView::JSON(cs)));
        }
    }
    lemma_first_char(cs[m]);
    assert(s.subrange(start, start + child.len() as int) =~= child);
    let e = start + child.len();
    if m + 1 == cs.len() {
        assert(cs.take(m + 1) =~= cs);
        assert(e == i0 + 1 + pc.len());
        assert(is_delim(s[e]));
    } else {
        crate::printer::lemma_print_children_take(cs, m + 1);
        lemma_pc_prefix(cs, m + 2);
        let b2 = print_children(cs.take(m + 2));
        assert(b2[b.len() as int] == ',');
        assert(forall|j: int| 0 <= j < b2.len() ==> pc[j] == #[trigger] b2[j]);
        assert(s[e] == ',');
        assert(is_delim(s[e]));
    }
    lemma_delim_ok_from_delim(cs[m], s, e);
}

/// A printed string or entry opens with a quote.
proof fn lemma_sv_head(v: JsonView, s: Seq<char>, i0: int)
    requires
        v is STRING || v is OBJECT,
        canonical(v, s, i0),
    ensures
        0 <= i0 < s.len(),
        s[i0] == '"',
{
    lemma_first_char(v);
    lemma_print_at_chars(s, i0, v);
}

/// Scanning a printed string or entry, the first quote after the opener
/// closes exactly the printed name or contents: for a string, what was
/// scanned is its contents and no colon follows; for an entry, it is the
/// name, a colon follows, and the entry's value stands right after it.
proof fn lemma_sv_quote(v: JsonView, s: Seq<char>, i0: int, q: int)
    requires
        v is STRING || v is OBJECT,
        canonical(v, s, i0),
        wf(v),
        i0 + 1 <= q < s.len(),
        s[q] == '"',
        forall|k: int| i0 + 1 <= k < q ==> s[k] != '"',
    ensures
        v matches JsonView::STRING(t) ==> q == i0 + 1 + t.len() && s.subrange(i0 + 1, q) =~= t && (
        q + 1 == s.len() || s[q + 1] != ':') && i0 + print_view(v).len() == q + 1,
        v matches JsonView::OBJECT { name, value } ==> q == i0 + 1 + name.len() && s.subrange(
            i0 + 1,
            q,
        ) =~= name && q + 1 < s.len() && s[q + 1] == ':' && wf(*value) && print_at(
            s,
            q + 2,
            *value,
        ) && delim_ok(*value, s, q + 2 + print_view(*value).len() as int) && i0 + print_view(
            v,
        ).len() == q + 2 + print_view(*value).len(),
{
    lemma_print_at_chars(s, i0, v);
    let pv = print_view(v);
    match v {
        JsonView::STRING(t) => {
            assert(forall|k: int| 0 <= k < t.len() ==> pv[1 + k] == #[trigger] t[k]);
            assert forall|k: int| 0 <= k < t.len() implies s[i0 + 1 + k] == #[trigger] t[k] by {
                assert(s[i0 + (1 + k)] == pv[1 + k]);
            }
            assert(s[i0 + 1 + t.len()] == pv[1 + t.len() as int]);
            assert(pv[1 + t.len() as int] == '"');
            if q < i0 + 1 + t.len() {
                assert(s[q] == t[q - (i0 + 1)]);
            }
            if q > i0 + 1 + t.len() {
                assert(s[i0 + 1 + t.len()] != '"');
            }
            assert(q == i0 + 1 + t.len());
            assert forall|k: int| 0 <= k < t.len() implies s.subrange(i0 + 1, q)[k] == #[trigger] t[k] by {
                assert(s.subrange(i0 + 1, q)[k] == s[i0 + 1 + k]);
            }
        },
        JsonView::OBJECT { name, value } => {
            let nm = name;
            let inner = print_view(*value);
            assert(pv =~= seq!['"'] + nm + seq!['"', ':'] + inner);
            assert(forall|k: int| 0 <= k < nm.len() ==> pv[1 + k] == #[trigger] nm[k]);
            assert forall|k: int| 0 <= k < nm.len() implies s[i0 + 1 + k] == #[trigger] nm[k] by {
                assert(s[i0 + (1 + k)] == pv[1 + k]);
            }
            assert(pv[1 + nm.len() as int] == '"');
            assert(s[i0 + 1 + nm.len()] == pv[1 + nm.len() as int]);
            if q < i0 + 1 + nm.len() {
                assert(s[q] == nm[q - (i0 + 1)]);
            }
            if q > i0 + 1 + nm.len() {
                assert(s[i0 + 1 + nm.len()] != '"');
            }
            assert(q == i0 + 1 + nm.len());
            assert forall|k: int| 0 <= k < nm.len() implies s.subrange(i0 + 1, q)[k]
                == #[trigger] nm[k] by {
                assert(s.subrange(i0 + 1, q)[k] == s[i0 + 1 + k]);
            }
            assert(pv[2 + nm.len() as int] == ':');
            assert(s[q + 1] == pv[2 + nm.len() as int]);
            assert(wf(*value));
            lemma_first_char(*value);
            assert(pv.len() == 3 + nm.len() + inner.len());
            assert(q + 1 < s.len());
            assert forall|k: int| 0 <= k < inner.len() implies s[q + 2 + k] == #[trigger] inner[k] by {
                assert(pv[3 + nm.len() + k] == inner[k]);
                assert(s[i0 + (3 + nm.len() + k)] == pv[3 + nm.len() + k]);
            }
            assert(s.subrange(q + 2, q + 2 + inner.len() as int) =~= inner);
        },
        _ => {},
    }
}

/// A printed string or entry always shows a closing quote past its
/// opener and before the end of the input.
proof fn lemma_sv_has_quote(v: JsonView, s: Seq<char>, i0: int)
    requires
        v is STRING || v is OBJECT,
        canonical(v, s, i0),
    ensures
        exists|k: int| i0 + 1 <= k < s.len() && s[k] == '"',
{
    lemma_print_at_chars(s, i0, v);
    let pv = print_view(v);
    match v {
        JsonView::STRING(t) => {
            assert(pv[1 + t.len() as int] == '"');
            assert(s[i0 + 1 + t.len()] == '"');
            assert(i0 + 1 <= i0 + 1 + t.len() < s.len());
        },
        JsonView::OBJECT { name, value } => {
            assert(pv =~= seq!['"'] + name + seq!['"', ':'] + print_view(*value));
            assert(pv[1 + name.len() as int] == '"');
            assert(s[i0 + 1 + name.len()] == '"');
            assert(pv.len() >= 3 + name.len());
            assert(i0 + 1 <= i0 + 1 + name.len() < s.len());
        },
        _ => {},
    }
}

/// An object or array view over the same children.
pub open spec fn cont_view(arr: bool, cs: Seq<JsonView>) -> JsonView {
    if arr {
        JsonView::ARRAY(cs)
    } else {
        JsonView::JSON(cs)
    }
}

/// One step of a container-body loop on canonical input: the cursor sees
/// the closer exactly when every child is read; a comma exactly between a
/// read child and an unread one; and otherwise the next child in full.
proof fn lemma_container_loop_step(
    s: Seq<char>,
    i0: int,
    cs: Seq<JsonView>,
    rv: Seq<JsonView>,
    at: int,
    arr: bool,
)
    requires
        canonical(cont_view(arr, cs), s, i0),
        container_inv(cs, i0, rv, at),
        at < s.len(),
    ensures
        cont_step_cases(cs, s, i0, rv, at, arr),
{
    let m = rv.len() as int;
    lemma_container_frame(s, i0, cs, arr);
    if m == cs.len() && at == after_children(cs, i0, m) {
        assert(cs.take(m) =~= cs);
        assert(s[at] == (if arr {
            ']'
        } else {
            '}'
        }));
    } else {
        assert(m < cs.len());
        lemma_container_child(s, i0, cs, m, arr);
        if 1 <= m && at == after_children(cs, i0, m) {
            assert(s[at] == ',');
            assert(container_inv(cs, i0, rv, at + 1));
        } else {
            // the cursor stands at the start of child m
            lemma_first_char(cs[m]);
            assert(is_token_start(s[at]));
            assert(rv.push(cs[m]) =~= cs.take(m + 1));
            assert(container_inv(cs, i0, rv.push(cs[m]), at + print_view(cs[m]).len() as int));
        }
    }
}

/// On canonical input the container loop's cursor always rests strictly
/// inside the input.
proof fn lemma_container_inv_bounds(
    s: Seq<char>,
    i0: int,
    cs: Seq<JsonView>,
    rv: Seq<JsonView>,
    at: int,
    arr: bool,
)
    requires
        canonical(cont_view(arr, cs), s, i0),
        container_inv(cs, i0, rv, at),
    ensures
        at < s.len(),
{
    let m = rv.len() as int;
    lemma_container_frame(s, i0, cs, arr);
    lemma_pc_prefix(cs, m);
    if m < cs.len() {
        lemma_container_child(s, i0, cs, m, arr);
    }
}

/// The three possible situations of a container-body loop on canonical
/// input, as told apart by the character under the cursor.
pub open spec fn cont_step_cases(
    cs: Seq<JsonView>,
    s: Seq<char>,
    i0: int,
    rv: Seq<JsonView>,
    at: int,
    arr: bool,
) -> bool {
    let m = rv.len() as int;
    let closer = if arr {
        ']'
    } else {
        '}'
    };
    ||| (s[at] == closer && m == cs.len() && rv == cs.take(m) && at + 1 == i0 + print_view(
        cont_view(arr, cs),
    ).len() && at + 1 <= s.len())
    ||| (s[at] == ',' && 1 <= m < cs.len() && container_inv(cs, i0, rv, at + 1))
    ||| (m < cs.len() && wf(cs[m]) && canonical(cs[m], s, at) && s[at] == print_view(cs[m])[0]
        && is_token_start(s[at]) && container_inv(
        cs,
        i0,
        rv.push(cs[m]),
        at + print_view(cs[m]).len() as int,
    ))
}

/// The position where a bare-literal scan starting at `i` stops: the
/// first position at or past `i` holding a delimiter, or the end of the
/// input.
pub open spec fn scan_to_delim(s: Seq<char>, i: int) -> int
    decreases s.len() - i,
{
    if !(0 <= i < s.len()) {
        i
    } else if is_delim(s[i]) {
        i
    } else {
        scan_to_delim(s, i + 1)
    }
}

/// A scan that saw no delimiter through `stop` and stands on one there
/// (or at the end) stopped exactly at `scan_to_delim`.
proof fn lemma_scan_stop(s: Seq<char>, i: int, stop: int)
    requires
        0 <= i <= stop <= s.len(),
        forall|k: int| i <= k < stop ==> !is_delim(#[trigger] s[k]),
        stop == s.len() || is_delim(s[stop]),
    ensures
        scan_to_delim(s, i) == stop,
    decreases stop - i,
{
    if i < stop {
        lemma_scan_stop(s, i + 1, stop);
    }
}

/// A scan for a bare literal, stopped at the first delimiter or the end,
/// consumes exactly a printed `null` when one stands at the cursor.
proof fn lemma_null_run(s: Seq<char>, i: int, stop: int, acc: Seq<char>)
    requires
        i <= stop,
        i <= s.len() ==> stop <= s.len() && acc == s.subrange(i, stop),
        forall|k: int| i <= k < stop ==> !is_delim(#[trigger] s[k]),
        stop >= s.len() || is_delim(s[stop]),
    ensures
        print_at(s, i, JsonView::NULL) && delim_ok(JsonView::NULL, s, i + 4) ==> stop == i + 4
            && acc == seq!['n', 'u', 'l', 'l'],
{
    if print_at(s, i, JsonView::NULL) && delim_ok(JsonView::NULL, s, i + 4) {
        let t = print_view(JsonView::NULL);
        assert(t =~= seq!['n', 'u', 'l', 'l']);
        assert(!is_delim(t[0]) && !is_delim(t[1]) && !is_delim(t[2]) && !is_delim(t[3]));
        assert(forall|k: int| 0 <= k < t.len() ==> !is_delim(#[trigger] t[k]));
        lemma_literal_run(s, i, t, stop);
        assert(acc =~= t);
    }
}

/// The same scan consumes exactly a printed `true` or `false`.
proof fn lemma_bool_run(s: Seq<char>, i: int, stop: int, acc: Seq<char>)
    requires
        i <= stop,
        i <= s.len() ==> stop <= s.len() && acc == s.subrange(i, stop),
        forall|k: int| i <= k < stop ==> !is_delim(#[trigger] s[k]),
        stop >= s.len() || is_delim(s[stop]),
    ensures
        canonical(JsonView::BOOL(true), s, i) ==> stop == i + 4 && acc == seq!['t', 'r', 'u', 'e'],
        canonical(JsonView::BOOL(false), s, i) ==> stop == i + 5 && acc == seq![
            'f',
            'a',
            'l',
            's',
            'e',
        ],
{
    if canonical(JsonView::BOOL(true), s, i) {
        let t = print_view(JsonView::BOOL(true));
        assert(t =~= seq!['t', 'r', 'u', 'e']);
        assert(!is_delim(t[0]) && !is_delim(t[1]) && !is_delim(t[2]) && !is_delim(t[3]));
        assert(forall|k: int| 0 <= k < t.len() ==> !is_delim(#[trigger] t[k]));
        lemma_literal_run(s, i, t, stop);
        assert(acc =~= t);
    }
    if canonical(JsonView::BOOL(false), s, i) {
        let t = print_view(JsonView::BOOL(false));
        assert(t =~= seq!['f', 'a', 'l', 's', 'e']);
        assert(!is_delim(t[0]) && !is_delim(t[1]) && !is_delim(t[2]) && !is_delim(t[3]) && !is_delim(
            t[4],
        ));
        assert(forall|k: int| 0 <= k < t.len() ==> !is_delim(#[trigger] t[k]));
        lemma_literal_run(s, i, t, stop);
        assert(acc =~= t);
    }
}

/// The same scan consumes exactly printed well-formed numeric text, whose
/// characters are never delimiters.
proof fn lemma_number_run(s: Seq<char>, i: int, stop: int, acc: Seq<char>, t: Seq<char>)
    requires
        i <= stop,
        i <= s.len() ==> stop <= s.len() && acc == s.subrange(i, stop),
        forall|k: int| i <= k < stop ==> !is_delim(#[trigger] s[k]),
        stop >= s.len() || is_delim(s[stop]),
        canonical(JsonView::NUMBER(t), s, i),
    ensures
        stop == i + t.len(),
        acc == t,
{
    lemma_number_text_chars(t);
    assert forall|k: int| 0 <= k < t.len() implies !is_delim(#[trigger] t[k]) by {
        assert(num_char(t[k]));
    }
    assert(print_view(JsonView::NUMBER(t)) == t);
    lemma_literal_run(s, i, t, stop);
    assert(acc =~= t);
}


/// A container body as the parser reads it, per the grammar: from `from`
/// up to (excluding) `to`, the text repeatedly shows either a comma,
/// which is skipped and adds no child, or the printed text of the next
/// child with a follower its parser stops at.
pub open spec fn body_text(s: Seq<char>, from: int, to: int, cs: Seq<JsonView>) -> bool
    decreases to - from,
{
    if from >= to {
        from == to && cs.len() == 0
    } else {
        ||| (s[from] == ',' && body_text(s, from + 1, to, cs))
        ||| (cs.len() > 0 && print_view(cs[0]).len() >= 1 && from + print_view(cs[0]).len() <= to
            && s.subrange(from, from + print_view(cs[0]).len() as int) == print_view(cs[0])
            && delim_ok(cs[0], s, from + print_view(cs[0]).len()) && body_text(
            s,
            from + print_view(cs[0]).len(),
            to,
            cs.drop_first(),
        ))
    }
}

/// A whole object standing at `i0`: an opening brace, a comma-tolerant
/// body spelling the well-formed children `cs`, and the closing brace at
/// `to`.
pub open spec fn loose_object_at(s: Seq<char>, i0: int, to: int, cs: Seq<JsonView>) -> bool {
    &&& (forall|k: int| 0 <= k < cs.len() ==> !((#[trigger] cs[k]) is JSON) && wf(cs[k]))
    &&& 0 <= i0 < to < s.len()
    &&& s[i0] == '{'
    &&& s[to] == '}'
    &&& body_text(s, i0 + 1, to, cs)
}

/// A whole array standing at `i0`, as [`loose_object_at`] with brackets.
pub open spec fn loose_array_at(s: Seq<char>, i0: int, to: int, cs: Seq<JsonView>) -> bool {
    &&& (forall|k: int| 0 <= k < cs.len() ==> wf(#[trigger] cs[k]))
    &&& 0 <= i0 < to < s.len()
    &&& s[i0] == '['
    &&& s[to] == ']'
    &&& body_text(s, i0 + 1, to, cs)
}

/// The body-loop state on comma-tolerant input: the children read so far
/// are the first of `cs`, and the rest of the body text spells the rest.
pub open spec fn loose_inv(
    s: Seq<char>,
    cs: Seq<JsonView>,
    to: int,
    rv: Seq<JsonView>,
    at: int,
) -> bool {
    &&& rv.len() <= cs.len()
    &&& rv == cs.take(rv.len() as int)
    &&& 0 <= at <= to
    &&& body_text(s, at, to, cs.skip(rv.len() as int))
}

/// One step of a body loop on comma-tolerant input: the closer appears
/// exactly at `to` once all children are read; a comma is skipped; and
/// otherwise the next child stands at the cursor in full.
proof fn lemma_loose_step(
    s: Seq<char>,
    i0: int,
    to: int,
    cs: Seq<JsonView>,
    rv: Seq<JsonView>,
    at: int,
    arr: bool,
)
    requires
        arr ==> loose_array_at(s, i0, to, cs),
        !arr ==> loose_object_at(s, i0, to, cs),
        loose_inv(s, cs, to, rv, at),
    ensures
        ({
            let m = rv.len() as int;
            ||| (at == to && m == cs.len() && rv == cs && s[at] == (if arr {
                ']'
            } else {
                '}'
            }))
            ||| (at < to && s[at] == ',' && loose_inv(s, cs, to, rv, at + 1))
            ||| (at < to && m < cs.len() && wf(cs[m]) && canonical(cs[m], s, at) && s[at]
                == print_view(cs[m])[0] && is_token_start(s[at]) && loose_inv(
                s,
                cs,
                to,
                rv.push(cs[m]),
                at + print_view(cs[m]).len() as int,
            ))
        }),
{
    let m = rv.len() as int;
    let rest = cs.skip(m);
    assert(body_text(s, at, to, rest));
    if at == to {
        assert(rest.len() == 0);
        assert(m == cs.len());
        assert(rv =~= cs);
    } else if s[at] == ',' && body_text(s, at + 1, to, rest) {
        assert(loose_inv(s, cs, to, rv, at + 1));
    } else {
        assert(rest.len() > 0 && print_view(rest[0]).len() >= 1 && at + print_view(rest[0]).len()
            <= to && s.subrange(at, at + print_view(rest[0]).len() as int) == print_view(rest[0])
            && delim_ok(rest[0], s, at + print_view(rest[0]).len()) && body_text(
            s,
            at + print_view(rest[0]).len(),
            to,
            rest.drop_first(),
        ));
        assert(rest.len() == cs.len() - m);
        assert(m < cs.len());
        assert(rest[0] == cs[m]);
        let child = print_view(cs[m]);
        assert(s.subrange(at, at + child.len() as int) == child);
        assert(wf(cs[m]));
        lemma_first_char(cs[m]);
        assert(s[at] == child[0]) by {
            assert(s.subrange(at, at + child.len() as int) == child);
            assert(child[0] == s.subrange(at, at + child.len() as int)[0]);
            assert(s.subrange(at, at + child.len() as int)[0] == s[at + 0]);
        }
        assert(canonical(cs[m], s, at));
        assert(rv.push(cs[m]) =~= cs.take(m + 1));
        assert(rest.drop_first() =~= cs.skip(m + 1));
        assert(loose_inv(s, cs, to, rv.push(cs[m]), at + child.len() as int));
    }
}

/// As [`lemma_json_reads_child`], on comma-tolerant input.
proof fn lemma_json_loose_child(
    s: Seq<char>,
    i0: int,
    rv: Seq<JsonView>,
    at: int,
    got: JsonView,
    now: int,
)
    requires
        forall|cs: Seq<JsonView>, to: int|
            loose_object_at(s, i0, to, cs) ==> loose_inv(s, cs, to, rv, at),
        s[at] != '}',
        s[at] != ',',
        forall|w: JsonView|
            (wf(w) && canonical(w, s, at) && print_view(w)[0] == s[at]) ==> got == w && now == at
                + print_view(w).len(),
    ensures
        forall|cs: Seq<JsonView>, to: int|
            loose_object_at(s, i0, to, cs) ==> loose_inv(s, cs, to, rv.push(got), now),
{
    assert forall|cs: Seq<JsonView>, to: int|
        loose_object_at(s, i0, to, cs) implies loose_inv(s, cs, to, rv.push(got), now) by {
        lemma_loose_step(s, i0, to, cs, rv, at, false);
        let m = rv.len() as int;
        assert(m < cs.len() && wf(cs[m]) && canonical(cs[m], s, at) && s[at] == print_view(
            cs[m],
        )[0]);
        assert(got == cs[m] && now == at + print_view(cs[m]).len());
    }
}

/// As [`lemma_json_read_fails`], on comma-tolerant input.
proof fn lemma_json_loose_fails(s: Seq<char>, i0: int, rv: Seq<JsonView>, at: int)
    requires
        forall|cs: Seq<JsonView>, to: int|
            loose_object_at(s, i0, to, cs) ==> loose_inv(s, cs, to, rv, at),
        s[at] != '}',
        s[at] != ',',
        forall|w: JsonView| (wf(w) && canonical(w, s, at) && print_view(w)[0] == s[at]) ==> false,
    ensures
        forall|cs: Seq<JsonView>, to: int| !loose_object_at(s, i0, to, cs),
{
    assert forall|cs: Seq<JsonView>, to: int| !loose_object_at(s, i0, to, cs) by {
        if loose_object_at(s, i0, to, cs) {
            lemma_loose_step(s, i0, to, cs, rv, at, false);
            let m = rv.len() as int;
            assert(m < cs.len() && wf(cs[m]) && canonical(cs[m], s, at) && s[at] == print_view(
                cs[m],
            )[0]);
        }
    }
}

/// As [`lemma_json_loose_child`], for an array body.
proof fn lemma_array_loose_child(
    s: Seq<char>,
    i0: int,
    rv: Seq<JsonView>,
    at: int,
    got: JsonView,
    now: int,
)
    requires
        forall|cs: Seq<JsonView>, to: int|
            loose_array_at(s, i0, to, cs) ==> loose_inv(s, cs, to, rv, at),
        s[at] != ']',
        s[at] != ',',
        forall|w: JsonView|
            (wf(w) && canonical(w, s, at) && print_view(w)[0] == s[at]) ==> got == w && now == at
                + print_view(w).len(),
    ensures
        forall|cs: Seq<JsonView>, to: int|
            loose_array_at(s, i0, to, cs) ==> loose_inv(s, cs, to, rv.push(got), now),
{
    assert forall|cs: Seq<JsonView>, to: int|
        loose_array_at(s, i0, to, cs) implies loose_inv(s, cs, to, rv.push(got), now) by {
        lemma_loose_step(s, i0, to, cs, rv, at, true);
        let m = rv.len() as int;
        assert(m < cs.len() && wf(cs[m]) && canonical(cs[m], s, at) && s[at] == print_view(
            cs[m],
        )[0]);
        assert(got == cs[m] && now == at + print_view(cs[m]).len());
    }
}

/// As [`lemma_json_loose_fails`], for an array body.
proof fn lemma_array_loose_fails(s: Seq<char>, i0: int, rv: Seq<JsonView>, at: int)
    requires
        forall|cs: Seq<JsonView>, to: int|
            loose_array_at(s, i0, to, cs) ==> loose_inv(s, cs, to, rv, at),
        s[at] != ']',
        s[at] != ',',
        forall|w: JsonView| (wf(w) && canonical(w, s, at) && print_view(w)[0] == s[at]) ==> false,
    ensures
        forall|cs: Seq<JsonView>, to: int| !loose_array_at(s, i0, to, cs),
{
    assert forall|cs: Seq<JsonView>, to: int| !loose_array_at(s, i0, to, cs) by {
        if loose_array_at(s, i0, to, cs) {
            lemma_loose_step(s, i0, to, cs, rv, at, true);
            let m = rv.len() as int;
            assert(m < cs.len() && wf(cs[m]) && canonical(cs[m], s, at) && s[at] == print_view(
                cs[m],
            )[0]);
        }
    }
}

/// How many quote characters stand in `s` between `from` and `to`.
pub open spec fn quote_count(s: Seq<char>, from: int, to: int) -> int
    decreases to - from,
{
    if from >= to {
        0
    } else {
        quote_count(s, from + 1, to) + (if s[from] == '"' {
            1int
        } else {
            0int
        })
    }
}

/// Quote counts add up over adjacent spans.
proof fn lemma_quote_count_split(s: Seq<char>, a: int, b: int, c: int)
    requires
        a <= b <= c,
    ensures
        quote_count(s, a, c) == quote_count(s, a, b) + quote_count(s, b, c),
    decreases b - a,
{
    if a < b {
        lemma_quote_count_split(s, a + 1, b, c);
    }
}

/// A span without quotes counts zero.
proof fn lemma_quote_count_none(s: Seq<char>, a: int, b: int)
    requires
        forall|k: int| a <= k < b ==> s[k] != '"',
    ensures
        quote_count(s, a, b) == 0,
    decreases b - a,
{
    if a < b {
        lemma_quote_count_none(s, a + 1, b);
    }
}

/// Extending an even-quoted span by one non-quote character keeps it
/// even-quoted.
proof fn lemma_qc_extend_char(s: Seq<char>, i0: int, at: int)
    requires
        quote_count(s, i0, at) % 2 == 0,
        i0 <= at,
        s[at] != '"',
    ensures
        quote_count(s, i0, at + 1) % 2 == 0,
{
    lemma_quote_count_split(s, i0, at, at + 1);
    assert(quote_count(s, at + 1, at + 1) == 0);
    assert(quote_count(s, at, at + 1) == 0);
}

/// Extending an even-quoted span by an even-quoted span keeps it
/// even-quoted.
proof fn lemma_qc_extend_even(s: Seq<char>, i0: int, at: int, to2: int)
    requires
        quote_count(s, i0, at) % 2 == 0,
        i0 <= at <= to2,
        quote_count(s, at, to2) % 2 == 0,
    ensures
        quote_count(s, i0, to2) % 2 == 0,
{
    lemma_quote_count_split(s, i0, at, to2);
}

/// A child parser that read back the value standing at a child-start
/// position advances a container-body loop by exactly that child.
proof fn lemma_json_reads_child(
    s: Seq<char>,
    i0: int,
    rv: Seq<JsonView>,
    at: int,
    got: JsonView,
    now: int,
)
    requires
        forall|cs: Seq<JsonView>|
            canonical(JsonView::JSON(cs), s, i0) ==> cont_step_cases(cs, s, i0, rv, at, false),
        s[at] != '}',
        s[at] != ',',
        forall|w: JsonView|
            (wf(w) && canonical(w, s, at) && print_view(w)[0] == s[at]) ==> got == w && now == at
                + print_view(w).len(),
    ensures
        forall|cs: Seq<JsonView>|
            canonical(JsonView::JSON(cs), s, i0) ==> container_inv(cs, i0, rv.push(got), now),
{
    assert forall|cs: Seq<JsonView>|
        canonical(JsonView::JSON(cs), s, i0) implies container_inv(cs, i0, rv.push(got), now) by {
        assert(cont_step_cases(cs, s, i0, rv, at, false));
        let m = rv.len() as int;
        assert(m < cs.len() && wf(cs[m]) && canonical(cs[m], s, at) && s[at] == print_view(
            cs[m],
        )[0]);
    }
}

/// A child parser that failed at a child-start position rules canonical
/// input out: the body under scrutiny is the print of no well-formed
/// tree.
proof fn lemma_json_read_fails(s: Seq<char>, i0: int, rv: Seq<JsonView>, at: int)
    requires
        forall|cs: Seq<JsonView>|
            canonical(JsonView::JSON(cs), s, i0) ==> cont_step_cases(cs, s, i0, rv, at, false),
        s[at] != '}',
        s[at] != ',',
        forall|w: JsonView| (wf(w) && canonical(w, s, at) && print_view(w)[0] == s[at]) ==> false,
    ensures
        forall|cs: Seq<JsonView>| !canonical(JsonView::JSON(cs), s, i0),
{
    assert forall|cs: Seq<JsonView>| !canonical(JsonView::JSON(cs), s, i0) by {
        if canonical(JsonView::JSON(cs), s, i0) {
            assert(cont_step_cases(cs, s, i0, rv, at, false));
            let m = rv.len() as int;
            assert(m < cs.len() && wf(cs[m]) && canonical(cs[m], s, at) && s[at] == print_view(
                cs[m],
            )[0]);
        }
    }
}

/// As [`lemma_json_reads_child`], for an array body.
proof fn lemma_array_reads_child(
    s: Seq<char>,
    i0: int,
    rv: Seq<JsonView>,
    at: int,
    got: JsonView,
    now: int,
)
    requires
        forall|cs: Seq<JsonView>|
            canonical(JsonView::ARRAY(cs), s, i0) ==> cont_step_cases(cs, s, i0, rv, at, true),
        s[at] != ']',
        s[at] != ',',
        forall|w: JsonView|
            (wf(w) && canonical(w, s, at) && print_view(w)[0] == s[at]) ==> got == w && now == at
                + print_view(w).len(),
    ensures
        forall|cs: Seq<JsonView>|
            canonical(JsonView::ARRAY(cs), s, i0) ==> container_inv(cs, i0, rv.push(got), now),
{
    assert forall|cs: Seq<JsonView>|
        canonical(JsonView::ARRAY(cs), s, i0) implies container_inv(cs, i0, rv.push(got), now) by {
        assert(cont_step_cases(cs, s, i0, rv, at, true));
        let m = rv.len() as int;
        assert(m < cs.len() && wf(cs[m]) && canonical(cs[m], s, at) && s[at] == print_view(
            cs[m],
        )[0]);
    }
}

/// As [`lemma_json_read_fails`], for an array body.
proof fn lemma_array_read_fails(s: Seq<char>, i0: int, rv: Seq<JsonView>, at: int)
    requires
        forall|cs: Seq<JsonView>|
            canonical(JsonView::ARRAY(cs), s, i0) ==> cont_step_cases(cs, s, i0, rv, at, true),
        s[at] != ']',
        s[at] != ',',
        forall|w: JsonView| (wf(w) && canonical(w, s, at) && print_view(w)[0] == s[at]) ==> false,
    ensures
        forall|cs: Seq<JsonView>| !canonical(JsonView::ARRAY(cs), s, i0),
{
    assert forall|cs: Seq<JsonView>| !canonical(JsonView::ARRAY(cs), s, i0) by {
        if canonical(JsonView::ARRAY(cs), s, i0) {
            assert(cont_step_cases(cs, s, i0, rv, at, true));
            let m = rv.len() as int;
            assert(m < cs.len() && wf(cs[m]) && canonical(cs[m], s, at) && s[at] == print_view(
                cs[m],
            )[0]);
        }
    }
}

impl Json {
    /// Parse a whole JSON value from raw bytes. An empty input, or a
    /// leading byte that starts no token (whitespace included), is an
    /// error at offset 0; otherwise the sub-parser chosen by the leading
    /// byte runs.
    ///
    /// Round trip: whenever the input reads exactly as the printed text
    /// of a well-formed tree, parsing succeeds and reproduces that tree —
    /// the same shape, scalar values and child order.
    pub fn parse(input: &[u8]) -> (r: Result<Json, (usize, &'static str)>)
        ensures
            (input@.len() == 0 || !is_token_start(chars_of(input@)[0])) ==> (r matches Err(e)
                && e.0 == 0 && e.1@ == "Not a valid json format"@),
            forall|v: JsonView|
                (wf(v) && chars_of(input@) == print_view(v)) ==> (r matches Ok(j) && j@ == v),
            r matches Err(e) ==> e.0 <= input@.len() && error_message_ok(e.1@),
            (input@.len() > 0 && chars_of(input@)[0] == '{' && r is Ok) ==> (exists|end: int|
                0 < end <= input@.len() && chars_of(input@)[end - 1] == '}' && (#[trigger] quote_count(
                    chars_of(input@),
                    0,
                    end,
                )) % 2 == 0),
            (input@.len() > 0 && chars_of(input@)[0] == '[' && r is Ok) ==> (exists|end: int|
                0 < end <= input@.len() && chars_of(input@)[end - 1] == ']' && (#[trigger] quote_count(
                    chars_of(input@),
                    0,
                    end,
                )) % 2 == 0),
            (input@.len() > 0 && (chars_of(input@)[0] == 't' || chars_of(input@)[0] == 'f')) ==> (
            r matches Err(e) ==> e.1@ == "Error parsing bool."@ && e.0 == scan_to_delim(
                chars_of(input@),
                0,
            )),
            (input@.len() > 0 && chars_of(input@)[0] == 'n') ==> (r matches Err(e) ==> e.1@
                == "Error parsing null."@ && e.0 == scan_to_delim(chars_of(input@), 0)),
            (input@.len() > 0 && is_digit(chars_of(input@)[0])) ==> (r matches Err(e) ==> e.1@
                == "Error parsing number."@ && e.0 == scan_to_delim(chars_of(input@), 0)),
            (input@.len() > 0 && chars_of(input@)[0] == '"' && (forall|k: int|
                0 < k < input@.len() ==> chars_of(input@)[k] != '"')) ==> (r matches Err(e) && e.0
                == input@.len() && e.1@ == "Error parsing string."@),
            forall|cs: Seq<JsonView>, to: int|
                loose_object_at(chars_of(input@), 0, to, cs) ==> (r matches Ok(j) && j@
                    == JsonView::JSON(cs)),
            forall|cs: Seq<JsonView>, to: int|
                loose_array_at(chars_of(input@), 0, to, cs) ==> (r matches Ok(j) && j@
                    == JsonView::ARRAY(cs)),
    {
        let ghost s = chars_of(input@);
        proof {
            assert forall|v: JsonView|
                wf(v) && s == print_view(v) implies canonical(v, s, 0) && print_view(v).len()
                == s.len() && print_view(v).len() > 0 && s[0] == print_view(v)[0]
                && is_token_start(s[0]) by {
                lemma_first_char(v);
                lemma_delim_ok_at_end(v, s);
                assert(s.subrange(0, print_view(v).len() as int) =~= print_view(v));
            }
        }
        let mut incr: usize = 0;
        if input.len() == 0 {
            return Err((incr, "Not a valid json format"));
        }
        match input[incr] as char {
            '{' => {
                let sub = Self::parse_json(input, &mut incr);
                proof {
                    assert forall|v: JsonView|
                        wf(v) && s == print_view(v) implies (sub matches Ok(j) && j@ == v) by {
                        lemma_first_char(v);
                        assert(reads_back(JsonView::JSON(v->JSON_0), s, 0, sub, incr as int));
                    }
                    if sub is Ok {
                        assert(chars_of(input@)[incr - 1] == '}');
                        assert(quote_count(chars_of(input@), 0, incr as int) % 2 == 0);
                    }
                }
                sub
            },
            '\"' => {
                let sub = Self::parse_string(input, &mut incr);
                proof {
                    assert forall|v: JsonView|
                        wf(v) && s == print_view(v) implies (sub matches Ok(j) && j@ == v) by {
                        lemma_first_char(v);
                        assert(reads_back(v, s, 0, sub, incr as int));
                    }
                }
                sub
            },
            '[' => {
                let sub = Self::parse_array(input, &mut incr);
                proof {
                    assert forall|v: JsonView|
                        wf(v) && s == print_view(v) implies (sub matches Ok(j) && j@ == v) by {
                        lemma_first_char(v);
                        assert(reads_back(JsonView::ARRAY(v->ARRAY_0), s, 0, sub, incr as int));
                    }
                    if sub is Ok {
                        assert(chars_of(input@)[incr - 1] == ']');
                        assert(quote_count(chars_of(input@), 0, incr as int) % 2 == 0);
                    }
                }
                sub
            },
            't' => {
                let sub = Self::parse_bool(input, &mut incr);
                proof {
                    assert forall|v: JsonView|
                        wf(v) && s == print_view(v) implies (sub matches Ok(j) && j@ == v) by {
                        lemma_first_char(v);
                    }
                }
                sub
            },
            'f' => {
                let sub = Self::parse_bool(input, &mut incr);
                proof {
                    assert forall|v: JsonView|
                        wf(v) && s == print_view(v) implies (sub matches Ok(j) && j@ == v) by {
                        lemma_first_char(v);
                    }
                }
                sub
            },
            'n' => {
                let sub = Self::parse_null(input, &mut incr);
                proof {
                    assert forall|v: JsonView|
                        wf(v) && s == print_view(v) implies (sub matches Ok(j) && j@ == v) by {
                        lemma_first_char(v);
                    }
                }
                sub
            },
            c => {
                let u = c as u32;
                if 48 <= u && u <= 57 {
                    let sub = Self::parse_number(input, &mut incr);
                    proof {
                        assert forall|v: JsonView|
                            wf(v) && s == print_view(v) implies (sub matches Ok(j) && j@ == v) by {
                            lemma_first_char(v);
                            assert(reads_back(JsonView::NUMBER(v->NUMBER_0), s, 0, sub, incr as int));
                        }
                    }
                    sub
                } else {
                    Err((incr, "Not a valid json format"))
                }
            },
        }
    }

    /// Parse an object body at the cursor: an opening `{`, then entries
    /// and stray values separated by commas, through the matching `}`.
    fn parse_json(input: &[u8], incr: &mut usize) -> (r: Result<Json, (usize, &'static str)>)
        requires
            *old(incr) <= input@.len(),
        ensures
            r matches Ok(j) ==> *old(incr) < *final(incr) <= input@.len() && j@ is JSON,
            r matches Ok(j) ==> chars_of(input@)[*old(incr) as int] == '{' && chars_of(
                input@,
            )[*final(incr) - 1] == '}',
            r matches Ok(j) ==> (j@ matches JsonView::JSON(cs) && (forall|k: int|
                0 <= k < cs.len() ==> !((#[trigger] cs[k]) is JSON))),
            r matches Err(e) ==> e.0 <= input@.len() && error_message_ok(e.1@),
            (*old(incr) == input@.len() || chars_of(input@)[*old(incr) as int] != '{') ==> (
            r matches Err(e) && e.0 == *old(incr) && e.1@ == "Error parsing json."@ && *final(incr)
                == *old(incr)),
            forall|cs: Seq<JsonView>|
                reads_back(
                    JsonView::JSON(cs),
                    chars_of(input@),
                    *old(incr) as int,
                    r,
                    *final(incr) as int,
                ),
            forall|cs: Seq<JsonView>, to: int|
                loose_object_at(chars_of(input@), *old(incr) as int, to, cs) ==> (r matches Ok(j)
                    && j@ == JsonView::JSON(cs) && *final(incr) == to + 1),
            r is Ok ==> quote_count(chars_of(input@), *old(incr) as int, *final(incr) as int) % 2
                == 0,
        decreases input@.len() - *old(incr), 0int,
    {
        let ghost s = chars_of(input@);
        let ghost i0 = *old(incr) as int;
        let mut result: Vec<Json> = Vec::new();

        if *incr >= input.len() || input[*incr] as char != '{' {
            proof {
                assert forall|cs: Seq<JsonView>|
                    canonical(JsonView::JSON(cs), s, i0) implies false by {
                    lemma_container_frame(s, i0, cs, false);
                }
                assert(forall|cs: Seq<JsonView>, to: int| !loose_object_at(s, i0, to, cs));
            }
            return Err((*incr, "Error parsing json."));
        }
        *incr += 1;
        proof {
            assert forall|cs: Seq<JsonView>|
                canonical(JsonView::JSON(cs), s, i0) implies container_inv(
                cs,
                i0,
                views(result@),
                *incr as int,
            ) by {
                assert(views(result@) =~= cs.take(0));
                assert(cs.take(0) =~= Seq::<JsonView>::empty());
            }
            assert forall|cs: Seq<JsonView>, to: int|
                loose_object_at(s, i0, to, cs) implies loose_inv(
                s,
                cs,
                to,
                views(result@),
                *incr as int,
            ) by {
                assert(views(result@) =~= cs.take(0));
                assert(cs.skip(0) =~= cs);
            }
            assert(quote_count(s, i0 + 1, i0 + 1) == 0);
            assert(quote_count(s, i0, i0 + 1) == 0);
        }

        loop
            invariant
                s == chars_of(input@),
                i0 == *old(incr),
                0 <= i0 < input@.len(),
                s[i0] == '{',
                i0 < *incr <= input@.len(),
                forall|k: int|
                    0 <= k < views(result@).len() ==> !((#[trigger] views(result@)[k]) is JSON),
                forall|cs: Seq<JsonView>|
                    canonical(JsonView::JSON(cs), s, i0) ==> container_inv(
                        cs,
                        i0,
                        views(result@),
                        *incr as int,
                    ),
                forall|cs: Seq<JsonView>, to: int|
                    loose_object_at(s, i0, to, cs) ==> loose_inv(
                        s,
                        cs,
                        to,
                        views(result@),
                        *incr as int,
                    ),
                quote_count(s, i0, *incr as int) % 2 == 0,
            decreases input@.len() - *incr,
        {
            let ghost rv = views(result@);
            if *incr >= input.len() {
                proof {
                    assert forall|cs: Seq<JsonView>|
                        canonical(JsonView::JSON(cs), s, i0) implies false by {
                        lemma_container_inv_bounds(s, i0, cs, rv, *incr as int, false);
                    }
                    assert forall|cs: Seq<JsonView>, to: int|
                        loose_object_at(s, i0, to, cs) implies false by {
                        assert(loose_inv(s, cs, to, rv, *incr as int));
                    }
                }
                return Err((*incr, "Error parsing json."));
            }
            let ghost at = *incr as int;
            proof {
                assert forall|cs: Seq<JsonView>|
                    canonical(JsonView::JSON(cs), s, i0) implies cont_step_cases(
                    cs,
                    s,
                    i0,
                    rv,
                    at,
                    false,
                ) by {
                    lemma_container_loop_step(s, i0, cs, rv, at, false);
                }
            }
            match input[*incr] as char {
                ',' => {
                    proof {
                        assert(!is_token_start(','));
                        assert forall|cs: Seq<JsonView>|
                            canonical(JsonView::JSON(cs), s, i0) implies container_inv(
                            cs,
                            i0,
                            rv,
                            at + 1,
                        ) by {
                            assert(cont_step_cases(cs, s, i0, rv, at, false));
                        }
                        assert forall|cs: Seq<JsonView>, to: int|
                            loose_object_at(s, i0, to, cs) implies loose_inv(s, cs, to, rv, at + 1) by {
                            lemma_loose_step(s, i0, to, cs, rv, at, false);
                        }
                        lemma_qc_extend_char(s, i0, at);
                    }
                    *incr += 1;
                },
                '\"' => {
                    match Self::parse_string(input, incr) {
                        Ok(json) => {
                            proof {
                                lemma_views_push(result@, json);
                                assert(!(json@ is JSON));
                                assert forall|w: JsonView|
                                    (wf(w) && canonical(w, s, at) && print_view(w)[0] == s[at]) implies json@
                                    == w && (*incr as int) == at + print_view(w).len() by {
                                    lemma_first_char(w);
                                    assert(reads_back(w, s, at, Ok::<Json, (usize, &'static str)>(json), *incr as int));
                                }
                                lemma_json_reads_child(s, i0, rv, at, json@, *incr as int);
                                lemma_json_loose_child(s, i0, rv, at, json@, *incr as int);
                                lemma_qc_extend_even(s, i0, at, *incr as int);
                            }
                            result.push(json);
                        },
                        Err(e) => {
                            proof {
                                assert forall|w: JsonView|
                                    (wf(w) && canonical(w, s, at) && print_view(w)[0] == s[at]) implies false by {
                                    lemma_first_char(w);
                                    assert(reads_back(w, s, at, Err::<Json, (usize, &'static str)>(e), *incr as int));
                                }
                                lemma_json_read_fails(s, i0, rv, at);
                                lemma_json_loose_fails(s, i0, rv, at);
                            }
                            return Err(e);
                        },
                    }
                },
                '[' => {
                    match Self::parse_array(input, incr) {
                        Ok(json) => {
                            proof {
                                lemma_views_push(result@, json);
                                assert(!(json@ is JSON));
                                assert forall|w: JsonView|
                                    (wf(w) && canonical(w, s, at) && print_view(w)[0] == s[at]) implies json@
                                    == w && (*incr as int) == at + print_view(w).len() by {
                                    lemma_first_char(w);
                                    assert(reads_back(JsonView::ARRAY(w->ARRAY_0), s, at, Ok::<Json, (usize, &'static str)>(json), *incr as int));
                                }
                                lemma_json_reads_child(s, i0, rv, at, json@, *incr as int);
                                lemma_json_loose_child(s, i0, rv, at, json@, *incr as int);
                                lemma_qc_extend_even(s, i0, at, *incr as int);
                            }
                            result.push(json);
                        },
                        Err(e) => {
                            proof {
                                assert forall|w: JsonView|
                                    (wf(w) && canonical(w, s, at) && print_view(w)[0] == s[at]) implies false by {
                                    lemma_first_char(w);
                                    assert(reads_back(JsonView::ARRAY(w->ARRAY_0), s, at, Err::<Json, (usize, &'static str)>(e), *incr as int));
                                }
                                lemma_json_read_fails(s, i0, rv, at);
                                lemma_json_loose_fails(s, i0, rv, at);
                            }
                            return Err(e);
                        },
                    }
                },
                '{' => {
                    proof {
                        assert forall|cs: Seq<JsonView>|
                            canonical(JsonView::JSON(cs), s, i0) implies false by {
                            assert(cont_step_cases(cs, s, i0, rv, at, false));
                            let m = rv.len() as int;
                            assert(m < cs.len() && wf(cs[m]) && canonical(cs[m], s, at) && s[at]
                                == print_view(cs[m])[0]);
                            lemma_first_char(cs[m]);
                            assert(!is_digit('{'));
                            assert(cs[m] is JSON);
                            assert(wf(JsonView::JSON(cs)));
                            assert(!(cs[m] is JSON));
                        }
                        assert forall|cs: Seq<JsonView>, to: int|
                            loose_object_at(s, i0, to, cs) implies false by {
                            lemma_loose_step(s, i0, to, cs, rv, at, false);
                            let m = rv.len() as int;
                            assert(m < cs.len() && wf(cs[m]) && s[at] == print_view(cs[m])[0]);
                            lemma_first_char(cs[m]);
                            assert(!is_digit('{'));
                            assert(cs[m] is JSON);
                            assert(!(cs[m] is JSON));
                        }
                    }
                    return Err((*incr, "Error parsing json."));
                },
                't' => {
                    match Self::parse_bool(input, incr) {
                        Ok(json) => {
                            proof {
                                lemma_views_push(result@, json);
                                assert(!(json@ is JSON));
                                assert forall|w: JsonView|
                                    (wf(w) && canonical(w, s, at) && print_view(w)[0] == s[at]) implies json@
                                    == w && (*incr as int) == at + print_view(w).len() by {
                                    lemma_first_char(w);
                                }
                                lemma_json_reads_child(s, i0, rv, at, json@, *incr as int);
                                lemma_json_loose_child(s, i0, rv, at, json@, *incr as int);
                                lemma_qc_extend_even(s, i0, at, *incr as int);
                            }
                            result.push(json);
                        },
                        Err(e) => {
                            proof {
                                assert forall|w: JsonView|
                                    (wf(w) && canonical(w, s, at) && print_view(w)[0] == s[at]) implies false by {
                                    lemma_first_char(w);
                                }
                                lemma_json_read_fails(s, i0, rv, at);
                                lemma_json_loose_fails(s, i0, rv, at);
                            }
                            return Err(e);
                        },
                    }
                },
                'f' => {
                    match Self::parse_bool(input, incr) {
                        Ok(json) => {
                            proof {
                                lemma_views_push(result@, json);
                                assert(!(json@ is JSON));
                                assert forall|w: JsonView|
                                    (wf(w) && canonical(w, s, at) && print_view(w)[0] == s[at]) implies json@
                                    == w && (*incr as int) == at + print_view(w).len() by {
                                    lemma_first_char(w);
                                }
                                lemma_json_reads_child(s, i0, rv, at, json@, *incr as int);
                                lemma_json_loose_child(s, i0, rv, at, json@, *incr as int);
                                lemma_qc_extend_even(s, i0, at, *incr as int);
                            }
                            result.push(json);
                        },
                        Err(e) => {
                            proof {
                                assert forall|w: JsonView|
                                    (wf(w) && canonical(w, s, at) && print_view(w)[0] == s[at]) implies false by {
                                    lemma_first_char(w);
                                }
                                lemma_json_read_fails(s, i0, rv, at);
                                lemma_json_loose_fails(s, i0, rv, at);
                            }
                            return Err(e);
                        },
                    }
                },
                'n' => {
                    match Self::parse_null(input, incr) {
                        Ok(json) => {
                            proof {
                                lemma_views_push(result@, json);
                                assert(!(json@ is JSON));
                                assert forall|w: JsonView|
                                    (wf(w) && canonical(w, s, at) && print_view(w)[0] == s[at]) implies json@
                                    == w && (*incr as int) == at + print_view(w).len() by {
                                    lemma_first_char(w);
                                }
                                lemma_json_reads_child(s, i0, rv, at, json@, *incr as int);
                                lemma_json_loose_child(s, i0, rv, at, json@, *incr as int);
                                lemma_qc_extend_even(s, i0, at, *incr as int);
                            }
                            result.push(json);
                        },
                        Err(e) => {
                            proof {
                                assert forall|w: JsonView|
                                    (wf(w) && canonical(w, s, at) && print_view(w)[0] == s[at]) implies false by {
                                    lemma_first_char(w);
                                }
                                lemma_json_read_fails(s, i0, rv, at);
                                lemma_json_loose_fails(s, i0, rv, at);
                            }
                            return Err(e);
                        },
                    }
                },
                '}' => {
                    let ghost atc = *incr as int;
                    *incr += 1;
                    proof {
                        assert(!is_token_start('}'));
                        assert forall|cs: Seq<JsonView>|
                            canonical(JsonView::JSON(cs), s, i0) implies views(result@) == cs
                            && atc + 1 == i0 + print_view(JsonView::JSON(cs)).len() by {
                            assert(cont_step_cases(cs, s, i0, rv, atc, false));
                            assert(cs.take(cs.len() as int) =~= cs);
                        }
                        assert forall|cs: Seq<JsonView>, to: int|
                            loose_object_at(s, i0, to, cs) implies views(result@) == cs && atc == to by {
                            lemma_loose_step(s, i0, to, cs, rv, atc, false);
                        }
                        lemma_qc_extend_char(s, i0, atc);
                    }
                    return Ok(Json::JSON(result));
                },
                c => {
                    let u = c as u32;
                    if 48 <= u && u <= 57 {
                        match Self::parse_number(input, incr) {
                            Ok(json) => {
                                proof {
                                    lemma_views_push(result@, json);
                                assert(!(json@ is JSON));
                                    assert forall|w: JsonView|
                                        (wf(w) && canonical(w, s, at) && print_view(w)[0] == s[at]) implies json@
                                        == w && (*incr as int) == at + print_view(w).len() by {
                                        lemma_first_char(w);
                                        assert(reads_back(JsonView::NUMBER(w->NUMBER_0), s, at, Ok::<Json, (usize, &'static str)>(json), *incr as int));
                                    }
                                    lemma_json_reads_child(s, i0, rv, at, json@, *incr as int);
                                lemma_json_loose_child(s, i0, rv, at, json@, *incr as int);
                                lemma_qc_extend_even(s, i0, at, *incr as int);
                                }
                                result.push(json);
                            },
                            Err(e) => {
                                proof {
                                    assert forall|w: JsonView|
                                        (wf(w) && canonical(w, s, at) && print_view(w)[0] == s[at]) implies false by {
                                        lemma_first_char(w);
                                        assert(reads_back(JsonView::NUMBER(w->NUMBER_0), s, at, Err::<Json, (usize, &'static str)>(e), *incr as int));
                                    }
                                    lemma_json_read_fails(s, i0, rv, at);
                                lemma_json_loose_fails(s, i0, rv, at);
                                }
                                return Err(e);
                            },
                        }
                    } else {
                        proof {
                            assert forall|cs: Seq<JsonView>|
                                canonical(JsonView::JSON(cs), s, i0) implies false by {
                                assert(cont_step_cases(cs, s, i0, rv, at, false));
                            }
                            assert forall|cs: Seq<JsonView>, to: int|
                                loose_object_at(s, i0, to, cs) implies false by {
                                lemma_loose_step(s, i0, to, cs, rv, at, false);
                            }
                        }
                        return Err((*incr, "Error parsing json."));
                    }
                },
            }
        }
    }

    /// Parse an array body at the cursor: an opening `[`, then values
    /// separated by commas, through the matching `]`.
    fn parse_array(input: &[u8], incr: &mut usize) -> (r: Result<Json, (usize, &'static str)>)
        requires
            *old(incr) <= input@.len(),
        ensures
            r matches Ok(j) ==> *old(incr) < *final(incr) <= input@.len() && j@ is ARRAY,
            r matches Ok(j) ==> chars_of(input@)[*old(incr) as int] == '[' && chars_of(
                input@,
            )[*final(incr) - 1] == ']',
            r matches Err(e) ==> e.0 <= input@.len() && error_message_ok(e.1@),
            (*old(incr) == input@.len() || chars_of(input@)[*old(incr) as int] != '[') ==> (
            r matches Err(e) && e.0 == *old(incr) && e.1@ == "Error parsing array."@ && *final(incr)
                == *old(incr)),
            forall|cs: Seq<JsonView>|
                reads_back(
                    JsonView::ARRAY(cs),
                    chars_of(input@),
                    *old(incr) as int,
                    r,
                    *final(incr) as int,
                ),
            forall|cs: Seq<JsonView>, to: int|
                loose_array_at(chars_of(input@), *old(incr) as int, to, cs) ==> (r matches Ok(j)
                    && j@ == JsonView::ARRAY(cs) && *final(incr) == to + 1),
            r is Ok ==> quote_count(chars_of(input@), *old(incr) as int, *final(incr) as int) % 2
                == 0,
        decreases input@.len() - *old(incr), 0int,
    {
        let ghost s = chars_of(input@);
        let ghost i0 = *old(incr) as int;
        let mut result: Vec<Json> = Vec::new();

        if *incr >= input.len() || input[*incr] as char != '[' {
            proof {
                assert forall|cs: Seq<JsonView>|
                    canonical(JsonView::ARRAY(cs), s, i0) implies false by {
                    lemma_container_frame(s, i0, cs, true);
                }
                assert(forall|cs: Seq<JsonView>, to: int| !loose_array_at(s, i0, to, cs));
            }
            return Err((*incr, "Error parsing array."));
        }
        *incr += 1;
        proof {
            assert forall|cs: Seq<JsonView>|
                canonical(JsonView::ARRAY(cs), s, i0) implies container_inv(
                cs,
                i0,
                views(result@),
                *incr as int,
            ) by {
                assert(views(result@) =~= cs.take(0));
                assert(cs.take(0) =~= Seq::<JsonView>::empty());
            }
            assert forall|cs: Seq<JsonView>, to: int|
                loose_array_at(s, i0, to, cs) implies loose_inv(
                s,
                cs,
                to,
                views(result@),
                *incr as int,
            ) by {
                assert(views(result@) =~= cs.take(0));
                assert(cs.skip(0) =~= cs);
            }
            assert(quote_count(s, i0 + 1, i0 + 1) == 0);
            assert(quote_count(s, i0, i0 + 1) == 0);
        }

        loop
            invariant
                s == chars_of(input@),
                i0 == *old(incr),
                0 <= i0 < input@.len(),
                s[i0] == '[',
                i0 < *incr <= input@.len(),
                forall|cs: Seq<JsonView>|
                    canonical(JsonView::ARRAY(cs), s, i0) ==> container_inv(
                        cs,
                        i0,
                        views(result@),
                        *incr as int,
                    ),
                forall|cs: Seq<JsonView>, to: int|
                    loose_array_at(s, i0, to, cs) ==> loose_inv(
                        s,
                        cs,
                        to,
                        views(result@),
                        *incr as int,
                    ),
                quote_count(s, i0, *incr as int) % 2 == 0,
            decreases input@.len() - *incr,
        {
            let ghost rv = views(result@);
            if *incr >= input.len() {
                proof {
                    assert forall|cs: Seq<JsonView>|
                        canonical(JsonView::ARRAY(cs), s, i0) implies false by {
                        lemma_container_inv_bounds(s, i0, cs, rv, *incr as int, true);
                    }
                    assert forall|cs: Seq<JsonView>, to: int|
                        loose_array_at(s, i0, to, cs) implies false by {
                        assert(loose_inv(s, cs, to, rv, *incr as int));
                    }
                }
                return Err((*incr, "Error parsing array."));
            }
            let ghost at = *incr as int;
            proof {
                assert forall|cs: Seq<JsonView>|
                    canonical(JsonView::ARRAY(cs), s, i0) implies cont_step_cases(
                    cs,
                    s,
                    i0,
                    rv,
                    at,
                    true,
                ) by {
                    lemma_container_loop_step(s, i0, cs, rv, at, true);
                }
            }
            match input[*incr] as char {
                ',' => {
                    proof {
                        assert(!is_token_start(','));
                        assert forall|cs: Seq<JsonView>|
                            canonical(JsonView::ARRAY(cs), s, i0) implies container_inv(
                            cs,
                            i0,
                            rv,
                            at + 1,
                        ) by {
                            assert(cont_step_cases(cs, s, i0, rv, at, true));
                        }
                        assert forall|cs: Seq<JsonView>, to: int|
                            loose_array_at(s, i0, to, cs) implies loose_inv(s, cs, to, rv, at + 1) by {
                            lemma_loose_step(s, i0, to, cs, rv, at, true);
                        }
                        lemma_qc_extend_char(s, i0, at);
                    }
                    *incr += 1;
                },
                '\"' => {
                    match Self::parse_string(input, incr) {
                        Ok(json) => {
                            proof {
                                lemma_views_push(result@, json);
                                assert forall|w: JsonView|
                                    (wf(w) && canonical(w, s, at) && print_view(w)[0] == s[at]) implies json@
                                    == w && (*incr as int) == at + print_view(w).len() by {
                                    lemma_first_char(w);
                                    assert(reads_back(w, s, at, Ok::<Json, (usize, &'static str)>(json), *incr as int));
                                }
                                lemma_array_reads_child(s, i0, rv, at, json@, *incr as int);
                                lemma_array_loose_child(s, i0, rv, at, json@, *incr as int);
                                lemma_qc_extend_even(s, i0, at, *incr as int);
                            }
                            result.push(json);
                        },
                        Err(e) => {
                            proof {
                                assert forall|w: JsonView|
                                    (wf(w) && canonical(w, s, at) && print_view(w)[0] == s[at]) implies false by {
                                    lemma_first_char(w);
                                    assert(reads_back(w, s, at, Err::<Json, (usize, &'static str)>(e), *incr as int));
                                }
                                lemma_array_read_fails(s, i0, rv, at);
                                lemma_array_loose_fails(s, i0, rv, at);
                            }
                            return Err(e);
                        },
                    }
                },
                '[' => {
                    match Self::parse_array(input, incr) {
                        Ok(json) => {
                            proof {
                                lemma_views_push(result@, json);
                                assert forall|w: JsonView|
                                    (wf(w) && canonical(w, s, at) && print_view(w)[0] == s[at]) implies json@
                                    == w && (*incr as int) == at + print_view(w).len() by {
                                    lemma_first_char(w);
                                    assert(reads_back(JsonView::ARRAY(w->ARRAY_0), s, at, Ok::<Json, (usize, &'static str)>(json), *incr as int));
                                }
                                lemma_array_reads_child(s, i0, rv, at, json@, *incr as int);
                                lemma_array_loose_child(s, i0, rv, at, json@, *incr as int);
                                lemma_qc_extend_even(s, i0, at, *incr as int);
                            }
                            result.push(json);
                        },
                        Err(e) => {
                            proof {
                                assert forall|w: JsonView|
                                    (wf(w) && canonical(w, s, at) && print_view(w)[0] == s[at]) implies false by {
                                    lemma_first_char(w);
                                    assert(reads_back(JsonView::ARRAY(w->ARRAY_0), s, at, Err::<Json, (usize, &'static str)>(e), *incr as int));
                                }
                                lemma_array_read_fails(s, i0, rv, at);
                                lemma_array_loose_fails(s, i0, rv, at);
                            }
                            return Err(e);
                        },
                    }
                },
                '{' => {
                    match Self::parse_json(input, incr) {
                        Ok(json) => {
                            proof {
                                lemma_views_push(result@, json);
                                assert forall|w: JsonView|
                                    (wf(w) && canonical(w, s, at) && print_view(w)[0] == s[at]) implies json@
                                    == w && (*incr as int) == at + print_view(w).len() by {
                                    lemma_first_char(w);
                                    assert(reads_back(JsonView::JSON(w->JSON_0), s, at, Ok::<Json, (usize, &'static str)>(json), *incr as int));
                                }
                                lemma_array_reads_child(s, i0, rv, at, json@, *incr as int);
                                lemma_array_loose_child(s, i0, rv, at, json@, *incr as int);
                                lemma_qc_extend_even(s, i0, at, *incr as int);
                            }
                            result.push(json);
                        },
                        Err(e) => {
                            proof {
                                assert forall|w: JsonView|
                                    (wf(w) && canonical(w, s, at) && print_view(w)[0] == s[at]) implies false by {
                                    lemma_first_char(w);
                                    assert(reads_back(JsonView::JSON(w->JSON_0), s, at, Err::<Json, (usize, &'static str)>(e), *incr as int));
                                }
                                lemma_array_read_fails(s, i0, rv, at);
                                lemma_array_loose_fails(s, i0, rv, at);
                            }
                            return Err(e);
                        },
                    }
                },
                't' => {
                    match Self::parse_bool(input, incr) {
                        Ok(json) => {
                            proof {
                                lemma_views_push(result@, json);
                                assert forall|w: JsonView|
                                    (wf(w) && canonical(w, s, at) && print_view(w)[0] == s[at]) implies json@
                                    == w && (*incr as int) == at + print_view(w).len() by {
                                    lemma_first_char(w);
                                }
                                lemma_array_reads_child(s, i0, rv, at, json@, *incr as int);
                                lemma_array_loose_child(s, i0, rv, at, json@, *incr as int);
                                lemma_qc_extend_even(s, i0, at, *incr as int);
                            }
                            result.push(json);
                        },
                        Err(e) => {
                            proof {
                                assert forall|w: JsonView|
                                    (wf(w) && canonical(w, s, at) && print_view(w)[0] == s[at]) implies false by {
                                    lemma_first_char(w);
                                }
                                lemma_array_read_fails(s, i0, rv, at);
                                lemma_array_loose_fails(s, i0, rv, at);
                            }
                            return Err(e);
                        },
                    }
                },
                'f' => {
                    match Self::parse_bool(input, incr) {
                        Ok(json) => {
                            proof {
                                lemma_views_push(result@, json);
                                assert forall|w: JsonView|
                                    (wf(w) && canonical(w, s, at) && print_view(w)[0] == s[at]) implies json@
                                    == w && (*incr as int) == at + print_view(w).len() by {
                                    lemma_first_char(w);
                                }
                                lemma_array_reads_child(s, i0, rv, at, json@, *incr as int);
                                lemma_array_loose_child(s, i0, rv, at, json@, *incr as int);
                                lemma_qc_extend_even(s, i0, at, *incr as int);
                            }
                            result.push(json);
                        },
                        Err(e) => {
                            proof {
                                assert forall|w: JsonView|
                                    (wf(w) && canonical(w, s, at) && print_view(w)[0] == s[at]) implies false by {
                                    lemma_first_char(w);
                                }
                                lemma_array_read_fails(s, i0, rv, at);
                                lemma_array_loose_fails(s, i0, rv, at);
                            }
                            return Err(e);
                        },
                    }
                },
                'n' => {
                    match Self::parse_null(input, incr) {
                        Ok(json) => {
                            proof {
                                lemma_views_push(result@, json);
                                assert forall|w: JsonView|
                                    (wf(w) && canonical(w, s, at) && print_view(w)[0] == s[at]) implies json@
                                    == w && (*incr as int) == at + print_view(w).len() by {
                                    lemma_first_char(w);
                                }
                                lemma_array_reads_child(s, i0, rv, at, json@, *incr as int);
                                lemma_array_loose_child(s, i0, rv, at, json@, *incr as int);
                                lemma_qc_extend_even(s, i0, at, *incr as int);
                            }
                            result.push(json);
                        },
                        Err(e) => {
                            proof {
                                assert forall|w: JsonView|
                                    (wf(w) && canonical(w, s, at) && print_view(w)[0] == s[at]) implies false by {
                                    lemma_first_char(w);
                                }
                                lemma_array_read_fails(s, i0, rv, at);
                                lemma_array_loose_fails(s, i0, rv, at);
                            }
                            return Err(e);
                        },
                    }
                },
                ']' => {
                    let ghost atc = *incr as int;
                    *incr += 1;
                    proof {
                        assert(!is_token_start(']'));
                        assert forall|cs: Seq<JsonView>|
                            canonical(JsonView::ARRAY(cs), s, i0) implies views(result@) == cs
                            && atc + 1 == i0 + print_view(JsonView::ARRAY(cs)).len() by {
                            assert(cont_step_cases(cs, s, i0, rv, atc, true));
                            assert(cs.take(cs.len() as int) =~= cs);
                        }
                        assert forall|cs: Seq<JsonView>, to: int|
                            loose_array_at(s, i0, to, cs) implies views(result@) == cs && atc == to by {
                            lemma_loose_step(s, i0, to, cs, rv, atc, true);
                        }
                        lemma_qc_extend_char(s, i0, atc);
                    }
                    return Ok(Json::ARRAY(result));
                },
                c => {
                    let u = c as u32;
                    if 48 <= u && u <= 57 {
                        match Self::parse_number(input, incr) {
                            Ok(json) => {
                                proof {
                                    lemma_views_push(result@, json);
                                    assert forall|w: JsonView|
                                        (wf(w) && canonical(w, s, at) && print_view(w)[0] == s[at]) implies json@
                                        == w && (*incr as int) == at + print_view(w).len() by {
                                        lemma_first_char(w);
                                        assert(reads_back(JsonView::NUMBER(w->NUMBER_0), s, at, Ok::<Json, (usize, &'static str)>(json), *incr as int));
                                    }
                                    lemma_array_reads_child(s, i0, rv, at, json@, *incr as int);
                                lemma_array_loose_child(s, i0, rv, at, json@, *incr as int);
                                lemma_qc_extend_even(s, i0, at, *incr as int);
                                }
                                result.push(json);
                            },
                            Err(e) => {
                                proof {
                                    assert forall|w: JsonView|
                                        (wf(w) && canonical(w, s, at) && print_view(w)[0] == s[at]) implies false by {
                                        lemma_first_char(w);
                                        assert(reads_back(JsonView::NUMBER(w->NUMBER_0), s, at, Err::<Json, (usize, &'static str)>(e), *incr as int));
                                    }
                                    lemma_array_read_fails(s, i0, rv, at);
                                lemma_array_loose_fails(s, i0, rv, at);
                                }
                                return Err(e);
                            },
                        }
                    } else {
                        proof {
                            assert forall|cs: Seq<JsonView>|
                                canonical(JsonView::ARRAY(cs), s, i0) implies false by {
                                assert(cont_step_cases(cs, s, i0, rv, at, true));
                            }
                            assert forall|cs: Seq<JsonView>, to: int|
                                loose_array_at(s, i0, to, cs) implies false by {
                                lemma_loose_step(s, i0, to, cs, rv, at, true);
                            }
                        }
                        return Err((*incr, "Error parsing array."));
                    }
                },
            }
        }
    }

    /// Parse a string at the cursor: an opening quote, then bytes copied
    /// verbatim until the closing quote. When the byte just past the
    /// closing quote is a colon, the string is an entry name, and the
    /// entry's value is parsed next; otherwise it is a standalone string.
    fn parse_string(input: &[u8], incr: &mut usize) -> (r: Result<Json, (usize, &'static str)>)
        requires
            *old(incr) <= input@.len(),
        ensures
            r matches Ok(j) ==> *old(incr) < *final(incr) <= input@.len() && (j@ is STRING || j@
                is OBJECT),
            r matches Err(e) ==> e.0 <= input@.len() && error_message_ok(e.1@),
            (*old(incr) == input@.len() || chars_of(input@)[*old(incr) as int] != '"') ==> (
            r matches Err(e) && e.0 == *old(incr) && e.1@ == "Error parsing string."@ && *final(incr)
                == *old(incr)),
            (*old(incr) < input@.len() && chars_of(input@)[*old(incr) as int] == '"' && (forall|k: int|
                *old(incr) < k < input@.len() ==> chars_of(input@)[k] != '"')) ==> (r matches Err(e)
                && e.0 == input@.len() && e.1@ == "Error parsing string."@),
            r is Ok ==> quote_count(chars_of(input@), *old(incr) as int, *final(incr) as int) % 2
                == 0,
            forall|v: JsonView|
                (v is STRING || v is OBJECT) ==> reads_back(
                    v,
                    chars_of(input@),
                    *old(incr) as int,
                    r,
                    *final(incr) as int,
                ),
        decreases input@.len() - *old(incr), 0int,
    {
        let ghost s = chars_of(input@);
        let ghost i0 = *old(incr) as int;
        let mut result: Vec<char> = Vec::new();

        if *incr >= input.len() || input[*incr] as char != '\"' {
            proof {
                assert forall|v: JsonView|
                    (v is STRING || v is OBJECT) && canonical(v, s, i0) implies false by {
                    lemma_sv_head(v, s, i0);
                }
            }
            return Err((*incr, "Error parsing string."));
        }
        *incr += 1;

        loop
            invariant
                s == chars_of(input@),
                i0 == *old(incr),
                0 <= i0 < input@.len(),
                s[i0] == '"',
                i0 + 1 <= *incr <= input@.len(),
                result@ == s.subrange(i0 + 1, *incr as int),
                forall|k: int| i0 + 1 <= k < *incr ==> s[k] != '"',
            decreases input@.len() - *incr,
        {
            if *incr >= input.len() {
                proof {
                    assert forall|v: JsonView|
                        (v is STRING || v is OBJECT) && canonical(v, s, i0) implies false by {
                        lemma_sv_has_quote(v, s, i0);
                    }
                }
                return Err((*incr, "Error parsing string."));
            }
            match input[*incr] as char {
                '\"' => {
                    let ghost q = *incr as int;
                    *incr += 1;
                    proof {
                        assert(i0 < q < input@.len() && chars_of(input@)[q] == '"');
                        assert forall|v: JsonView|
                            (v is STRING || v is OBJECT) && canonical(v, s, i0) implies (match v {
                            JsonView::STRING(t) => q == i0 + 1 + t.len() && result@ == t && (q + 1
                                == s.len() || s[q + 1] != ':') && i0 + print_view(v).len() == q + 1,
                            JsonView::OBJECT { name, value } => q == i0 + 1 + name.len() && result@
                                == name && q + 1 < s.len() && s[q + 1] == ':' && wf(*value)
                                && print_at(s, q + 2, *value) && delim_ok(
                                *value,
                                s,
                                q + 2 + print_view(*value).len() as int,
                            ) && i0 + print_view(v).len() == q + 2 + print_view(*value).len(),
                            _ => true,
                        }) by {
                            lemma_sv_quote(v, s, i0, q);
                        }
                    }
                    proof {
                        lemma_quote_count_none(s, i0 + 1, q);
                        assert(quote_count(s, i0 + 1, i0 + 1) == 0);
                        assert(quote_count(s, i0, i0 + 1) == 1);
                        assert(quote_count(s, q + 1, q + 1) == 0);
                        assert(quote_count(s, q, q + 1) == 1);
                        lemma_quote_count_split(s, i0, i0 + 1, q);
                        lemma_quote_count_split(s, i0, q, q + 1);
                        assert(quote_count(s, i0, q + 1) == 2);
                    }
                    if *incr < input.len() && input[*incr] as char == ':' {
                        let sub = Self::parse_object(input, incr, chars_to_string(result));
                        proof {
                            if sub is Ok {
                                lemma_qc_extend_even(s, i0, q + 1, *incr as int);
                            }
                        }
                        return sub;
                    }
                    return Ok(Json::STRING(chars_to_string(result)));
                },
                c => {
                    proof {
                        assert(s.subrange(i0 + 1, *incr + 1) =~= s.subrange(
                            i0 + 1,
                            *incr as int,
                        ).push(s[*incr as int]));
                    }
                    result.push(c);
                    *incr += 1;
                },
            }
        }
    }

    /// Parse the value of an entry whose name was just read: the cursor
    /// stands on the colon, and the byte past it selects the sub-parser.
    fn parse_object(input: &[u8], incr: &mut usize, name: String) -> (r: Result<
        Json,
        (usize, &'static str),
    >)
        requires
            *old(incr) <= input@.len(),
        ensures
            r matches Ok(j) ==> *old(incr) < *final(incr) <= input@.len() && j@ is OBJECT,
            r matches Err(e) ==> e.0 <= input@.len() && error_message_ok(e.1@),
            (*old(incr) == input@.len() || chars_of(input@)[*old(incr) as int] != ':') ==> (
            r matches Err(e) && e.0 == *old(incr) && e.1@ == "Error parsing object."@ && *final(incr)
                == *old(incr)),
            (*old(incr) < input@.len() && chars_of(input@)[*old(incr) as int] == ':' && *old(incr)
                + 1 == input@.len()) ==> (r matches Err(e) && e.0 == *old(incr) + 1 && e.1@
                == "Error parsing object."@),
            r matches Ok(j) ==> (j@ matches JsonView::OBJECT { name: n, value: _ } && n == name@),
            (*old(incr) < input@.len() && chars_of(input@)[*old(incr) as int] == ':' && *old(incr)
                + 1 < input@.len() && !is_token_start(chars_of(input@)[*old(incr) + 1])) ==> (
            r matches Err(e) && e.0 == *old(incr) + 1 && e.1@ == "Error parsing object."@ && *final(incr)
                == *old(incr) + 1),
            forall|cs: Seq<JsonView>, to: int|
                ((*old(incr) as int) < chars_of(input@).len() && chars_of(
                    input@,
                )[*old(incr) as int] == ':' && #[trigger] loose_object_at(
                    chars_of(input@),
                    *old(incr) + 1,
                    to,
                    cs,
                )) ==> (r matches Ok(j) && j@ == (JsonView::OBJECT {
                    name: name@,
                    value: Box::new(JsonView::JSON(cs)),
                }) && *final(incr) == to + 1),
            forall|cs: Seq<JsonView>, to: int|
                ((*old(incr) as int) < chars_of(input@).len() && chars_of(
                    input@,
                )[*old(incr) as int] == ':' && #[trigger] loose_array_at(
                    chars_of(input@),
                    *old(incr) + 1,
                    to,
                    cs,
                )) ==> (r matches Ok(j) && j@ == (JsonView::OBJECT {
                    name: name@,
                    value: Box::new(JsonView::ARRAY(cs)),
                }) && *final(incr) == to + 1),
            r is Ok ==> quote_count(chars_of(input@), *old(incr) as int, *final(incr) as int) % 2
                == 0,
            forall|v2: JsonView|
                (wf(v2) && (*old(incr) as int) < chars_of(input@).len() && chars_of(
                    input@,
                )[*old(incr) as int] == ':' && print_at(chars_of(input@), *old(incr) + 1, v2)
                    && delim_ok(
                    v2,
                    chars_of(input@),
                    *old(incr) + 1 + print_view(v2).len(),
                )) ==> (r matches Ok(j) && j@ == (JsonView::OBJECT {
                    name: name@,
                    value: Box::new(v2),
                }) && *final(incr) == *old(incr) + 1 + print_view(v2).len()),
        decreases input@.len() - *old(incr), 0int,
    {
        let ghost s = chars_of(input@);
        let ghost i0 = *old(incr) as int;

        if *incr >= input.len() || input[*incr] as char != ':' {
            return Err((*incr, "Error parsing object."));
        }
        *incr += 1;

        proof {
            assert forall|v2: JsonView|
                wf(v2) && print_at(s, i0 + 1, v2) implies i0 + 1 < s.len() && s[i0 + 1]
                == print_view(v2)[0] && print_view(v2).len() >= 1 by {
                lemma_first_char(v2);
                lemma_print_at_chars(s, i0 + 1, v2);
            }
        }

        if *incr >= input.len() {
            return Err((*incr, "Error parsing object."));
        }

        let inner: Result<Json, (usize, &'static str)> = match input[*incr] as char {
            '{' => {
                let sub = Self::parse_json(input, incr);
                proof {
                    assert forall|v2: JsonView|
                        (wf(v2) && print_at(s, i0 + 1, v2) && delim_ok(
                            v2,
                            s,
                            i0 + 1 + print_view(v2).len(),
                        )) implies (sub matches Ok(ij) && ij@ == v2 && *incr as int == i0 + 1
                        + print_view(v2).len()) by {
                        lemma_first_char(v2);
                        assert(reads_back(JsonView::JSON(v2->JSON_0), s, i0 + 1, sub, *incr as int));
                    }
                    if sub is Ok {
                        assert(quote_count(s, i0 + 1, i0 + 1) == 0);
                        assert(quote_count(s, i0, i0 + 1) == 0);
                        lemma_qc_extend_even(s, i0, i0 + 1, *incr as int);
                    }
                }
                sub
            },
            '[' => {
                let sub = Self::parse_array(input, incr);
                proof {
                    assert forall|v2: JsonView|
                        (wf(v2) && print_at(s, i0 + 1, v2) && delim_ok(
                            v2,
                            s,
                            i0 + 1 + print_view(v2).len(),
                        )) implies (sub matches Ok(ij) && ij@ == v2 && *incr as int == i0 + 1
                        + print_view(v2).len()) by {
                        lemma_first_char(v2);
                        assert(reads_back(JsonView::ARRAY(v2->ARRAY_0), s, i0 + 1, sub, *incr as int));
                    }
                    if sub is Ok {
                        assert(quote_count(s, i0 + 1, i0 + 1) == 0);
                        assert(quote_count(s, i0, i0 + 1) == 0);
                        lemma_qc_extend_even(s, i0, i0 + 1, *incr as int);
                    }
                }
                sub
            },
            '\"' => {
                let sub = Self::parse_string(input, incr);
                proof {
                    assert forall|v2: JsonView|
                        (wf(v2) && print_at(s, i0 + 1, v2) && delim_ok(
                            v2,
                            s,
                            i0 + 1 + print_view(v2).len(),
                        )) implies (sub matches Ok(ij) && ij@ == v2 && *incr as int == i0 + 1
                        + print_view(v2).len()) by {
                        lemma_first_char(v2);
                        assert(reads_back(v2, s, i0 + 1, sub, *incr as int));
                    }
                    if sub is Ok {
                        assert(quote_count(s, i0 + 1, i0 + 1) == 0);
                        assert(quote_count(s, i0, i0 + 1) == 0);
                        lemma_qc_extend_even(s, i0, i0 + 1, *incr as int);
                    }
                }
                sub
            },
            't' => {
                let sub = Self::parse_bool(input, incr);
                proof {
                    assert forall|v2: JsonView|
                        (wf(v2) && print_at(s, i0 + 1, v2) && delim_ok(
                            v2,
                            s,
                            i0 + 1 + print_view(v2).len(),
                        )) implies (sub matches Ok(ij) && ij@ == v2 && *incr as int == i0 + 1
                        + print_view(v2).len()) by {
                        lemma_first_char(v2);
                    }
                    if sub is Ok {
                        assert(quote_count(s, i0 + 1, i0 + 1) == 0);
                        assert(quote_count(s, i0, i0 + 1) == 0);
                        lemma_qc_extend_even(s, i0, i0 + 1, *incr as int);
                    }
                }
                sub
            },
            'f' => {
                let sub = Self::parse_bool(input, incr);
                proof {
                    assert forall|v2: JsonView|
                        (wf(v2) && print_at(s, i0 + 1, v2) && delim_ok(
                            v2,
                            s,
                            i0 + 1 + print_view(v2).len(),
                        )) implies (sub matches Ok(ij) && ij@ == v2 && *incr as int == i0 + 1
                        + print_view(v2).len()) by {
                        lemma_first_char(v2);
                    }
                    if sub is Ok {
                        assert(quote_count(s, i0 + 1, i0 + 1) == 0);
                        assert(quote_count(s, i0, i0 + 1) == 0);
                        lemma_qc_extend_even(s, i0, i0 + 1, *incr as int);
                    }
                }
                sub
            },
            'n' => {
                let sub = Self::parse_null(input, incr);
                proof {
                    assert forall|v2: JsonView|
                        (wf(v2) && print_at(s, i0 + 1, v2) && delim_ok(
                            v2,
                            s,
                            i0 + 1 + print_view(v2).len(),
                        )) implies (sub matches Ok(ij) && ij@ == v2 && *incr as int == i0 + 1
                        + print_view(v2).len()) by {
                        lemma_first_char(v2);
                    }
                    if sub is Ok {
                        assert(quote_count(s, i0 + 1, i0 + 1) == 0);
                        assert(quote_count(s, i0, i0 + 1) == 0);
                        lemma_qc_extend_even(s, i0, i0 + 1, *incr as int);
                    }
                }
                sub
            },
            c => {
                let u = c as u32;
                if 48 <= u && u <= 57 {
                    let sub = Self::parse_number(input, incr);
                    proof {
                        assert forall|v2: JsonView|
                            (wf(v2) && print_at(s, i0 + 1, v2) && delim_ok(
                                v2,
                                s,
                                i0 + 1 + print_view(v2).len(),
                            )) implies (sub matches Ok(ij) && ij@ == v2 && *incr as int == i0 + 1
                            + print_view(v2).len()) by {
                            lemma_first_char(v2);
                            assert(reads_back(
                                JsonView::NUMBER(v2->NUMBER_0),
                                s,
                                i0 + 1,
                                sub,
                                *incr as int,
                            ));
                        }
                    }
                    sub
                } else {
                    proof {
                        assert forall|v2: JsonView|
                            (wf(v2) && print_at(s, i0 + 1, v2)) implies false by {
                            lemma_first_char(v2);
                        }
                    }
                    Err((*incr, "Error parsing object."))
                }
            },
        };
        match inner {
            Ok(json) => Ok(Json::OBJECT { name, value: Box::new(json) }),
            Err(e) => Err(e),
        }
    }

    /// Parse a number at the cursor: bytes accumulate until a delimiter
    /// (`,`, `}`, `]`) or the end of input, and the accumulated text must
    /// be well-formed numeric text, which is stored as read.
    fn parse_number(input: &[u8], incr: &mut usize) -> (r: Result<Json, (usize, &'static str)>)
        requires
            *old(incr) <= input@.len(),
        ensures
            *old(incr) <= *final(incr) <= input@.len(),
            r is Ok ==> quote_count(chars_of(input@), *old(incr) as int, *final(incr) as int) == 0,
            r matches Ok(j) ==> *old(incr) < *final(incr) <= input@.len() && (j@ matches
                JsonView::NUMBER(s) && is_number_text(s)),
            ({
                let txt = chars_of(input@).subrange(
                    *old(incr) as int,
                    scan_to_delim(chars_of(input@), *old(incr) as int),
                );
                &&& *final(incr) == scan_to_delim(chars_of(input@), *old(incr) as int)
                &&& if is_number_text(txt) {
                    r matches Ok(j) && j@ == JsonView::NUMBER(txt)
                } else {
                    r matches Err(e) && e.0 == *final(incr) && e.1@ == "Error parsing number."@
                }
            }),
            forall|t: Seq<char>|
                reads_back(
                    JsonView::NUMBER(t),
                    chars_of(input@),
                    *old(incr) as int,
                    r,
                    *final(incr) as int,
                ),
        decreases input@.len() - *old(incr), 0int,
    {
        let mut result: Vec<char> = Vec::new();

        loop
            invariant
                *old(incr) <= *incr,
                *incr - *old(incr) == result@.len(),
                result@.len() > 0 ==> *incr <= input@.len(),
                *old(incr) <= input@.len() ==> *incr <= input@.len() && result@ == chars_of(
                    input@,
                ).subrange(*old(incr) as int, *incr as int),
                forall|k: int|
                    *old(incr) <= k < *incr ==> !is_delim(#[trigger] chars_of(input@)[k]),
            ensures
                *old(incr) <= *incr,
                *incr - *old(incr) == result@.len(),
                result@.len() > 0 ==> *incr <= input@.len(),
                *old(incr) <= input@.len() ==> *incr <= input@.len() && result@ == chars_of(
                    input@,
                ).subrange(*old(incr) as int, *incr as int),
                forall|k: int|
                    *old(incr) <= k < *incr ==> !is_delim(#[trigger] chars_of(input@)[k]),
                *incr >= input@.len() || is_delim(chars_of(input@)[*incr as int]),
            decreases input@.len() - *incr,
        {
            if *incr >= input.len() {
                break;
            }
            match input[*incr] as char {
                ',' => {
                    break;
                },
                ']' => {
                    break;
                },
                '}' => {
                    break;
                },
                c => {
                    proof {
                        assert(chars_of(input@).subrange(*old(incr) as int, *incr + 1) =~= chars_of(
                            input@,
                        ).subrange(*old(incr) as int, *incr as int).push(
                            chars_of(input@)[*incr as int],
                        ));
                    }
                    result.push(c);
                    *incr += 1;
                },
            }
        }

        proof {
            assert forall|t: Seq<char>|
                canonical(
                    JsonView::NUMBER(t),
                    chars_of(input@),
                    *old(incr) as int,
                ) implies *incr == *old(incr) + t.len() && result@ == t by {
                lemma_number_run(chars_of(input@), *old(incr) as int, *incr as int, result@, t);
            }
            lemma_scan_stop(chars_of(input@), *old(incr) as int, *incr as int);
        }

        proof {
            let s = chars_of(input@);
            let a = *old(incr) as int;
            let b = *incr as int;
            if is_number_text(result@) {
                lemma_number_text_chars(result@);
                assert forall|k: int| a <= k < b implies s[k] != '"' by {
                    assert(s[k] == result@[k - a]);
                    assert(num_char(result@[k - a]));
                }
                lemma_quote_count_none(s, a, b);
            }
        }

        if check_number(&result) {
            Ok(Json::NUMBER(chars_to_string(result)))
        } else {
            Err((*incr, "Error parsing number."))
        }
    }

    /// Parse a boolean at the cursor: bytes accumulate until a delimiter
    /// or the end of input and must read exactly `true` or `false`.
    fn parse_bool(input: &[u8], incr: &mut usize) -> (r: Result<Json, (usize, &'static str)>)
        requires
            *old(incr) <= input@.len(),
        ensures
            *old(incr) <= *final(incr) <= input@.len(),
            r is Ok ==> quote_count(chars_of(input@), *old(incr) as int, *final(incr) as int) == 0,
            r matches Ok(j) ==> *old(incr) < *final(incr) <= input@.len() && j@ is BOOL,
            ({
                let txt = chars_of(input@).subrange(
                    *old(incr) as int,
                    scan_to_delim(chars_of(input@), *old(incr) as int),
                );
                &&& *final(incr) == scan_to_delim(chars_of(input@), *old(incr) as int)
                &&& if txt == seq!['t', 'r', 'u', 'e'] {
                    r matches Ok(j) && j == Json::BOOL(true)
                } else if txt == seq!['f', 'a', 'l', 's', 'e'] {
                    r matches Ok(j) && j == Json::BOOL(false)
                } else {
                    r matches Err(e) && e.0 == *final(incr) && e.1@ == "Error parsing bool."@
                }
            }),
            reads_back(
                JsonView::BOOL(true),
                chars_of(input@),
                *old(incr) as int,
                r,
                *final(incr) as int,
            ),
            reads_back(
                JsonView::BOOL(false),
                chars_of(input@),
                *old(incr) as int,
                r,
                *final(incr) as int,
            ),
        decreases input@.len() - *old(incr), 0int,
    {
        let mut result: Vec<char> = Vec::new();

        loop
            invariant
                *old(incr) <= *incr,
                *incr - *old(incr) == result@.len(),
                result@.len() > 0 ==> *incr <= input@.len(),
                *old(incr) <= input@.len() ==> *incr <= input@.len() && result@ == chars_of(
                    input@,
                ).subrange(*old(incr) as int, *incr as int),
                forall|k: int|
                    *old(incr) <= k < *incr ==> !is_delim(#[trigger] chars_of(input@)[k]),
            ensures
                *old(incr) <= *incr,
                *incr - *old(incr) == result@.len(),
                result@.len() > 0 ==> *incr <= input@.len(),
                *old(incr) <= input@.len() ==> *incr <= input@.len() && result@ == chars_of(
                    input@,
                ).subrange(*old(incr) as int, *incr as int),
                forall|k: int|
                    *old(incr) <= k < *incr ==> !is_delim(#[trigger] chars_of(input@)[k]),
                *incr >= input@.len() || is_delim(chars_of(input@)[*incr as int]),
            decreases input@.len() - *incr,
        {
            if *incr >= input.len() {
                break;
            }
            match input[*incr] as char {
                ',' => {
                    break;
                },
                ']' => {
                    break;
                },
                '}' => {
                    break;
                },
                c => {
                    proof {
                        assert(chars_of(input@).subrange(*old(incr) as int, *incr + 1) =~= chars_of(
                            input@,
                        ).subrange(*old(incr) as int, *incr as int).push(
                            chars_of(input@)[*incr as int],
                        ));
                    }
                    result.push(c);
                    *incr += 1;
                },
            }
        }

        proof {
            lemma_bool_run(chars_of(input@), *old(incr) as int, *incr as int, result@);
            lemma_scan_stop(chars_of(input@), *old(incr) as int, *incr as int);
        }
        proof {
            let s = chars_of(input@);
            let a = *old(incr) as int;
            let b = *incr as int;
            if result@ == seq!['t', 'r', 'u', 'e'] || result@ == seq!['f', 'a', 'l', 's', 'e'] {
                assert forall|k: int| a <= k < b implies s[k] != '"' by {
                    assert(s[k] == result@[k - a]);
                }
                lemma_quote_count_none(s, a, b);
            }
        }

        if result.len() == 4 && result[0] == 't' && result[1] == 'r' && result[2] == 'u'
            && result[3] == 'e' {
            proof {
                assert(result@ =~= seq!['t', 'r', 'u', 'e']);
            }
            Ok(Json::BOOL(true))
        } else if result.len() == 5 && result[0] == 'f' && result[1] == 'a' && result[2] == 'l'
            && result[3] == 's' && result[4] == 'e' {
            proof {
                assert(result@ =~= seq!['f', 'a', 'l', 's', 'e']);
            }
            Ok(Json::BOOL(false))
        } else {
            proof {
                assert(seq!['t', 'r', 'u', 'e'][0] == 't' && seq!['t', 'r', 'u', 'e'][1] == 'r'
                    && seq!['t', 'r', 'u', 'e'][2] == 'u' && seq!['t', 'r', 'u', 'e'][3] == 'e');
                assert(seq!['f', 'a', 'l', 's', 'e'][0] == 'f' && seq!['f', 'a', 'l', 's', 'e'][1]
                    == 'a' && seq!['f', 'a', 'l', 's', 'e'][2] == 'l' && seq!['f', 'a', 'l', 's', 'e'][3]
                    == 's' && seq!['f', 'a', 'l', 's', 'e'][4] == 'e');
            }
            Err((*incr, "Error parsing bool."))
        }
    }

    /// Parse a null at the cursor: bytes accumulate until a delimiter or
    /// the end of input and must read exactly `null`.
    fn parse_null(input: &[u8], incr: &mut usize) -> (r: Result<Json, (usize, &'static str)>)
        requires
            *old(incr) <= input@.len(),
        ensures
            *old(incr) <= *final(incr) <= input@.len(),
            r is Ok ==> quote_count(chars_of(input@), *old(incr) as int, *final(incr) as int) == 0,
            r matches Ok(j) ==> *old(incr) < *final(incr) <= input@.len() && j == Json::NULL,
            ({
                let txt = chars_of(input@).subrange(
                    *old(incr) as int,
                    scan_to_delim(chars_of(input@), *old(incr) as int),
                );
                &&& *final(incr) == scan_to_delim(chars_of(input@), *old(incr) as int)
                &&& if txt == seq!['n', 'u', 'l', 'l'] {
                    r matches Ok(j) && j == Json::NULL
                } else {
                    r matches Err(e) && e.0 == *final(incr) && e.1@ == "Error parsing null."@
                }
            }),
            reads_back(JsonView::NULL, chars_of(input@), *old(incr) as int, r, *final(incr) as int),
        decreases input@.len() - *old(incr), 0int,
    {
        let mut result: Vec<char> = Vec::new();

        loop
            invariant
                *old(incr) <= *incr,
                *incr - *old(incr) == result@.len(),
                result@.len() > 0 ==> *incr <= input@.len(),
                *old(incr) <= input@.len() ==> *incr <= input@.len() && result@ == chars_of(
                    input@,
                ).subrange(*old(incr) as int, *incr as int),
                forall|k: int|
                    *old(incr) <= k < *incr ==> !is_delim(#[trigger] chars_of(input@)[k]),
            ensures
                *old(incr) <= *incr,
                *incr - *old(incr) == result@.len(),
                result@.len() > 0 ==> *incr <= input@.len(),
                *old(incr) <= input@.len() ==> *incr <= input@.len() && result@ == chars_of(
                    input@,
                ).subrange(*old(incr) as int, *incr as int),
                forall|k: int|
                    *old(incr) <= k < *incr ==> !is_delim(#[trigger] chars_of(input@)[k]),
                *incr >= input@.len() || is_delim(chars_of(input@)[*incr as int]),
            decreases input@.len() - *incr,
        {
            if *incr >= input.len() {
                break;
            }
            match input[*incr] as char {
                ',' => {
                    break;
                },
                ']' => {
                    break;
                },
                '}' => {
                    break;
                },
                c => {
                    proof {
                        assert(chars_of(input@).subrange(*old(incr) as int, *incr + 1) =~= chars_of(
                            input@,
                        ).subrange(*old(incr) as int, *incr as int).push(
                            chars_of(input@)[*incr as int],
                        ));
                    }
                    result.push(c);
                    *incr += 1;
                },
            }
        }

        proof {
            lemma_null_run(chars_of(input@), *old(incr) as int, *incr as int, result@);
            lemma_scan_stop(chars_of(input@), *old(incr) as int, *incr as int);
        }
        proof {
            let s = chars_of(input@);
            let a = *old(incr) as int;
            let b = *incr as int;
            if result@ == seq!['n', 'u', 'l', 'l'] {
                assert forall|k: int| a <= k < b implies s[k] != '"' by {
                    assert(s[k] == result@[k - a]);
                }
                lemma_quote_count_none(s, a, b);
            }
        }

        if result.len() == 4 && result[0] == 'n' && result[1] == 'u' && result[2] == 'l'
            && result[3] == 'l' {
            proof {
                assert(result@ =~= seq!['n', 'u', 'l', 'l']);
            }
            Ok(Json::NULL)
        } else {
            proof {
                assert(seq!['n', 'u', 'l', 'l'][0] == 'n' && seq!['n', 'u', 'l', 'l'][1] == 'u'
                    && seq!['n', 'u', 'l', 'l'][2] == 'l' && seq!['n', 'u', 'l', 'l'][3] == 'l');
            }
            Err((*incr, "Error parsing null."))
        }
    }
}

} // verus!
