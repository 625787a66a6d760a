//! The serializer: a recursive, single-pass conversion of a tree into
//! JSON text, specified by the spec function [`print_view`].

use crate::model::{views, Json, JsonView};
use vstd::prelude::*;
use vstd::string::StringExecFns;

verus! {

/// The children of an object or array, joined by single commas, in order.
/// Zero children yield the empty text, so an empty object or array prints
/// as exactly `{}` or `[]`.
pub open spec fn print_children(cs: Seq<JsonView>) -> Seq<char>
    decreases cs,
{
    if cs.len() == 0 {
        Seq::empty()
    } else if cs.len() == 1 {
        print_view(cs[0])
    } else {
        print_children(cs.drop_last()) + seq![','] + print_view(cs.last())
    }
}

/// The JSON text of a tree: entries as `"name":value`, objects in braces,
/// arrays in brackets, strings quoted with their raw contents (no escape
/// re-encoding), numbers as their stored text, and the fixed literals for
/// booleans and null.
pub open spec fn print_view(v: JsonView) -> Seq<char>
    decreases v,
{
    match v {
        JsonView::OBJECT { name, value } => seq!['"'] + name + seq!['"', ':'] + print_view(*value),
        JsonView::JSON(cs) => seq!['{'] + print_children(cs) + seq!['}'],
        JsonView::ARRAY(cs) => seq!['['] + print_children(cs) + seq![']'],
        JsonView::STRING(s) => seq!['"'] + s + seq!['"'],
        JsonView::NUMBER(s) => s,
        JsonView::BOOL(b) => if b {
            seq!['t', 'r', 'u', 'e']
        } else {
            seq!['f', 'a', 'l', 's', 'e']
        },
        JsonView::NULL => seq!['n', 'u', 'l', 'l'],
    }
}

/// Extending the printed children by one more appends one comma (when any
/// child came before) and the newcomer's text.
pub proof fn lemma_print_children_take(cs: Seq<JsonView>, i: int)
    requires
        0 <= i < cs.len(),
    ensures
        print_children(cs.take(i + 1)) == print_children(cs.take(i)) + (if i > 0 {
            seq![',']
        } else {
            Seq::<char>::empty()
        }) + print_view(cs[i]),
{
    let shorter = cs.take(i);
    let longer = cs.take(i + 1);
    assert(longer.drop_last() =~= shorter);
    assert(longer.last() == cs[i]);
    if i == 0 {
        assert(print_children(longer) =~= Seq::<char>::empty() + print_view(cs[0]));
    }
}

/// Print each child of `values` in order, a comma between neighbours.
fn print_items(values: &Vec<Json>) -> (r: String)
    ensures
        r@ == print_children(views(values@)),
    decreases values,
{
    let ghost cs = views(values@);
    let mut r = String::new();
    let mut i: usize = 0;
    while i < values.len()
        invariant
            0 <= i <= values@.len(),
            cs == views(values@),
            cs.len() == values@.len(),
            r@ == print_children(cs.take(i as int)),
        decreases values@.len() - i,
    {
        if i > 0 {
            r.append(",");
            proof {
                reveal_strlit(",");
                assert(","@ =~= seq![',']);
            }
        }
        let item = values[i].print();
        r.append(item.as_str());
        proof {
            lemma_print_children_take(cs, i as int);
        }
        i += 1;
    }
    proof {
        assert(cs.take(cs.len() as int) =~= cs);
    }
    r
}

impl Json {
    /// Serialize the tree to JSON text. The result is exactly
    /// [`print_view`] of the tree's view; in particular two calls on the
    /// same unmodified tree yield identical text.
    pub fn print(&self) -> (r: String)
        ensures
            r@ == print_view(self@),
        decreases self,
    {
        match self {
            Json::OBJECT { name, value } => {
                let mut r = String::from_str("\"");
                r.append(name.as_str());
                r.append("\":");
                let inner = (**value).print();
                r.append(inner.as_str());
                proof {
                    reveal_strlit("\"");
                    reveal_strlit("\":");
                    assert("\""@ =~= seq!['"']);
                    assert("\":"@ =~= seq!['"', ':']);
                    assert(r@ =~= print_view(self@));
                }
                r
            },
            Json::JSON(values) => {
                let mut r = String::from_str("{");
                let inner = print_items(values);
                r.append(inner.as_str());
                r.append("}");
                proof {
                    reveal_strlit("{");
                    reveal_strlit("}");
                    assert("{"@ =~= seq!['{']);
                    assert("}"@ =~= seq!['}']);
                    assert(r@ =~= print_view(self@));
                }
                r
            },
            Json::ARRAY(values) => {
                let mut r = String::from_str("[");
                let inner = print_items(values);
                r.append(inner.as_str());
                r.append("]");
                proof {
                    reveal_strlit("[");
                    reveal_strlit("]");
                    assert("["@ =~= seq!['[']);
                    assert("]"@ =~= seq![']']);
                    assert(r@ =~= print_view(self@));
                }
                r
            },
            Json::STRING(s) => {
                let mut r = String::from_str("\"");
                r.append(s.as_str());
                r.append("\"");
                proof {
                    reveal_strlit("\"");
                    assert("\""@ =~= seq!['"']);
                    assert(r@ =~= print_view(self@));
                }
                r
            },
            Json::NUMBER(s) => String::from_str(s.as_str()),
            Json::BOOL(b) => {
                if *b {
                    let r = String::from_str("true");
                    proof {
                        reveal_strlit("true");
                        assert(r@ =~= print_view(self@));
                    }
                    r
                } else {
                    let r = String::from_str("false");
                    proof {
                        reveal_strlit("false");
                        assert(r@ =~= print_view(self@));
                    }
                    r
                }
            },
            Json::NULL => {
                let r = String::from_str("null");
                proof {
                    reveal_strlit("null");
                    assert(r@ =~= print_view(self@));
                }
                r
            },
        }
    }
}

/// An empty object prints as exactly `{}`, and an empty array as `[]`.
pub proof fn lemma_print_empty()
    ensures
        print_view(JsonView::JSON(Seq::empty())) =~= seq!['{', '}'],
        print_view(JsonView::ARRAY(Seq::empty())) =~= seq!['[', ']'],
{
    assert(print_children(Seq::<JsonView>::empty()) == Seq::<char>::empty());
    assert(seq!['{'] + Seq::<char>::empty() + seq!['}'] =~= seq!['{', '}']);
    assert(seq!['['] + Seq::<char>::empty() + seq![']'] =~= seq!['[', ']']);
}

/// Serialization is deterministic: the text depends on the tree's view
/// alone, so printing the same unmodified tree twice yields equal text.
pub proof fn lemma_print_deterministic(a: JsonView, b: JsonView)
    requires
        a == b,
    ensures
        print_view(a) == print_view(b),
{
}

} // verus!
