//! The tagged-union value model: a recursive tree of JSON values,
//! together with its mathematical view.

use vstd::prelude::*;
use vstd::string::StringExecFns;

verus! {

/// A JSON value. `JSON` is an object (`{...}`); its children are expected
/// to be `OBJECT` entries (named fields), though scalars are tolerated.
/// `OBJECT` is one named field of a `JSON`. Numbers are kept as their
/// numeric text, exactly as read from the input.
#[derive(Debug)]
pub enum Json {
    OBJECT { name: String, value: Box<Json> },
    JSON(Vec<Json>),
    ARRAY(Vec<Json>),
    STRING(String),
    NUMBER(String),
    BOOL(bool),
    NULL,
}

/// The mathematical abstraction of a [`Json`] tree: the same shape over
/// `Seq<char>` and `Seq<JsonView>`.
pub enum JsonView {
    OBJECT { name: Seq<char>, value: Box<JsonView> },
    JSON(Seq<JsonView>),
    ARRAY(Seq<JsonView>),
    STRING(Seq<char>),
    NUMBER(Seq<char>),
    BOOL(bool),
    NULL,
}

/// The views of a sequence of trees, element by element.
pub open spec fn views(s: Seq<Json>) -> Seq<JsonView>
    decreases s,
{
    Seq::new(
        s.len(),
        |i: int|
            if 0 <= i < s.len() {
                jview(s[i])
            } else {
                JsonView::NULL
            },
    )
}

/// The view of one tree: the same shape, with every payload abstracted.
pub open spec fn jview(j: Json) -> JsonView
    decreases j,
{
    match j {
        Json::OBJECT { name, value } => JsonView::OBJECT {
            name: name@,
            value: Box::new(jview(*value)),
        },
        Json::JSON(values) => JsonView::JSON(views(values@)),
        Json::ARRAY(values) => JsonView::ARRAY(views(values@)),
        Json::STRING(s) => JsonView::STRING(s@),
        Json::NUMBER(s) => JsonView::NUMBER(s@),
        Json::BOOL(b) => JsonView::BOOL(b),
        Json::NULL => JsonView::NULL,
    }
}

impl View for Json {
    type V = JsonView;

    open spec fn view(&self) -> JsonView {
        jview(*self)
    }
}

/// Pushing a tree onto a sequence appends its view to the sequence's views.
pub proof fn lemma_views_push(s: Seq<Json>, x: Json)
    ensures
        views(s.push(x)) =~= views(s).push(x@),
{
}

impl Json {
    /// Construct a new, empty `Json::JSON` object.
    pub fn new() -> (r: Json)
        ensures
            r@ == JsonView::JSON(Seq::<JsonView>::empty()),
    {
        let r = Json::JSON(Vec::new());
        proof {
            assert(views(Seq::<Json>::empty()) =~= Seq::<JsonView>::empty());
        }
        r
    }

    /// Enables matching the contents of a `Box`.
    pub fn unbox(&self) -> (r: &Json)
        ensures
            r == self,
    {
        self
    }

    /// Idem.
    pub fn unbox_mut(&mut self) -> (r: &mut Json)
        ensures
            *r == *old(self),
            *final(self) == *final(r),
    {
        self
    }
}

/// Whether `add` may push `child` onto the receiver `v`: the receiver must
/// be an object, an array, or an entry wrapping one of those, and an object
/// (directly or under an entry) never takes a raw `JSON` child.
pub open spec fn can_add(v: JsonView, child: JsonView) -> bool {
    match v {
        JsonView::JSON(_) => !(child is JSON),
        JsonView::OBJECT { name: _, value } => match *value {
            JsonView::JSON(_) => !(child is JSON),
            JsonView::ARRAY(_) => true,
            _ => false,
        },
        JsonView::ARRAY(_) => true,
        _ => false,
    }
}

/// The tree that a legal `add` produces: the child is appended to the
/// receiver's children, descending through an entry to its wrapped value.
pub open spec fn spec_add(v: JsonView, child: JsonView) -> JsonView
    decreases v,
{
    match v {
        JsonView::JSON(cs) => JsonView::JSON(cs.push(child)),
        JsonView::OBJECT { name, value } => JsonView::OBJECT {
            name,
            value: Box::new(spec_add(*value, child)),
        },
        JsonView::ARRAY(cs) => JsonView::ARRAY(cs.push(child)),
        _ => v,
    }
}

impl Json {
    /// Append `value` by taking the receiver apart and rebuilding it.
    fn add_owned(this: Json, value: Json) -> (r: Json)
        requires
            can_add(this@, value@),
        ensures
            r@ == spec_add(this@, value@),
        decreases this,
    {
        match this {
            Json::JSON(mut values) => {
                proof {
                    lemma_views_push(values@, value);
                }
                values.push(value);
                Json::JSON(values)
            },
            Json::ARRAY(mut values) => {
                proof {
                    lemma_views_push(values@, value);
                }
                values.push(value);
                Json::ARRAY(values)
            },
            Json::OBJECT { name, value: obj_val } => {
                let inner = Self::add_owned(*obj_val, value);
                Json::OBJECT { name, value: Box::new(inner) }
            },
            _ => vstd::pervasive::unreached(),
        }
    }

    /// Append `value` to the receiver's children and hand the receiver back,
    /// so that calls can be chained.
    ///
    /// The receiver must satisfy [`can_add`]: a raw `JSON` child may not be
    /// pushed onto an object, and scalars take no children at all.
    pub fn add(&mut self, value: Json) -> (r: &mut Json)
        requires
            can_add(old(self)@, value@),
        ensures
            (*r)@ == spec_add(old(self)@, value@),
            *final(self) == *final(r),
    {
        let mut taken = Json::NULL;
        core::mem::swap(self, &mut taken);
        *self = Self::add_owned(taken, value);
        self
    }
}

/// Whether the receiver may be searched by name: it must be an object, or
/// an entry wrapping an object.
pub open spec fn lookup_ok(v: JsonView) -> bool {
    match v {
        JsonView::JSON(_) => true,
        JsonView::OBJECT { name: _, value } => *value is JSON,
        _ => false,
    }
}

/// The children a lookup scans: the object's own children, descending
/// through an entry to its wrapped object.
pub open spec fn lookup_children(v: JsonView) -> Seq<JsonView> {
    match v {
        JsonView::JSON(cs) => cs,
        JsonView::OBJECT { name: _, value } => match *value {
            JsonView::JSON(cs) => cs,
            _ => Seq::empty(),
        },
        _ => Seq::empty(),
    }
}

/// Whether `v` is an entry carrying exactly this name.
pub open spec fn is_entry_named(v: JsonView, name: Seq<char>) -> bool {
    v matches JsonView::OBJECT { name: n, value: _ } && n == name
}

/// The position of the first entry named `name`, in insertion order.
pub open spec fn first_match(cs: Seq<JsonView>, name: Seq<char>) -> Option<int>
    decreases cs.len(),
{
    if cs.len() == 0 {
        None
    } else if is_entry_named(cs[0], name) {
        Some(0int)
    } else {
        match first_match(cs.drop_first(), name) {
            Some(i) => Some(i + 1),
            None => None,
        }
    }
}

/// A forward scan that has seen no match through position `n` determines
/// `first_match`: a hit at `n` is the first match, and a full scan without
/// a hit means there is none.
pub proof fn lemma_first_match_scan(cs: Seq<JsonView>, name: Seq<char>, n: int)
    requires
        0 <= n <= cs.len(),
        forall|j: int| 0 <= j < n ==> !is_entry_named(cs[j], name),
    ensures
        n < cs.len() && is_entry_named(cs[n], name) ==> first_match(cs, name) == Some(n),
        n == cs.len() ==> first_match(cs, name) is None,
    decreases cs.len(),
{
    if cs.len() > 0 && n > 0 {
        let rest = cs.drop_first();
        assert(forall|j: int| 0 <= j < n - 1 ==> !is_entry_named(#[trigger] rest[j], name));
        lemma_first_match_scan(rest, name, n - 1);
    }
}

/// The tree after child `i` of the searched object is replaced by `nv`.
pub open spec fn replace_child(v: JsonView, i: int, nv: JsonView) -> JsonView {
    match v {
        JsonView::JSON(cs) => JsonView::JSON(cs.update(i, nv)),
        JsonView::OBJECT { name, value } => match *value {
            JsonView::JSON(cs) => JsonView::OBJECT {
                name,
                value: Box::new(JsonView::JSON(cs.update(i, nv))),
            },
            _ => v,
        },
        _ => v,
    }
}

/// Updating one tree of a sequence updates its view pointwise.
pub proof fn lemma_views_update(s: Seq<Json>, i: int, x: Json)
    requires
        0 <= i < s.len(),
    ensures
        views(s.update(i, x)) =~= views(s).update(i, x@),
{
}

/// Find the position of the first entry named `search` among `values`.
fn find_entry(values: &Vec<Json>, search: &str) -> (r: Option<usize>)
    ensures
        match first_match(views(values@), search@) {
            Some(i) => r matches Some(n) && n == i && 0 <= i < values@.len(),
            None => r is None,
        },
{
    let search_string = String::from_str(search);
    let mut n: usize = 0;
    while n < values.len()
        invariant
            n <= values@.len(),
            search_string@ == search@,
            forall|j: int| 0 <= j < n ==> !is_entry_named(#[trigger] views(values@)[j], search@),
        decreases values@.len() - n,
    {
        match &values[n] {
            Json::OBJECT { name, value: _ } => {
                if name.eq(&search_string) {
                    proof {
                        lemma_first_match_scan(views(values@), search@, n as int);
                    }
                    return Some(n);
                }
            },
            _ => {},
        }
        n += 1;
    }
    proof {
        lemma_first_match_scan(views(values@), search@, n as int);
    }
    None
}

/// Find the first entry named `search` among `values` and hand back a
/// shared reference to it.
fn get_in<'a>(values: &'a Vec<Json>, search: &str) -> (r: Option<&'a Json>)
    ensures
        match first_match(views(values@), search@) {
            Some(i) => r matches Some(j) && j@ == views(values@)[i],
            None => r is None,
        },
{
    match find_entry(values, search) {
        Some(n) => Some(&values[n]),
        None => None,
    }
}

/// The tree `v` with its searched children replaced wholesale by `cs`.
pub open spec fn with_children(v: JsonView, cs: Seq<JsonView>) -> JsonView {
    match v {
        JsonView::JSON(_) => JsonView::JSON(cs),
        JsonView::OBJECT { name, value } => match *value {
            JsonView::JSON(_) => JsonView::OBJECT { name, value: Box::new(JsonView::JSON(cs)) },
            _ => v,
        },
        _ => v,
    }
}

/// Borrow the child vector that a lookup scans, mutably: the object's own
/// children, or those of the object wrapped by an entry.
fn children_mut(j: &mut Json) -> (vs: &mut Vec<Json>)
    requires
        lookup_ok(old(j)@),
    ensures
        views((*vs)@) == lookup_children(old(j)@),
        (*final(j))@ == with_children(old(j)@, views(final(vs)@)),
{
    proof {
        reveal_with_fuel(jview, 3);
    }
    match j {
        Json::JSON(values) => values,
        Json::OBJECT { name: _, value } => match &mut **value {
            Json::JSON(values) => values,
            _ => vstd::pervasive::unreached(),
        },
        _ => vstd::pervasive::unreached(),
    }
}

impl Json {
    /// Return the first entry child (in insertion order) whose name equals
    /// `search`, or `None` when no entry matches.
    ///
    /// The receiver must satisfy [`lookup_ok`]: only an object, or an entry
    /// wrapping an object, can be searched.
    pub fn get(&self, search: &str) -> (r: Option<&Json>)
        requires
            lookup_ok(self@),
        ensures
            ({
                let cs = lookup_children(self@);
                match first_match(cs, search@) {
                    Some(i) => r matches Some(j) && j@ == cs[i],
                    None => r is None,
                }
            }),
    {
        proof {
            reveal_with_fuel(jview, 3);
        }
        match self {
            Json::JSON(values) => {
                proof {
                    assert(lookup_children(self@) == views(values@));
                }
                get_in(values, search)
            },
            Json::OBJECT { name: _, value } => match &**value {
                Json::JSON(values) => {
                    proof {
                        assert(lookup_children(self@) == views(values@));
                    }
                    get_in(values, search)
                },
                _ => vstd::pervasive::unreached(),
            },
            _ => vstd::pervasive::unreached(),
        }
    }

    /// Same as [`Json::get`], but the reference handed back is mutable, so
    /// that further `add` calls can grow the found entry in place.
    pub fn get_mut(&mut self, search: &str) -> (r: Option<&mut Json>)
        requires
            lookup_ok(old(self)@),
        ensures
            ({
                let cs = lookup_children(old(self)@);
                match first_match(cs, search@) {
                    Some(i) => r matches Some(e) && (*e)@ == cs[i] && (*final(self))@
                        == replace_child(old(self)@, i, (*final(e))@),
                    None => r is None && *final(self) == *old(self),
                }
            }),
    {
        proof {
            reveal_with_fuel(jview, 3);
        }
        let idx: Option<usize> = match &*self {
            Json::JSON(values) => {
                proof {
                    assert(lookup_children(self@) == views(values@));
                }
                find_entry(values, search)
            },
            Json::OBJECT { name: _, value } => match &**value {
                Json::JSON(values) => {
                    proof {
                        assert(lookup_children(self@) == views(values@));
                    }
                    find_entry(values, search)
                },
                _ => vstd::pervasive::unreached(),
            },
            _ => vstd::pervasive::unreached(),
        };
        match idx {
            None => None,
            Some(n) => {
                let vs = children_mut(self);
                proof {
                    assert forall|x: Json, i: int| 0 <= i < vs@.len() implies #[trigger] views(
                        vs@.update(i, x),
                    ) == views(vs@).update(i, x@) by {
                        lemma_views_update(vs@, i, x);
                    }
                }
                Some(&mut vs[n])
            },
        }
    }
}

} // verus!
