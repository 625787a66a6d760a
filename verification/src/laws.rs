//! Laws relating the library's operations, stated over the mathematical
//! model and proved once and for all.

use crate::model::{can_add, first_match, is_entry_named, spec_add, JsonView};
use crate::parser::wf;
use vstd::prelude::*;

verus! {

/// Structural legality: pushing a raw object onto an object is never
/// legal, while an array accepts any child whatsoever.
pub proof fn lemma_structural_legality(cs: Seq<JsonView>, child_cs: Seq<JsonView>, any: JsonView)
    ensures
        !can_add(JsonView::JSON(cs), JsonView::JSON(child_cs)),
        can_add(JsonView::ARRAY(cs), any),
{
}

/// Lookup correctness: when `first_match` finds a position, that position
/// holds an entry with the searched name and every earlier child does
/// not; when it finds none, no child is an entry with that name.
pub proof fn lemma_first_match_correct(cs: Seq<JsonView>, name: Seq<char>)
    ensures
        match first_match(cs, name) {
            Some(i) => 0 <= i < cs.len() && is_entry_named(cs[i], name) && (forall|j: int|
                0 <= j < i ==> !is_entry_named(cs[j], name)),
            None => forall|j: int| 0 <= j < cs.len() ==> !is_entry_named(cs[j], name),
        },
    decreases cs.len(),
{
    if cs.len() > 0 && !is_entry_named(cs[0], name) {
        let rest = cs.drop_first();
        lemma_first_match_correct(rest, name);
        match first_match(rest, name) {
            Some(i) => {
                assert(cs[i + 1] == rest[i]);
                assert forall|j: int| 0 <= j < i + 1 implies !is_entry_named(cs[j], name) by {
                    if j > 0 {
                        assert(cs[j] == rest[j - 1]);
                    }
                }
            },
            None => {
                assert forall|j: int| 0 <= j < cs.len() implies !is_entry_named(cs[j], name) by {
                    if j > 0 {
                        assert(cs[j] == rest[j - 1]);
                    }
                }
            },
        }
    }
}

/// A freshly constructed empty object is well formed.
pub proof fn lemma_new_wf()
    ensures
        wf(JsonView::JSON(Seq::empty())),
{
}

/// Building with the mutation API keeps a tree well formed: every legal
/// `add` of a well-formed child to a well-formed receiver yields a
/// well-formed tree, so such trees parse back from their printed text.
pub proof fn lemma_add_preserves_wf(v: JsonView, c: JsonView)
    requires
        wf(v),
        wf(c),
        can_add(v, c),
    ensures
        wf(spec_add(v, c)),
    decreases v,
{
    match v {
        JsonView::JSON(cs) => {
            let grown = cs.push(c);
            assert forall|k: int| 0 <= k < grown.len() implies !((#[trigger] grown[k]) is JSON)
                && wf(grown[k]) by {
                if k < cs.len() {
                    assert(grown[k] == cs[k]);
                } else {
                    assert(grown[k] == c);
                }
            }
        },
        JsonView::ARRAY(cs) => {
            let grown = cs.push(c);
            assert forall|k: int| 0 <= k < grown.len() implies wf(#[trigger] grown[k]) by {
                if k < cs.len() {
                    assert(grown[k] == cs[k]);
                } else {
                    assert(grown[k] == c);
                }
            }
        },
        JsonView::OBJECT { name: _, value } => {
            lemma_add_preserves_wf(*value, c);
        },
        _ => {},
    }
}

} // verus!
