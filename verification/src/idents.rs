//! Item identifiers and the shared duplicate / membership checks.
//!
//! An identifier is an opaque string label; two identifiers are equal iff
//! their labels are equal, so all contracts compare character sequences.

use vstd::prelude::*;

verus! {

/// No identifier occurs twice in the sequence.
pub open spec fn ids_distinct(ids: Seq<Seq<char>>) -> bool {
    forall|i: int, j: int| 0 <= i < j < ids.len() ==> ids[i] != ids[j]
}

/// No identifier occurs in both sequences.
pub open spec fn ids_disjoint(a: Seq<Seq<char>>, b: Seq<Seq<char>>) -> bool {
    forall|i: int, j: int| 0 <= i < a.len() && 0 <= j < b.len() ==> a[i] != b[j]
}

/// The item identifiers of a sequence of (item, color) assignments.
pub open spec fn pair_ids(pairs: Seq<(Seq<char>, Seq<char>)>) -> Seq<Seq<char>> {
    pairs.map_values(|p: (Seq<char>, Seq<char>)| p.0)
}

/// An identifier stays present when another is appended.
pub proof fn lemma_push_preserves_contains(s: Seq<Seq<char>>, x: Seq<char>, y: Seq<char>)
    requires
        s.contains(x),
    ensures
        s.push(y).contains(x),
{
    let i = choose|i: int| 0 <= i < s.len() && s[i] == x;
    assert(s.push(y)[i] == x);
}

/// Whether some element of `ids` has the same label as `x`.
pub fn contains_id(ids: &Vec<String>, x: &String) -> (r: bool)
    ensures
        r == ids.deep_view().contains(x@),
{
    let mut i: usize = 0;
    while i < ids.len()
        invariant
            0 <= i <= ids@.len(),
            forall|k: int| 0 <= k < i ==> ids.deep_view()[k] != x@,
        decreases ids@.len() - i,
    {
        if ids[i] == *x {
            assert(ids.deep_view()[i as int] == x@);
            return true;
        }
        i += 1;
    }
    false
}

/// Whether some assignment in `pairs` has an item with the same label as `x`.
pub fn contains_pair_id(pairs: &Vec<(String, String)>, x: &String) -> (r: bool)
    ensures
        r == pair_ids(pairs.deep_view()).contains(x@),
{
    let mut i: usize = 0;
    while i < pairs.len()
        invariant
            0 <= i <= pairs@.len(),
            forall|k: int| 0 <= k < i ==> pair_ids(pairs.deep_view())[k] != x@,
        decreases pairs@.len() - i,
    {
        if pairs[i].0 == *x {
            assert(pair_ids(pairs.deep_view())[i as int] == x@);
            return true;
        }
        i += 1;
    }
    false
}

/// Whether `ids` holds two identifiers with the same label.
pub fn has_duplicate_id(ids: &Vec<String>) -> (r: bool)
    ensures
        r == !ids_distinct(ids.deep_view()),
{
    let mut j: usize = 0;
    while j < ids.len()
        invariant
            0 <= j <= ids@.len(),
            forall|a: int, b: int| 0 <= a < b < j ==> ids.deep_view()[a] != ids.deep_view()[b],
        decreases ids@.len() - j,
    {
        let mut i: usize = 0;
        while i < j
            invariant
                0 <= i <= j < ids@.len(),
            forall|a: int| 0 <= a < i ==> ids.deep_view()[a] != ids.deep_view()[j as int],
            decreases j - i,
        {
            if ids[i] == ids[j] {
                assert(ids.deep_view()[i as int] == ids.deep_view()[j as int]);
                return true;
            }
            i += 1;
        }
        j += 1;
    }
    false
}

/// Whether two assignments in `pairs` share the same item identifier,
/// whatever their colors.
pub fn has_duplicate_pair_id(pairs: &Vec<(String, String)>) -> (r: bool)
    ensures
        r == !ids_distinct(pair_ids(pairs.deep_view())),
{
    let mut j: usize = 0;
    while j < pairs.len()
        invariant
            0 <= j <= pairs@.len(),
            forall|a: int, b: int| 0 <= a < b < j
                ==> pair_ids(pairs.deep_view())[a] != pair_ids(pairs.deep_view())[b],
        decreases pairs@.len() - j,
    {
        let mut i: usize = 0;
        while i < j
            invariant
                0 <= i <= j < pairs@.len(),
                forall|a: int| 0 <= a < i
                    ==> pair_ids(pairs.deep_view())[a] != pair_ids(pairs.deep_view())[j as int],
            decreases j - i,
        {
            if pairs[i].0 == pairs[j].0 {
                assert(pair_ids(pairs.deep_view())[i as int]
                    == pair_ids(pairs.deep_view())[j as int]);
                return true;
            }
            i += 1;
        }
        j += 1;
    }
    false
}

} // verus!
