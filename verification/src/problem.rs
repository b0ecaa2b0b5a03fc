//! The problem aggregate: the primary and secondary item universes and the
//! ordered list of options, kept valid through every construction and append.

use vstd::prelude::*;

use crate::idents::contains_id;
use crate::idents::has_duplicate_id;
use crate::idents::ids_disjoint;
use crate::idents::ids_distinct;
use crate::idents::lemma_push_preserves_contains;
use crate::options::CoverOption;
use crate::value_error::ValueError;

verus! {

/// Every item the option references is declared in the corresponding
/// universe: primary references resolve into `prim`, secondary references
/// into `sec`.
pub open spec fn option_resolves(prim: Seq<Seq<char>>, sec: Seq<Seq<char>>, o: CoverOption) -> bool {
    &&& forall|i: int| 0 <= i < o.prim_ids().len() ==> prim.contains(#[trigger] o.prim_ids()[i])
    &&& forall|i: int| 0 <= i < o.sec_ids().len() ==> sec.contains(#[trigger] o.sec_ids()[i])
}

/// The checks a problem must pass to be well formed: both universes are
/// duplicate-free and disjoint, and every option is self-valid and
/// references only declared items.
pub open spec fn problem_parts_wf(
    prim: Seq<Seq<char>>,
    sec: Seq<Seq<char>>,
    opts: Seq<CoverOption>,
) -> bool {
    &&& ids_distinct(prim)
    &&& ids_distinct(sec)
    &&& ids_disjoint(prim, sec)
    &&& forall|k: int|
        0 <= k < opts.len() ==> (#[trigger] opts[k]).wf() && option_resolves(prim, sec, opts[k])
}

/// Whether every item the option references is declared: primary references
/// in `prim`, secondary references in `sec`.
pub fn option_refs_resolve(prim: &Vec<String>, sec: &Vec<String>, o: &CoverOption) -> (r: bool)
    ensures
        r == option_resolves(prim.deep_view(), sec.deep_view(), *o),
{
    let mut i: usize = 0;
    while i < o.primary_items.len()
        invariant
            0 <= i <= o.primary_items@.len(),
            forall|k: int| 0 <= k < i ==> prim.deep_view().contains(#[trigger] o.prim_ids()[k]),
        decreases o.primary_items@.len() - i,
    {
        if !contains_id(prim, &o.primary_items[i]) {
            proof {
                assert(!prim.deep_view().contains(o.prim_ids()[i as int]));
            }
            return false;
        }
        i += 1;
    }
    let mut j: usize = 0;
    while j < o.secondary_items.len()
        invariant
            0 <= j <= o.secondary_items@.len(),
            forall|k: int|
                0 <= k < o.primary_items@.len() ==> prim.deep_view().contains(
                    #[trigger] o.prim_ids()[k],
                ),
            forall|k: int| 0 <= k < j ==> sec.deep_view().contains(#[trigger] o.sec_ids()[k]),
        decreases o.secondary_items@.len() - j,
    {
        if !contains_id(sec, &o.secondary_items[j].0) {
            proof {
                assert(!sec.deep_view().contains(o.sec_ids()[j as int]));
            }
            return false;
        }
        j += 1;
    }
    true
}

/// An exact-cover problem: the primary item universe, the secondary item
/// universe, and the ordered options among which covers are sought.
#[derive(Debug)]
pub struct Problem {
    pub primary_items: Vec<String>,
    pub secondary_items: Vec<String>,
    pub options: Vec<CoverOption>,
}

impl Problem {
    /// The labels of the declared primary items, in order.
    pub open spec fn prim_ids(self) -> Seq<Seq<char>> {
        self.primary_items.deep_view()
    }

    /// The labels of the declared secondary items, in order.
    pub open spec fn sec_ids(self) -> Seq<Seq<char>> {
        self.secondary_items.deep_view()
    }

    /// Problem-level validity over the current field values.
    pub open spec fn wf(self) -> bool {
        problem_parts_wf(self.prim_ids(), self.sec_ids(), self.options@)
    }

    /// Re-run the construction checks on the current field values.
    pub fn validate(&self) -> (r: Result<(), ValueError>)
        ensures
            r is Ok <==> self.wf(),
    {
        if has_duplicate_id(&self.primary_items) {
            return Err(ValueError::new("duplicate primary item".to_owned()));
        }
        if has_duplicate_id(&self.secondary_items) {
            return Err(ValueError::new("duplicate secondary item".to_owned()));
        }
        let mut i: usize = 0;
        while i < self.secondary_items.len()
            invariant
                0 <= i <= self.secondary_items@.len(),
                forall|k: int| 0 <= k < i ==> !self.prim_ids().contains(#[trigger] self.sec_ids()[k]),
            decreases self.secondary_items@.len() - i,
        {
            if contains_id(&self.primary_items, &self.secondary_items[i]) {
                proof {
                    let sid = self.sec_ids()[i as int];
                    let w = choose|w: int|
                        0 <= w < self.prim_ids().len() && self.prim_ids()[w] == sid;
                    assert(!ids_disjoint(self.prim_ids(), self.sec_ids()));
                }
                return Err(ValueError::new("item is both primary and secondary".to_owned()));
            }
            i += 1;
        }
        proof {
            assert(ids_disjoint(self.prim_ids(), self.sec_ids())) by {
                assert forall|a: int, b: int|
                    0 <= a < self.prim_ids().len() && 0 <= b < self.sec_ids().len()
                        implies self.prim_ids()[a] != self.sec_ids()[b] by {
                    assert(!self.prim_ids().contains(self.sec_ids()[b]));
                }
            }
        }
        let mut k: usize = 0;
        while k < self.options.len()
            invariant
                0 <= k <= self.options@.len(),
                forall|j: int|
                    0 <= j < k ==> (#[trigger] self.options@[j]).wf() && option_resolves(
                        self.prim_ids(),
                        self.sec_ids(),
                        self.options@[j],
                    ),
            decreases self.options@.len() - k,
        {
            let o = &self.options[k];
            match o.validate() {
                Err(e) => {
                    return Err(e);
                },
                Ok(()) => {},
            }
            if !option_refs_resolve(&self.primary_items, &self.secondary_items, o) {
                return Err(ValueError::new("option references an undeclared item".to_owned()));
            }
            k += 1;
        }
        Ok(())
    }

    /// Build a problem, validating the given collections as a whole: fails
    /// iff a universe repeats an identifier, the universes intersect, an
    /// option is not self-valid, or an option references an undeclared item.
    /// Options are checked against the combined final universes, so forward
    /// references among the arguments are permitted. On success the problem
    /// owns the three collections as given.
    pub fn new(
        primary_items: Vec<String>,
        secondary_items: Vec<String>,
        options: Vec<CoverOption>,
    ) -> (r: Result<Problem, ValueError>)
        ensures
            r is Ok <==> problem_parts_wf(
                primary_items.deep_view(),
                secondary_items.deep_view(),
                options@,
            ),
            r matches Ok(p) ==> p.primary_items == primary_items && p.secondary_items
                == secondary_items && p.options == options && p.wf(),
    {
        let p = Problem { primary_items, secondary_items, options };
        match p.validate() {
            Ok(()) => Ok(p),
            Err(e) => Err(e),
        }
    }

    /// Append one primary item: fails iff the identifier already exists
    /// anywhere in the combined item universe; on success the primary
    /// universe grows by exactly that item, nothing else changes, and a
    /// valid problem stays valid (existing options only narrow into the
    /// universe).
    pub fn add_primary_item(&mut self, item: String) -> (r: Result<(), ValueError>)
        ensures
            r is Ok <==> !old(self).prim_ids().contains(item@) && !old(self).sec_ids().contains(
                item@,
            ),
            r is Ok ==> final(self).primary_items.deep_view() == old(self).prim_ids().push(item@),
            r is Ok ==> final(self).secondary_items == old(self).secondary_items
                && final(self).options == old(self).options,
            r is Err ==> *final(self) == *old(self),
            old(self).wf() ==> final(self).wf(),
    {
        if contains_id(&self.primary_items, &item) {
            return Err(ValueError::new("item overlaps an existing item".to_owned()));
        }
        if contains_id(&self.secondary_items, &item) {
            return Err(ValueError::new("item overlaps an existing item".to_owned()));
        }
        let ghost pre = self.primary_items.deep_view();
        let ghost added = item@;
        self.primary_items.push(item);
        proof {
            assert(self.primary_items.deep_view() =~= pre.push(added));
            if old(self).wf() {
                assert forall|a: int, b: int| 0 <= a < b < self.prim_ids().len()
                    implies self.prim_ids()[a] != self.prim_ids()[b] by {
                    if b < pre.len() {
                        assert(pre[a] != pre[b]);
                    } else {
                        assert(!pre.contains(added));
                        assert(self.prim_ids()[a] == pre[a]);
                    }
                }
                assert forall|a: int, b: int|
                    0 <= a < self.prim_ids().len() && 0 <= b < self.sec_ids().len()
                        implies self.prim_ids()[a] != self.sec_ids()[b] by {
                    if a == pre.len() {
                        assert(!old(self).sec_ids().contains(added));
                    } else {
                        assert(self.prim_ids()[a] == pre[a]);
                    }
                }
                assert forall|k: int| 0 <= k < self.options@.len() implies (
                #[trigger] self.options@[k]).wf() && option_resolves(
                    self.prim_ids(),
                    self.sec_ids(),
                    self.options@[k],
                ) by {
                    let o = self.options@[k];
                    assert(o.wf() && option_resolves(pre, old(self).sec_ids(), o));
                    assert forall|i: int| 0 <= i < o.prim_ids().len()
                        implies self.prim_ids().contains(#[trigger] o.prim_ids()[i]) by {
                        lemma_push_preserves_contains(pre, o.prim_ids()[i], added);
                    }
                }
            }
        }
        Ok(())
    }

    /// Append one secondary item: fails iff the identifier already exists
    /// anywhere in the combined item universe; on success the secondary
    /// universe grows by exactly that item, nothing else changes, and a
    /// valid problem stays valid.
    pub fn add_secondary_item(&mut self, item: String) -> (r: Result<(), ValueError>)
        ensures
            r is Ok <==> !old(self).prim_ids().contains(item@) && !old(self).sec_ids().contains(
                item@,
            ),
            r is Ok ==> final(self).secondary_items.deep_view() == old(self).sec_ids().push(item@),
            r is Ok ==> final(self).primary_items == old(self).primary_items
                && final(self).options == old(self).options,
            r is Err ==> *final(self) == *old(self),
            old(self).wf() ==> final(self).wf(),
    {
        if contains_id(&self.primary_items, &item) {
            return Err(ValueError::new("item overlaps an existing item".to_owned()));
        }
        if contains_id(&self.secondary_items, &item) {
            return Err(ValueError::new("item overlaps an existing item".to_owned()));
        }
        let ghost pre = self.secondary_items.deep_view();
        let ghost added = item@;
        self.secondary_items.push(item);
        proof {
            assert(self.secondary_items.deep_view() =~= pre.push(added));
            if old(self).wf() {
                assert forall|a: int, b: int| 0 <= a < b < self.sec_ids().len()
                    implies self.sec_ids()[a] != self.sec_ids()[b] by {
                    if b < pre.len() {
                        assert(pre[a] != pre[b]);
                    } else {
                        assert(!pre.contains(added));
                        assert(self.sec_ids()[a] == pre[a]);
                    }
                }
                assert forall|a: int, b: int|
                    0 <= a < self.prim_ids().len() && 0 <= b < self.sec_ids().len()
                        implies self.prim_ids()[a] != self.sec_ids()[b] by {
                    if b == pre.len() {
                        assert(!old(self).prim_ids().contains(added));
                    } else {
                        assert(self.sec_ids()[b] == pre[b]);
                    }
                }
                assert forall|k: int| 0 <= k < self.options@.len() implies (
                #[trigger] self.options@[k]).wf() && option_resolves(
                    self.prim_ids(),
                    self.sec_ids(),
                    self.options@[k],
                ) by {
                    let o = self.options@[k];
                    assert(o.wf() && option_resolves(old(self).prim_ids(), pre, o));
                    assert forall|i: int| 0 <= i < o.sec_ids().len()
                        implies self.sec_ids().contains(#[trigger] o.sec_ids()[i]) by {
                        lemma_push_preserves_contains(pre, o.sec_ids()[i], added);
                    }
                }
            }
        }
        Ok(())
    }

    /// Append one option: fails iff the option is not self-valid (re-derived
    /// from its raw fields) or references an identifier absent from the
    /// problem's current universes; on success the option list grows by
    /// exactly that option, nothing else changes, and a valid problem stays
    /// valid.
    pub fn add_option(&mut self, option: CoverOption) -> (r: Result<(), ValueError>)
        ensures
            r is Ok <==> option.wf() && option_resolves(
                old(self).prim_ids(),
                old(self).sec_ids(),
                option,
            ),
            r is Ok ==> final(self).options@ == old(self).options@.push(option),
            r is Ok ==> final(self).primary_items == old(self).primary_items
                && final(self).secondary_items == old(self).secondary_items,
            r is Err ==> *final(self) == *old(self),
            old(self).wf() ==> final(self).wf(),
    {
        match option.validate() {
            Err(e) => {
                return Err(e);
            },
            Ok(()) => {},
        }
        if !option_refs_resolve(&self.primary_items, &self.secondary_items, &option) {
            return Err(ValueError::new("option references an undeclared item".to_owned()));
        }
        let ghost added = option;
        self.options.push(option);
        proof {
            assert(self.options@ == old(self).options@.push(added));
            if old(self).wf() {
                assert forall|k: int| 0 <= k < self.options@.len() implies (
                #[trigger] self.options@[k]).wf() && option_resolves(
                    self.prim_ids(),
                    self.sec_ids(),
                    self.options@[k],
                ) by {
                    if k < old(self).options@.len() {
                        assert(self.options@[k] == old(self).options@[k]);
                    } else {
                        assert(self.options@[k] == added);
                    }
                }
            }
        }
        Ok(())
    }
}

/// Law: re-validating an already-validated problem with unchanged fields
/// always succeeds, because a valid problem's current fields satisfy exactly
/// the checks that construction runs.
pub proof fn lemma_revalidation_idempotent(p: Problem)
    requires
        p.wf(),
    ensures
        problem_parts_wf(p.primary_items.deep_view(), p.secondary_items.deep_view(), p.options@),
{
}

} // verus!
