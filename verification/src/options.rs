//! A named candidate subset: the primary items it covers and the colored
//! assignments it makes to secondary items.

use vstd::prelude::*;

use crate::idents::contains_id;
use crate::idents::contains_pair_id;
use crate::idents::has_duplicate_id;
use crate::idents::has_duplicate_pair_id;
use crate::idents::ids_distinct;
use crate::idents::pair_ids;
use crate::value_error::ValueError;

verus! {

/// A candidate option of a problem: a label, the primary items the option
/// covers, and the (secondary item, color) assignments it makes.
#[derive(Debug)]
pub struct CoverOption {
    pub label: String,
    pub primary_items: Vec<String>,
    pub secondary_items: Vec<(String, String)>,
}

impl CoverOption {
    /// The labels of the primary items this option covers, in order.
    pub open spec fn prim_ids(self) -> Seq<Seq<char>> {
        self.primary_items.deep_view()
    }

    /// The labels of the secondary items this option assigns, in order,
    /// without their colors.
    pub open spec fn sec_ids(self) -> Seq<Seq<char>> {
        pair_ids(self.secondary_items.deep_view())
    }

    /// Option-level validity: no primary item occurs twice, and no secondary
    /// item occurs in two assignments (whatever the colors).
    pub open spec fn wf(self) -> bool {
        &&& ids_distinct(self.prim_ids())
        &&& ids_distinct(self.sec_ids())
    }

    /// Re-derive option-level validity from the current field values.
    pub fn validate(&self) -> (r: Result<(), ValueError>)
        ensures
            r is Ok <==> self.wf(),
    {
        if has_duplicate_id(&self.primary_items) {
            return Err(ValueError::new("duplicate primary item in option".to_owned()));
        }
        if has_duplicate_pair_id(&self.secondary_items) {
            return Err(ValueError::new("duplicate secondary item in option".to_owned()));
        }
        Ok(())
    }

    /// Build an option, validating the given sequences first: fails iff
    /// `primary_items` repeats an identifier or two `secondary_items`
    /// assignments share an item identifier. On success the option holds the
    /// sequences as given.
    pub fn new(
        label: String,
        primary_items: Vec<String>,
        secondary_items: Vec<(String, String)>,
    ) -> (r: Result<CoverOption, ValueError>)
        ensures
            r is Ok <==> ids_distinct(primary_items.deep_view())
                && ids_distinct(pair_ids(secondary_items.deep_view())),
            r matches Ok(o) ==> o.label == label && o.primary_items == primary_items
                && o.secondary_items == secondary_items && o.wf(),
    {
        let o = CoverOption { label, primary_items, secondary_items };
        match o.validate() {
            Ok(()) => Ok(o),
            Err(e) => Err(e),
        }
    }

    /// Append one primary item: fails iff the item is already present,
    /// comparing against the state before the append; on success the item
    /// sequence grows by exactly that item and nothing else changes.
    pub fn add_primary_item(&mut self, item: String) -> (r: Result<(), ValueError>)
        ensures
            r is Ok <==> !old(self).prim_ids().contains(item@),
            r is Ok ==> final(self).primary_items.deep_view()
                == old(self).primary_items.deep_view().push(item@),
            r is Ok ==> final(self).label == old(self).label
                && final(self).secondary_items == old(self).secondary_items,
            r is Err ==> *final(self) == *old(self),
            old(self).wf() ==> final(self).wf(),
    {
        if contains_id(&self.primary_items, &item) {
            return Err(ValueError::new("item overlaps an existing primary item".to_owned()));
        }
        let ghost pre = self.primary_items.deep_view();
        let ghost added = item@;
        self.primary_items.push(item);
        proof {
            assert(self.primary_items.deep_view() =~= pre.push(added));
            assert(old(self).wf() ==> self.wf()) by {
                if old(self).wf() {
                    assert forall|a: int, b: int|
                        0 <= a < b < self.prim_ids().len() implies self.prim_ids()[a]
                        != self.prim_ids()[b] by {
                        if b < pre.len() {
                            assert(pre[a] != pre[b]);
                        } else {
                            assert(!pre.contains(added));
                            assert(self.prim_ids()[b] == added);
                            assert(self.prim_ids()[a] == pre[a]);
                        }
                    }
                }
            }
        }
        Ok(())
    }

    /// Append one (secondary item, color) assignment: fails iff the item is
    /// already assigned, whatever its color; on success the assignment
    /// sequence grows by exactly that pair and nothing else changes.
    pub fn add_secondary_item(&mut self, item: (String, String)) -> (r: Result<(), ValueError>)
        ensures
            r is Ok <==> !old(self).sec_ids().contains(item.0@),
            r is Ok ==> final(self).secondary_items.deep_view()
                == old(self).secondary_items.deep_view().push((item.0@, item.1@)),
            r is Ok ==> final(self).label == old(self).label
                && final(self).primary_items == old(self).primary_items,
            r is Err ==> *final(self) == *old(self),
            old(self).wf() ==> final(self).wf(),
    {
        if contains_pair_id(&self.secondary_items, &item.0) {
            return Err(ValueError::new("item overlaps an existing secondary item".to_owned()));
        }
        let ghost pre = self.secondary_items.deep_view();
        let ghost added = (item.0@, item.1@);
        self.secondary_items.push(item);
        proof {
            assert(self.secondary_items.deep_view() =~= pre.push(added));
            assert(pair_ids(pre.push(added)) =~= pair_ids(pre).push(added.0));
            assert(old(self).wf() ==> self.wf()) by {
                if old(self).wf() {
                    assert forall|a: int, b: int|
                        0 <= a < b < self.sec_ids().len() implies self.sec_ids()[a]
                        != self.sec_ids()[b] by {
                        if b < pre.len() {
                            assert(pair_ids(pre)[a] != pair_ids(pre)[b]);
                        } else {
                            assert(!pair_ids(pre).contains(added.0));
                            assert(self.sec_ids()[b] == added.0);
                            assert(self.sec_ids()[a] == pair_ids(pre)[a]);
                        }
                    }
                }
            }
        }
        Ok(())
    }

    /// The option's label.
    pub fn get_label(&self) -> (r: &str)
        ensures
            r@ == self.label@,
    {
        self.label.as_str()
    }

    /// Replace the label; labels carry no uniqueness constraint, so nothing
    /// is validated.
    pub fn set_label(&mut self, label: String)
        ensures
            final(self).label == label,
            final(self).primary_items == old(self).primary_items,
            final(self).secondary_items == old(self).secondary_items,
    {
        self.label = label;
    }

    /// A copy of the primary item sequence.
    pub fn primary_items(&self) -> (r: Vec<String>)
        ensures
            r.deep_view() == self.prim_ids(),
    {
        let r = self.primary_items.clone();
        proof {
            assert(r.deep_view() =~= self.primary_items.deep_view());
        }
        r
    }

    /// A copy of the (secondary item, color) assignment sequence.
    pub fn secondary_items(&self) -> (r: Vec<(String, String)>)
        ensures
            r.deep_view() == self.secondary_items.deep_view(),
    {
        let mut r: Vec<(String, String)> = Vec::new();
        let mut i: usize = 0;
        while i < self.secondary_items.len()
            invariant
                0 <= i <= self.secondary_items@.len(),
                r@.len() == i,
                r.deep_view() == self.secondary_items.deep_view().take(i as int),
            decreases self.secondary_items@.len() - i,
        {
            let pair = &self.secondary_items[i];
            let c0 = pair.0.clone();
            let c1 = pair.1.clone();
            proof {
                assert(c0@ == self.secondary_items@[i as int].0@);
                assert(c1@ == self.secondary_items@[i as int].1@);
            }
            let ghost prevec = r@;
            let ghost pre = r.deep_view();
            r.push((c0, c1));
            proof {
                assert(r.deep_view().last() == self.secondary_items.deep_view()[i as int]);
                assert forall|k: int| 0 <= k < i as int implies r.deep_view()[k] == pre[k] by {
                    assert(r@[k] == prevec[k]);
                }
                assert(r.deep_view() =~= self.secondary_items.deep_view().take(i as int + 1));
            }
            i += 1;
        }
        proof {
            assert(self.secondary_items.deep_view().take(i as int)
                =~= self.secondary_items.deep_view());
        }
        r
    }
}

/// Law: for any self-valid option, building a new option from its own label,
/// primary items and secondary items succeeds, since its fields already
/// satisfy exactly the conditions `CoverOption::new` checks.
pub proof fn lemma_rebuild_valid_option_succeeds(o: CoverOption)
    requires
        o.wf(),
    ensures
        ids_distinct(o.primary_items.deep_view()),
        ids_distinct(pair_ids(o.secondary_items.deep_view())),
{
}

} // verus!
