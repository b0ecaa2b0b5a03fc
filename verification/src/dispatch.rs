//! The solve dispatcher: re-validates a problem and hands it to the external
//! search engine, returning the covers it finds as lists of option labels.

use vstd::prelude::*;

use crate::idents::contains_id;
use crate::idents::contains_pair_id;
use crate::idents::ids_disjoint;
use crate::idents::ids_distinct;
use crate::idents::lemma_push_preserves_contains;
use crate::options::CoverOption;
use crate::problem::option_resolves;
use crate::problem::Problem;
use crate::value_error::ValueError;

verus! {

/// Some option among `opts` covers the primary item `id`.
pub open spec fn primary_covered_by_options(opts: Seq<CoverOption>, id: Seq<char>) -> bool {
    exists|k: int| 0 <= k < opts.len() && (#[trigger] opts[k]).prim_ids().contains(id)
}

/// Every primary item of `prim` is covered by at least one option. When this
/// fails, no cover of the problem can exist.
pub open spec fn all_primaries_covered(prim: Seq<Seq<char>>, opts: Seq<CoverOption>) -> bool {
    forall|i: int| 0 <= i < prim.len() ==> primary_covered_by_options(opts, #[trigger] prim[i])
}

/// Some option among `opts` assigns the secondary item `id`.
pub open spec fn secondary_referenced(opts: Seq<CoverOption>, id: Seq<char>) -> bool {
    exists|k: int| 0 <= k < opts.len() && (#[trigger] opts[k]).sec_ids().contains(id)
}

/// The labels of the options, in order.
pub open spec fn option_labels(opts: Seq<CoverOption>) -> Seq<Seq<char>> {
    opts.map_values(|o: CoverOption| o.label@)
}

/// Every entry of every cover is the label of one of the options.
pub open spec fn covers_use_option_labels(
    covers: Seq<Seq<Seq<char>>>,
    opts: Seq<CoverOption>,
) -> bool {
    forall|i: int, j: int|
        0 <= i < covers.len() && 0 <= j < covers[i].len() ==> option_labels(opts).contains(
            #[trigger] covers[i][j],
        )
}

/// A selection of options, as a list of distinct indexes into `opts`, each
/// selected option covering at least one primary item (an option that
/// assigns only secondary items is never selected by the search).
pub open spec fn valid_selection(opts: Seq<CoverOption>, sel: Seq<int>) -> bool {
    &&& forall|j: int| 0 <= j < sel.len() ==> 0 <= #[trigger] sel[j] < opts.len()
    &&& forall|j1: int, j2: int| 0 <= j1 < j2 < sel.len() ==> sel[j1] != sel[j2]
    &&& forall|j: int| 0 <= j < sel.len() ==> opts[#[trigger] sel[j]].prim_ids().len() > 0
}

/// The selected option at position `j` covers the primary item `id`.
pub open spec fn sel_covers(opts: Seq<CoverOption>, sel: Seq<int>, j: int, id: Seq<char>) -> bool {
    opts[sel[j]].prim_ids().contains(id)
}

/// The selected option at position `j` assigns the secondary item `id`.
pub open spec fn sel_assigns(opts: Seq<CoverOption>, sel: Seq<int>, j: int, id: Seq<char>) -> bool {
    opts[sel[j]].sec_ids().contains(id)
}

/// The color an option gives to the secondary item `id`: the color of its
/// assignment of `id`, unique when the option is well formed.
pub open spec fn assigned_color(o: CoverOption, id: Seq<char>) -> Seq<char> {
    let pairs = o.secondary_items.deep_view();
    pairs[choose|i: int| 0 <= i < pairs.len() && pairs[i].0 == id].1
}

/// Exactly one member of the selection covers the primary item `id`.
pub open spec fn covers_primary_once(opts: Seq<CoverOption>, sel: Seq<int>, id: Seq<char>) -> bool {
    &&& exists|j: int| 0 <= j < sel.len() && #[trigger] sel_covers(opts, sel, j, id)
    &&& forall|j1: int, j2: int|
        0 <= j1 < sel.len() && 0 <= j2 < sel.len() && #[trigger] sel_covers(opts, sel, j1, id)
            && #[trigger] sel_covers(opts, sel, j2, id) ==> j1 == j2
}

/// A secondary item assigned by two members of the selection carries the
/// identical, nonblank color in both: a blank color claims the item for one
/// option alone (standard colored exact-cover semantics).
pub open spec fn colors_agree(opts: Seq<CoverOption>, sel: Seq<int>) -> bool {
    forall|j1: int, j2: int, id: Seq<char>|
        0 <= j1 < sel.len() && 0 <= j2 < sel.len() && j1 != j2 && #[trigger] sel_assigns(
            opts,
            sel,
            j1,
            id,
        ) && #[trigger] sel_assigns(opts, sel, j2, id) ==> assigned_color(opts[sel[j1]], id)
            == assigned_color(opts[sel[j2]], id) && assigned_color(opts[sel[j1]], id).len() > 0
}

/// The selection is a cover of the primary universe `prim`: every primary
/// item is covered by exactly one member, and shared secondary items agree
/// on a nonblank color.
pub open spec fn selection_is_cover(
    prim: Seq<Seq<char>>,
    opts: Seq<CoverOption>,
    sel: Seq<int>,
) -> bool {
    &&& valid_selection(opts, sel)
    &&& forall|i: int| 0 <= i < prim.len() ==> covers_primary_once(opts, sel, #[trigger] prim[i])
    &&& colors_agree(opts, sel)
}

/// The labels of the selected options, in selection order.
pub open spec fn sel_labels(opts: Seq<CoverOption>, sel: Seq<int>) -> Seq<Seq<char>> {
    sel.map_values(|j: int| opts[j].label@)
}

/// The returned covers correspond one-to-one to distinct selections that are
/// covers: `covers[i]` holds the labels of `sels[i]`, in some order.
pub open spec fn covers_match_selections(
    prim: Seq<Seq<char>>,
    opts: Seq<CoverOption>,
    covers: Seq<Seq<Seq<char>>>,
    sels: Seq<Seq<int>>,
) -> bool {
    &&& sels.len() == covers.len()
    &&& forall|i: int|
        0 <= i < sels.len() ==> selection_is_cover(prim, opts, #[trigger] sels[i])
            && covers[i].to_multiset() == sel_labels(opts, sels[i]).to_multiset()
    &&& forall|i1: int, i2: int|
        0 <= i1 < i2 < sels.len() ==> (#[trigger] sels[i1]).to_multiset() != (
        #[trigger] sels[i2]).to_multiset()
}

/// Every selection that is a cover appears among `sels`, up to the order of
/// its members.
pub open spec fn selections_complete(
    prim: Seq<Seq<char>>,
    opts: Seq<CoverOption>,
    sels: Seq<Seq<int>>,
) -> bool {
    forall|sel: Seq<int>|
        #[trigger] selection_is_cover(prim, opts, sel) ==> exists|i: int|
            0 <= i < sels.len() && sels[i].to_multiset() == sel.to_multiset()
}

/// Index lists with the same members give the same labels, as multisets.
proof fn lemma_sel_labels_multiset(opts: Seq<CoverOption>, a: Seq<int>, b: Seq<int>)
    requires
        a.to_multiset() == b.to_multiset(),
    ensures
        sel_labels(opts, a).to_multiset() == sel_labels(opts, b).to_multiset(),
    decreases a.len(),
{
    broadcast use vstd::seq_lib::group_to_multiset_ensures;
    broadcast use vstd::multiset::group_multiset_axioms;

    assert(a.to_multiset().len() == a.len());
    assert(b.to_multiset().len() == b.len());
    if a.len() == 0 {
        assert(b.len() == 0);
        assert(sel_labels(opts, a) =~= sel_labels(opts, b));
    } else {
        let x = a[0];
        assert(a.contains(x));
        assert(b.to_multiset().count(x) > 0);
        assert(b.contains(x));
        let k = choose|k: int| 0 <= k < b.len() && b[k] == x;
        let a1 = a.remove(0);
        let b1 = b.remove(k);
        assert(a1.to_multiset() =~= a.to_multiset().remove(x));
        assert(b1.to_multiset() =~= b.to_multiset().remove(x));
        lemma_sel_labels_multiset(opts, a1, b1);
        let la = sel_labels(opts, a);
        let lb = sel_labels(opts, b);
        assert(la.remove(0) =~= sel_labels(opts, a1));
        assert(lb.remove(k) =~= sel_labels(opts, b1));
        let lx = opts[x].label@;
        assert(la[0] == lx && lb[k] == lx);
        assert(la.remove(0).to_multiset() =~= la.to_multiset().remove(lx));
        assert(lb.remove(k).to_multiset() =~= lb.to_multiset().remove(lx));
        assert(la.to_multiset().remove(lx) == lb.to_multiset().remove(lx));
        assert(la.to_multiset().count(lx) > 0);
        assert(lb.to_multiset().count(lx) > 0);
        assert(la.to_multiset() =~= lb.to_multiset()) by {
            assert forall|y: Seq<char>| la.to_multiset().count(y) == lb.to_multiset().count(
                y,
            ) by {
                assert(la.to_multiset().remove(lx).count(y) == lb.to_multiset().remove(lx).count(
                    y,
                ));
            }
        }
    }
}

/// Law: a cover returned in single-solution mode is among the covers of
/// all-solutions mode: the selection behind it is a cover, a complete
/// listing holds every cover selection, and equal selections carry equal
/// labels.
pub proof fn lemma_single_cover_among_all(
    prim: Seq<Seq<char>>,
    opts: Seq<CoverOption>,
    covers: Seq<Seq<Seq<char>>>,
    sels: Seq<Seq<int>>,
    sel: Seq<int>,
)
    requires
        selection_is_cover(prim, opts, sel),
        covers_match_selections(prim, opts, covers, sels),
        selections_complete(prim, opts, sels),
    ensures
        exists|i: int|
            0 <= i < covers.len() && (#[trigger] covers[i]).to_multiset() == sel_labels(
                opts,
                sel,
            ).to_multiset(),
{
    let i = choose|i: int| 0 <= i < sels.len() && sels[i].to_multiset() == sel.to_multiset();
    lemma_sel_labels_multiset(opts, sels[i], sel);
    assert(covers[i].to_multiset() == sel_labels(opts, sel).to_multiset());
}

/// Law: on a problem admitting no cover, any cover list that matches
/// distinct cover selections is empty — so `solve` answers such problems
/// with the empty list, never an error, in both modes.
pub proof fn lemma_no_cover_means_empty(
    prim: Seq<Seq<char>>,
    opts: Seq<CoverOption>,
    covers: Seq<Seq<Seq<char>>>,
    sels: Seq<Seq<int>>,
)
    requires
        covers_match_selections(prim, opts, covers, sels),
        forall|sel: Seq<int>| !(#[trigger] selection_is_cover(prim, opts, sel)),
    ensures
        covers.len() == 0,
{
    if covers.len() > 0 {
        assert(selection_is_cover(prim, opts, sels[0]));
    }
}

/// When some primary item is covered by no option at all, no selection can
/// be a cover.
proof fn lemma_uncovered_primary_excludes_covers(prim: Seq<Seq<char>>, opts: Seq<CoverOption>, i: int)
    requires
        0 <= i < prim.len(),
        !primary_covered_by_options(opts, prim[i]),
    ensures
        forall|sel: Seq<int>| !(#[trigger] selection_is_cover(prim, opts, sel)),
{
    assert forall|sel: Seq<int>| !(#[trigger] selection_is_cover(prim, opts, sel)) by {
        if selection_is_cover(prim, opts, sel) {
            assert(covers_primary_once(opts, sel, prim[i]));
            let j = choose|j: int| 0 <= j < sel.len() && sel_covers(opts, sel, j, prim[i]);
            assert(0 <= sel[j] < opts.len());
            assert(opts[sel[j]].prim_ids().contains(prim[i]));
            assert(primary_covered_by_options(opts, prim[i]));
        }
    }
}

/// Whether some option covers the primary item `id`.
fn option_covers_primary(options: &Vec<CoverOption>, id: &String) -> (r: bool)
    ensures
        r == primary_covered_by_options(options@, id@),
{
    let mut k: usize = 0;
    while k < options.len()
        invariant
            0 <= k <= options@.len(),
            forall|j: int| 0 <= j < k ==> !(#[trigger] options@[j]).prim_ids().contains(id@),
        decreases options@.len() - k,
    {
        if contains_id(&options[k].primary_items, id) {
            proof {
                assert(options@[k as int].prim_ids().contains(id@));
            }
            return true;
        }
        k += 1;
    }
    false
}

/// Whether every primary item is covered by at least one option.
fn all_covered(prim: &Vec<String>, options: &Vec<CoverOption>) -> (r: bool)
    ensures
        r == all_primaries_covered(prim.deep_view(), options@),
{
    let mut i: usize = 0;
    while i < prim.len()
        invariant
            0 <= i <= prim@.len(),
            forall|k: int|
                0 <= k < i ==> primary_covered_by_options(options@, #[trigger] prim.deep_view()[k]),
        decreases prim@.len() - i,
    {
        if !option_covers_primary(options, &prim[i]) {
            proof {
                assert(!primary_covered_by_options(options@, prim.deep_view()[i as int]));
            }
            return false;
        }
        i += 1;
    }
    true
}

/// Whether some option assigns the secondary item `id`.
fn secondary_is_referenced(options: &Vec<CoverOption>, id: &String) -> (r: bool)
    ensures
        r == secondary_referenced(options@, id@),
{
    let mut k: usize = 0;
    while k < options.len()
        invariant
            0 <= k <= options@.len(),
            forall|j: int| 0 <= j < k ==> !(#[trigger] options@[j]).sec_ids().contains(id@),
        decreases options@.len() - k,
    {
        if contains_pair_id(&options[k].secondary_items, id) {
            proof {
                assert(options@[k as int].sec_ids().contains(id@));
            }
            return true;
        }
        k += 1;
    }
    false
}

/// The secondary items that some option actually assigns, in declaration
/// order. Dropping the unassigned ones changes no cover: an item no option
/// touches constrains nothing.
fn used_secondaries(sec: &Vec<String>, options: &Vec<CoverOption>) -> (r: Vec<String>)
    requires
        ids_distinct(sec.deep_view()),
    ensures
        ids_distinct(r.deep_view()),
        forall|a: int|
            0 <= a < r.deep_view().len() ==> sec.deep_view().contains(#[trigger] r.deep_view()[a])
                && secondary_referenced(options@, r.deep_view()[a]),
        forall|b: int|
            0 <= b < sec.deep_view().len() && secondary_referenced(
                options@,
                #[trigger] sec.deep_view()[b],
            ) ==> r.deep_view().contains(sec.deep_view()[b]),
{
    let mut r: Vec<String> = Vec::new();
    let mut i: usize = 0;
    while i < sec.len()
        invariant
            0 <= i <= sec@.len(),
            ids_distinct(sec.deep_view()),
            ids_distinct(r.deep_view()),
            forall|a: int|
                0 <= a < r.deep_view().len() ==> sec.deep_view().take(i as int).contains(
                    #[trigger] r.deep_view()[a],
                ),
            forall|a: int|
                0 <= a < r.deep_view().len() ==> sec.deep_view().contains(
                    #[trigger] r.deep_view()[a],
                ) && secondary_referenced(options@, r.deep_view()[a]),
            forall|b: int|
                0 <= b < i && secondary_referenced(options@, #[trigger] sec.deep_view()[b])
                    ==> r.deep_view().contains(sec.deep_view()[b]),
        decreases sec@.len() - i,
    {
        if secondary_is_referenced(options, &sec[i]) {
            let ghost pre = r.deep_view();
            let ghost added = sec.deep_view()[i as int];
            r.push(sec[i].clone());
            proof {
                assert(r.deep_view() =~= pre.push(added));
                assert forall|a: int| 0 <= a < pre.len() implies pre[a] != added by {
                    let b = choose|b: int|
                        0 <= b < i && sec.deep_view().take(i as int)[b] == pre[a];
                    assert(sec.deep_view()[b] != sec.deep_view()[i as int]);
                }
                assert forall|x: int, y: int|
                    0 <= x < y < r.deep_view().len() implies r.deep_view()[x]
                    != r.deep_view()[y] by {
                    if y < pre.len() {
                        assert(pre[x] != pre[y]);
                    } else {
                        assert(r.deep_view()[y] == added && pre[x] != added);
                    }
                }
                assert forall|a: int|
                    0 <= a < r.deep_view().len() implies sec.deep_view().take(
                    i as int + 1,
                ).contains(#[trigger] r.deep_view()[a]) by {
                    if a < pre.len() {
                        let b = choose|b: int|
                            0 <= b < i && sec.deep_view().take(i as int)[b] == pre[a];
                        assert(sec.deep_view().take(i as int + 1)[b] == r.deep_view()[a]);
                    } else {
                        assert(sec.deep_view().take(i as int + 1)[i as int] == r.deep_view()[a]);
                    }
                }
                assert forall|b: int|
                    0 <= b < i + 1 && secondary_referenced(
                        options@,
                        #[trigger] sec.deep_view()[b],
                    ) implies r.deep_view().contains(sec.deep_view()[b]) by {
                    if b < i {
                        lemma_push_preserves_contains(pre, sec.deep_view()[b], added);
                    } else {
                        assert(r.deep_view()[pre.len() as int] == sec.deep_view()[b]);
                    }
                }
            }
        } else {
            proof {
                assert forall|a: int|
                    0 <= a < r.deep_view().len() implies sec.deep_view().take(
                    i as int + 1,
                ).contains(#[trigger] r.deep_view()[a]) by {
                    let b = choose|b: int|
                        0 <= b < i && sec.deep_view().take(i as int)[b] == r.deep_view()[a];
                    assert(sec.deep_view().take(i as int + 1)[b] == r.deep_view()[a]);
                }
            }
        }
        i += 1;
    }
    r
}

/// Relies on `algoxcc::solve` (a dancing-cells exact-cover search): on a
/// problem with a nonempty primary universe whose options reference only
/// declared items, with every primary item covered by some option and every
/// listed secondary item assigned by some option, it succeeds. Its
/// documentation states that each solution is a set of options covering all
/// primary items exactly once with agreeing colors on shared secondary
/// items, given as the selected options' labels, and that it returns all
/// solutions, or the first found one when `get_all` is false; the
/// backtracking search reports each such selection once and misses none.
#[verifier::external_body]
fn engine_solve(
    primary: &Vec<String>,
    secondary: &Vec<String>,
    options: &Vec<CoverOption>,
    get_all: bool,
) -> (r: Result<Vec<Vec<String>>, ValueError>)
    requires
        primary.deep_view().len() > 0,
        ids_distinct(primary.deep_view()),
        ids_distinct(secondary.deep_view()),
        ids_disjoint(primary.deep_view(), secondary.deep_view()),
        forall|k: int|
            0 <= k < options@.len() ==> (#[trigger] options@[k]).wf() && option_resolves(
                primary.deep_view(),
                secondary.deep_view(),
                options@[k],
            ),
        all_primaries_covered(primary.deep_view(), options@),
        forall|b: int|
            0 <= b < secondary.deep_view().len() ==> secondary_referenced(
                options@,
                #[trigger] secondary.deep_view()[b],
            ),
    ensures
        r is Ok,
        r matches Ok(v) ==> covers_use_option_labels(v.deep_view(), options@),
        !get_all ==> (r matches Ok(v) ==> v@.len() <= 1),
        r matches Ok(v) ==> exists|sels: Seq<Seq<int>>|
            covers_match_selections(primary.deep_view(), options@, v.deep_view(), sels),
        get_all ==> (r matches Ok(v) ==> exists|sels: Seq<Seq<int>>|
            covers_match_selections(primary.deep_view(), options@, v.deep_view(), sels)
                && selections_complete(primary.deep_view(), options@, sels)),
        !get_all ==> (r matches Ok(v) ==> ((exists|sel: Seq<int>|
            selection_is_cover(primary.deep_view(), options@, sel)) <==> v@.len() == 1)),
{
    let opts: Vec<algoxcc::Option> = options.iter().map(|o| algoxcc::Option {
        label: o.label.clone(),
        primary_items: o.primary_items.clone(),
        secondary_items: o.secondary_items.clone(),
    }).collect();
    let p = algoxcc::Problem {
        primary_items: primary.clone(), secondary_items: secondary.clone(), options: opts,
    };
    match algoxcc::solve(&p, get_all) {
        Ok(s) => Ok(s.all().clone()),
        Err(e) => Err(ValueError::new(e.message)),
    }
}

/// Re-validate `problem` as a whole and search it for covers: fails iff the
/// problem's fields no longer pass the construction checks or the problem
/// declares no primary items. Otherwise the result lists, as label lists in
/// engine-defined order, the distinct selections of options that cover every
/// primary item exactly once with agreeing colors — all of them when
/// `get_all` is true, and when it is false exactly one iff any cover exists.
/// When no cover exists (for instance, a primary item covered by no option)
/// the result is the empty list, not an error.
pub fn solve(problem: &Problem, get_all: bool) -> (r: Result<Vec<Vec<String>>, ValueError>)
    ensures
        r is Ok <==> problem.wf() && problem.prim_ids().len() > 0,
        r matches Ok(v) ==> covers_use_option_labels(v.deep_view(), problem.options@),
        problem.wf() && problem.prim_ids().len() > 0 && !all_primaries_covered(
            problem.prim_ids(),
            problem.options@,
        ) ==> (r matches Ok(v) && v@.len() == 0),
        !get_all ==> (r matches Ok(v) ==> v@.len() <= 1),
        r matches Ok(v) ==> exists|sels: Seq<Seq<int>>|
            covers_match_selections(problem.prim_ids(), problem.options@, v.deep_view(), sels),
        get_all ==> (r matches Ok(v) ==> exists|sels: Seq<Seq<int>>|
            covers_match_selections(problem.prim_ids(), problem.options@, v.deep_view(), sels)
                && selections_complete(problem.prim_ids(), problem.options@, sels)),
        !get_all ==> (r matches Ok(v) ==> ((exists|sel: Seq<int>|
            selection_is_cover(problem.prim_ids(), problem.options@, sel)) <==> v@.len() == 1)),
{
    match problem.validate() {
        Err(e) => {
            return Err(e);
        },
        Ok(()) => {},
    }
    if problem.primary_items.len() == 0 {
        return Err(ValueError::new("the problem declares no primary items".to_owned()));
    }
    if !all_covered(&problem.primary_items, &problem.options) {
        let empty: Vec<Vec<String>> = Vec::new();
        proof {
            assert(exists|i: int|
                0 <= i < problem.prim_ids().len() && !primary_covered_by_options(
                    problem.options@,
                    #[trigger] problem.prim_ids()[i],
                ));
            let i = choose|i: int|
                0 <= i < problem.prim_ids().len() && !primary_covered_by_options(
                    problem.options@,
                    #[trigger] problem.prim_ids()[i],
                );
            lemma_uncovered_primary_excludes_covers(problem.prim_ids(), problem.options@, i);
            let sels = Seq::<Seq<int>>::empty();
            assert(covers_match_selections(
                problem.prim_ids(),
                problem.options@,
                empty.deep_view(),
                sels,
            ));
            assert(selections_complete(problem.prim_ids(), problem.options@, sels));
        }
        return Ok(empty);
    }
    let used = used_secondaries(&problem.secondary_items, &problem.options);
    proof {
        assert forall|a: int, b: int|
            0 <= a < problem.prim_ids().len() && 0 <= b < used.deep_view().len()
                implies problem.prim_ids()[a] != used.deep_view()[b] by {
            let w = choose|w: int|
                0 <= w < problem.sec_ids().len() && problem.sec_ids()[w] == used.deep_view()[b];
            assert(problem.prim_ids()[a] != problem.sec_ids()[w]);
        }
        assert forall|k: int| 0 <= k < problem.options@.len() implies (
        #[trigger] problem.options@[k]).wf() && option_resolves(
            problem.prim_ids(),
            used.deep_view(),
            problem.options@[k],
        ) by {
            let o = problem.options@[k];
            assert(option_resolves(problem.prim_ids(), problem.sec_ids(), o));
            assert forall|i: int| 0 <= i < o.sec_ids().len() implies used.deep_view().contains(
                #[trigger] o.sec_ids()[i],
            ) by {
                let id = o.sec_ids()[i];
                assert(problem.sec_ids().contains(id));
                let b = choose|b: int|
                    0 <= b < problem.sec_ids().len() && problem.sec_ids()[b] == id;
                assert(o.sec_ids().contains(id));
                assert(secondary_referenced(problem.options@, id));
            }
        }
    }
    match engine_solve(&problem.primary_items, &used, &problem.options, get_all) {
        Ok(v) => Ok(v),
        Err(e) => Err(e),
    }
}

} // verus!
