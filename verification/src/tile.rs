//! Per-cell superposition state and its refinement.

use vstd::prelude::*;
use crate::rules::Rule;
use crate::rules::Rules;
use crate::rules::first_with_center_ge;
use crate::rules::first_with_center_gt;
use crate::rules::lemma_first_with_center_ge;
use crate::rules::lemma_first_with_center_gt;
use crate::rules::lemma_sum_matched_bounds;
use crate::rules::lemma_sum_scores_concat;
use crate::rules::lemma_sum_scores_take_mono;
use crate::rules::nb_views;
use crate::rules::nbs_sorted;
use crate::rules::rule_matches;
use crate::rules::rules_with_center;
use crate::rules::score_rules;
use crate::rules::sum_matched;
use crate::rules::sum_scores;
use crate::sorted::sorted;
use crate::sorted::strictly_sorted;
use crate::weighted::Weighted;
use crate::weighted::lemma_sum_weights_ge_elem;
use crate::weighted::rle_expand;
use crate::weighted::sum_weights;

verus! {

broadcast use vstd::seq_lib::group_filter_ensures;

/// A tile identity. The value `0` is reserved as the void sentinel: it
/// marks "no constraint" in a neighbor view and "contradiction" in a
/// resolved cell, never a real generated tile.
pub type TileID = u16;

/// Raised by a forced collapse on a cell whose candidate set is empty; the
/// engine must only force cells that still hold candidates.
#[derive(Debug, Clone, Copy, PartialEq, Eq)]
pub struct EmptyDomainError;

/// What a cell reports after refinement: a terminal resolution (the void
/// tile `0` on contradiction), or a continuation signal saying whether the
/// candidate set shrank.
#[derive(Debug, Clone, Copy, PartialEq, Eq)]
pub enum Refinement {
    Resolved(TileID),
    Unresolved(bool),
}

/// The superposition of one grid cell: the candidate tile identities still
/// consistent with its neighbors, and a parallel weight per candidate.
/// Weights are only meaningful immediately after a refinement.
#[derive(Clone, Debug, PartialEq)]
pub struct SuperTile {
    pub ids: Vec<TileID>,
    pub scores: Weighted,
}

/// How one neighbor looks to a refining cell: already collapsed to a tile,
/// or still a superposition read through a shared reference.
#[derive(Clone, Copy)]
pub enum NeighborView<'a> {
    ResolvedTile(TileID),
    Superimposed(&'a SuperTile),
}

/// The candidate list a neighbor view contributes: nothing for a resolved
/// void tile (no constraint), a singleton for a resolved real tile, and the
/// full candidate list of an unresolved neighbor.
pub open spec fn nb_view<'a>(v: NeighborView<'a>) -> Seq<TileID> {
    match v {
        NeighborView::ResolvedTile(t) => if t == 0 {
            Seq::empty()
        } else {
            seq![t]
        },
        NeighborView::Superimposed(st) => st.ids@,
    }
}

/// The mathematical view of all eight neighbor views.
pub open spec fn views_of<'a>(nbs: [NeighborView<'a>; 8]) -> Seq<Seq<TileID>> {
    Seq::new(8, |d: int| nb_view(nbs[d]))
}

/// A neighbor view is usable when an unresolved neighbor's candidate list
/// is strictly sorted, as every cell of this module keeps it.
pub open spec fn nb_wf<'a>(v: NeighborView<'a>) -> bool {
    match v {
        NeighborView::ResolvedTile(t) => true,
        NeighborView::Superimposed(st) => strictly_sorted(st.ids@),
    }
}

/// A candidate survives refinement when at least one of its rules matches
/// the neighbors and its recomputed weight is not zero.
pub open spec fn survives(rules: Seq<Rule>, c: TileID, nbv: Seq<Seq<TileID>>) -> bool {
    let sub = rules_with_center(rules, c);
    &&& exists|m: int| 0 <= m < sub.len() && rule_matches(#[trigger] sub[m], nbv)
    &&& sum_matched(sub, nbv) != 0
}

/// The candidates of `ids` that survive refinement, in order.
pub open spec fn surviving(rules: Seq<Rule>, ids: Seq<TileID>, nbv: Seq<Seq<TileID>>) -> Seq<
    TileID,
> {
    ids.filter(|c: TileID| survives(rules, c, nbv))
}

/// Refinement never grows a candidate set: whatever the rules and the
/// neighbors say, the surviving candidates are a sub-sequence of the old
/// ones, so across successive refinements the count is non-increasing.
pub proof fn lemma_refine_narrows(rules: Seq<Rule>, ids: Seq<TileID>, nbv: Seq<Seq<TileID>>)
    ensures
        surviving(rules, ids, nbv).len() <= ids.len(),
{
}

/// A sequence whose members all satisfy a predicate passes its filter
/// unchanged.
proof fn lemma_filter_all<A>(s: Seq<A>, pred: spec_fn(A) -> bool)
    requires
        forall|i: int| 0 <= i < s.len() ==> pred(#[trigger] s[i]),
    ensures
        s.filter(pred) == s,
    decreases s.len(),
{
    reveal(Seq::filter);
    if s.len() > 0 {
        lemma_filter_all(s.drop_last(), pred);
        assert(s.filter(pred) =~= s);
    }
}

/// Refinement is stable: refining the survivors once more against the same
/// neighbor information keeps every one of them, so a repeated call changes
/// nothing and reports no shrinkage.
pub proof fn lemma_refine_stable(rules: Seq<Rule>, ids: Seq<TileID>, nbv: Seq<Seq<TileID>>)
    ensures
        surviving(rules, surviving(rules, ids, nbv), nbv) == surviving(rules, ids, nbv),
{
    let left = surviving(rules, ids, nbv);
    assert forall|i: int| 0 <= i < left.len() implies survives(rules, #[trigger] left[i], nbv) by {
        ids.lemma_filter_pred(|c: TileID| survives(rules, c, nbv), i);
    }
    lemma_filter_all(left, |c: TileID| survives(rules, c, nbv));
}

/// The distinct centers of a rule catalog, with multiplicity, in order.
pub open spec fn centers_of(rs: Seq<Rule>) -> Seq<TileID> {
    rs.map_values(|r: Rule| r.center)
}

/// Materializes one neighbor view as an owned candidate list.
fn view_list(v: NeighborView<'_>) -> (out: Vec<TileID>)
    ensures
        out@ == nb_view(v),
{
    match v {
        NeighborView::ResolvedTile(t) => {
            let mut out: Vec<TileID> = Vec::new();
            if t != 0 {
                out.push(t);
                proof {
                    assert(out@ =~= seq![t]);
                }
            }
            out
        },
        NeighborView::Superimposed(st) => vstd::slice::slice_to_vec(st.ids.as_slice()),
    }
}

/// Whether any rule of the slice matches the eight neighbor lists.
fn any_rule_matches(rules_slice: &[Rule], neighbors: &[&[TileID]; 8]) -> (any: bool)
    requires
        nbs_sorted(nb_views(*neighbors)),
    ensures
        any == exists|m: int|
            0 <= m < rules_slice@.len() && rule_matches(
                #[trigger] rules_slice@[m],
                nb_views(*neighbors),
            ),
{
    let mut k: usize = 0;
    while k < rules_slice.len()
        invariant
            k <= rules_slice@.len(),
            nbs_sorted(nb_views(*neighbors)),
            forall|m: int|
                0 <= m < k ==> !rule_matches(#[trigger] rules_slice@[m], nb_views(*neighbors)),
        decreases rules_slice@.len() - k,
    {
        let r: &Rule = &rules_slice[k];
        if r.eval(neighbors) {
            proof {
                assert(rule_matches(rules_slice@[k as int], nb_views(*neighbors)));
            }
            return true;
        }
        k += 1;
    }
    false
}

impl SuperTile {
    /// The cell invariant: candidates strictly sorted, aligned one-to-one
    /// with positive weights whose total fits an `i32`.
    pub open spec fn wf(&self) -> bool {
        &&& self.ids@.len() == self.scores.0@.len()
        &&& strictly_sorted(self.ids@)
        &&& forall|i: int| 0 <= i < self.scores.0@.len() ==> #[trigger] self.scores.0@[i] > 0
        &&& sum_weights(self.scores.0@) <= i32::MAX
    }

    /// A fresh cell: its candidates are the distinct centers of the
    /// catalog, each with an initial weight equal to the number of rules it
    /// centers, computed as a run-length count over the sorted centers.
    pub fn new(rules: &Rules) -> (cell: SuperTile)
        requires
            rules.wf(),
        ensures
            cell.wf(),
            rle_expand(cell.ids@, cell.scores.0@) == centers_of(rules.0@),
    {
        let ghost rs = rules.0@;
        let mut centers: Vec<TileID> = Vec::new();
        let mut i: usize = 0;
        while i < rules.0.len()
            invariant
                i <= rs.len(),
                rs == rules.0@,
                centers@.len() == i,
                forall|k: int| 0 <= k < i ==> #[trigger] centers@[k] == rs[k].center,
            decreases rs.len() - i,
        {
            let r: Rule = rules.0[i];
            centers.push(r.center);
            i += 1;
        }
        proof {
            assert(centers@ =~= centers_of(rs));
            assert forall|x: int, y: int| 0 <= x < y < centers@.len() implies centers@[x]
                <= centers@[y] by {
                assert(crate::rules::rule_lt(rs[x], rs[y]));
            }
            assert(sorted(centers@));
        }
        let (ids, scores) = Weighted::count(&centers);
        SuperTile { ids, scores }
    }

    /// One refinement step against eight neighbor views: discard every
    /// candidate with no matching rule, recompute each surviving weight as
    /// its matched-score total, discard the weightless, and resolve when at
    /// most one candidate remains — to the void tile `0` on contradiction.
    /// Otherwise report whether the candidate set shrank.
    pub fn refine(&mut self, neighbors: &[NeighborView<'_>; 8], rules: &Rules) -> (res: Refinement)
        requires
            old(self).wf(),
            rules.wf(),
            forall|d: int| 0 <= d < 8 ==> nb_wf(#[trigger] (*neighbors)[d]),
        ensures
            final(self).wf(),
            ({
                let nbv = views_of(*neighbors);
                let left = surviving(rules.0@, old(self).ids@, nbv);
                match res {
                    Refinement::Resolved(t) => {
                        &&& left.len() <= 1
                        &&& (left.len() == 0 ==> t == 0)
                        &&& (left.len() == 1 ==> t == left[0])
                        &&& final(self).ids@.len() == 0
                    },
                    Refinement::Unresolved(changed) => {
                        &&& left.len() >= 2
                        &&& final(self).ids@ == left
                        &&& final(self).scores.0@.len() == left.len()
                        &&& (forall|k: int|
                            0 <= k < left.len() ==> (#[trigger] final(self).scores.0@[k]) as int
                                == sum_matched(rules_with_center(rules.0@, left[k]), nbv))
                        &&& changed == (left.len() < old(self).ids@.len())
                    },
                }
            }),
    {
        let ghost nbv = views_of(*neighbors);
        let v0: Vec<TileID> = view_list(neighbors[0]);
        let v1: Vec<TileID> = view_list(neighbors[1]);
        let v2: Vec<TileID> = view_list(neighbors[2]);
        let v3: Vec<TileID> = view_list(neighbors[3]);
        let v4: Vec<TileID> = view_list(neighbors[4]);
        let v5: Vec<TileID> = view_list(neighbors[5]);
        let v6: Vec<TileID> = view_list(neighbors[6]);
        let v7: Vec<TileID> = view_list(neighbors[7]);
        let nbs: [&[TileID]; 8] = [
            v0.as_slice(),
            v1.as_slice(),
            v2.as_slice(),
            v3.as_slice(),
            v4.as_slice(),
            v5.as_slice(),
            v6.as_slice(),
            v7.as_slice(),
        ];
        proof {
            assert(nb_views(nbs) =~= nbv);
            assert forall|d: int| 0 <= d < 8 implies sorted(#[trigger] nbv[d]) by {
                assert(nb_wf((*neighbors)[d]));
                match (*neighbors)[d] {
                    NeighborView::ResolvedTile(t) => {
                        assert(nbv[d].len() <= 1);
                    },
                    NeighborView::Superimposed(st) => {
                        assert(strictly_sorted(st.ids@));
                    },
                }
            }
            assert(nbs_sorted(nb_views(nbs)));
        }
        let ghost rs = rules.0@;
        let ghost old_ids = self.ids@;
        let start_len: usize = self.ids.len();
        let mut new_ids: Vec<TileID> = Vec::new();
        let mut new_ws: Vec<i32> = Vec::new();
        let ghost mut prev_hi: int = 0;
        let mut i: usize = 0;
        while i < self.ids.len()
            invariant
                i <= old_ids.len(),
                self.ids@ == old_ids,
                rs == rules.0@,
                rules.wf(),
                strictly_sorted(old_ids),
                nb_views(nbs) == nbv,
                nbs_sorted(nbv),
                new_ids@ == surviving(rs, old_ids.take(i as int), nbv),
                new_ws@.len() == new_ids@.len(),
                forall|k: int|
                    0 <= k < new_ids@.len() ==> (#[trigger] new_ws@[k]) as int == sum_matched(
                        rules_with_center(rs, new_ids@[k]),
                        nbv,
                    ) && new_ws@[k] > 0,
                strictly_sorted(new_ids@),
                i < old_ids.len() ==> (forall|k: int|
                    0 <= k < new_ids@.len() ==> (#[trigger] new_ids@[k]) < old_ids[i as int]),
                0 <= prev_hi <= rs.len(),
                sum_weights(new_ws@) <= sum_scores(rs.take(prev_hi)),
                i > 0 ==> prev_hi == first_with_center_gt(rs, old_ids[i - 1]),
                i == 0 ==> prev_hi == 0,
            decreases old_ids.len() - i,
        {
            let c: TileID = self.ids[i];
            let sub: &[Rule] = rules.rules_for(c);
            let ghost lo = first_with_center_ge(rs, c);
            let ghost hi = first_with_center_gt(rs, c);
            proof {
                lemma_first_with_center_ge(rs, c);
                lemma_first_with_center_gt(rs, c);
                assert forall|k: int| 0 <= k < sub@.len() implies (#[trigger] sub@[k]).score
                    >= 0 by {
                    assert(sub@[k] == rs[lo + k]);
                }
                crate::rules::lemma_sum_scores_subrange_le(rs, lo, hi);
                lemma_sum_matched_bounds(sub@, nbv);
                // the ranges walked so far end before this one begins
                if i > 0 {
                    lemma_first_with_center_gt(rs, old_ids[i - 1]);
                    assert(old_ids[i - 1] < c);
                    if lo < prev_hi {
                        assert(rs[lo].center <= old_ids[i - 1]);
                        assert(rs[lo].center >= c);
                        assert(false);
                    }
                } else {
                    assert(prev_hi == 0);
                }
                assert(prev_hi <= lo);
            }
            let any: bool = any_rule_matches(sub, &nbs);
            let mut keep: bool = false;
            let mut w: i32 = 0;
            if any {
                w = score_rules(sub, &nbs);
                if w != 0 {
                    keep = true;
                }
            }
            proof {
                reveal(Seq::filter);
                assert(old_ids.take(i as int + 1).drop_last() =~= old_ids.take(i as int));
                assert(old_ids.take(i as int + 1).last() == c);
                assert(keep == survives(rs, c, nbv));
                if keep {
                    assert(surviving(rs, old_ids.take(i as int + 1), nbv) == surviving(
                        rs,
                        old_ids.take(i as int),
                        nbv,
                    ).push(c));
                } else {
                    assert(surviving(rs, old_ids.take(i as int + 1), nbv) == surviving(
                        rs,
                        old_ids.take(i as int),
                        nbv,
                    ));
                }
            }
            let ghost pre_ids = new_ids@;
            let ghost pre_ws = new_ws@;
            if keep {
                new_ids.push(c);
                new_ws.push(w);
                proof {
                    assert(new_ws@.drop_last() =~= pre_ws);
                    assert(sum_weights(new_ws@) == sum_weights(pre_ws) + w);
                    assert(forall|k: int| 0 <= k < pre_ids.len() ==> new_ids@[k] == pre_ids[k]);
                    assert(forall|k: int| 0 <= k < pre_ws.len() ==> new_ws@[k] == pre_ws[k]);
                    assert forall|x: int, y: int| 0 <= x < y < new_ids@.len() implies new_ids@[x]
                        < new_ids@[y] by {
                        if y < new_ids@.len() - 1 {
                            assert(new_ids@[x] == pre_ids[x] && new_ids@[y] == pre_ids[y]);
                        } else {
                            assert(new_ids@[y] == c);
                            assert(new_ids@[x] == pre_ids[x]);
                        }
                    }
                    // the new total still telescopes within the catalog
                    lemma_sum_scores_take_mono(rs, prev_hi, lo);
                    assert(rs.take(hi) =~= rs.take(lo) + rs.subrange(lo, hi));
                    lemma_sum_scores_concat(rs.take(lo), rs.subrange(lo, hi));
                    assert(sum_weights(new_ws@) <= sum_scores(rs.take(hi)));
                }
            } else {
                proof {
                    lemma_sum_scores_take_mono(rs, prev_hi, hi);
                }
            }
            proof {
                prev_hi = hi;
                if i + 1 < old_ids.len() {
                    assert forall|k: int| 0 <= k < new_ids@.len() implies (#[trigger] new_ids@[k])
                        < old_ids[i as int + 1] by {
                        if keep && k == new_ids@.len() - 1 {
                            assert(new_ids@[k] == c);
                            assert(old_ids[i as int] < old_ids[i as int + 1]);
                        } else {
                            assert(new_ids@[k] == pre_ids[k]);
                            assert(pre_ids[k] < old_ids[i as int]);
                            assert(old_ids[i as int] < old_ids[i as int + 1]);
                        }
                    }
                }
            }
            i += 1;
        }
        proof {
            assert(old_ids.take(old_ids.len() as int) =~= old_ids);
            lemma_sum_scores_take_mono(rs, prev_hi, rs.len() as int);
            assert(rs.take(rs.len() as int) =~= rs);
            assert(sum_weights(new_ws@) <= i32::MAX);
        }
        if new_ids.len() == 0 {
            self.ids = new_ids;
            self.scores = Weighted(new_ws);
            return Refinement::Resolved(0);
        }
        if new_ids.len() == 1 {
            let t: TileID = new_ids[0];
            let empty_ids: Vec<TileID> = Vec::new();
            let empty_ws: Vec<i32> = Vec::new();
            self.ids = empty_ids;
            self.scores = Weighted(empty_ws);
            proof {
                assert(sum_weights(self.scores.0@) == 0);
            }
            return Refinement::Resolved(t);
        }
        let changed: bool = new_ids.len() < start_len;
        self.ids = new_ids;
        self.scores = Weighted(new_ws);
        Refinement::Unresolved(changed)
    }

    /// Forced collapse: draw one candidate at random, each picked with
    /// probability proportional to its weight. Errs exactly on a cell with
    /// no candidates left, which the engine must never ask to collapse.
    pub fn force_collapse(&self, rng: &mut rand::rngs::StdRng) -> (out: Result<
        TileID,
        EmptyDomainError,
    >)
        requires
            self.wf(),
        ensures
            match out {
                Ok(t) => self.ids@.len() > 0 && self.ids@.contains(t),
                Err(_) => self.ids@.len() == 0,
            },
    {
        if self.ids.len() == 0 {
            return Err(EmptyDomainError);
        }
        proof {
            lemma_sum_weights_ge_elem(self.scores.0@, 0);
        }
        match self.scores.pick_rand(rng) {
            Some(i) => {
                let t: TileID = self.ids[i];
                proof {
                    assert(self.ids@[i as int] == t);
                }
                Ok(t)
            },
            None => {
                proof {
                    assert(false);
                }
                Err(EmptyDomainError)
            },
        }
    }
}

} // verus!
