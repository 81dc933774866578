//! Run-length frequency table and inverse-CDF weighted sampling.

use vstd::prelude::*;
use crate::rng::gen_range_inclusive;
use crate::sorted::sorted;
use crate::sorted::strictly_sorted;
use crate::tile::TileID;

verus! {

/// A run-length-encoded frequency table: one non-negative weight per entry.
#[derive(Clone, Debug, PartialEq)]
pub struct Weighted(pub Vec<i32>);

/// Total of a sequence of weights.
pub open spec fn sum_weights(ws: Seq<i32>) -> int
    decreases ws.len(),
{
    if ws.len() == 0 {
        0
    } else {
        sum_weights(ws.drop_last()) + ws.last()
    }
}

/// Weight totals split over concatenation.
pub proof fn lemma_sum_weights_concat(a: Seq<i32>, b: Seq<i32>)
    ensures
        sum_weights(a + b) == sum_weights(a) + sum_weights(b),
    decreases b.len(),
{
    if b.len() == 0 {
        assert(a + b =~= a);
    } else {
        Seq::drop_last_distributes_over_add(a, b);
        lemma_sum_weights_concat(a, b.drop_last());
    }
}

/// With no negative weights the total is non-negative.
pub proof fn lemma_sum_weights_nonneg(ws: Seq<i32>)
    requires
        forall|i: int| 0 <= i < ws.len() ==> #[trigger] ws[i] >= 0,
    ensures
        sum_weights(ws) >= 0,
    decreases ws.len(),
{
    if ws.len() > 0 {
        lemma_sum_weights_nonneg(ws.drop_last());
    }
}

/// With no negative weights, each weight is at most the total.
pub proof fn lemma_sum_weights_ge_elem(ws: Seq<i32>, k: int)
    requires
        forall|i: int| 0 <= i < ws.len() ==> #[trigger] ws[i] >= 0,
        0 <= k < ws.len(),
    ensures
        ws[k] <= sum_weights(ws),
    decreases ws.len(),
{
    if k == ws.len() - 1 {
        lemma_sum_weights_nonneg(ws.drop_last());
    } else {
        lemma_sum_weights_ge_elem(ws.drop_last(), k);
    }
}

/// With no negative weights, a prefix total is at most the whole total.
pub proof fn lemma_sum_weights_take_le(ws: Seq<i32>, j: int)
    requires
        forall|i: int| 0 <= i < ws.len() ==> #[trigger] ws[i] >= 0,
        0 <= j <= ws.len(),
    ensures
        0 <= sum_weights(ws.take(j)) <= sum_weights(ws),
{
    assert(ws =~= ws.take(j) + ws.skip(j));
    lemma_sum_weights_concat(ws.take(j), ws.skip(j));
    lemma_sum_weights_nonneg(ws.take(j));
    lemma_sum_weights_nonneg(ws.skip(j));
}

/// The total seen from the front: first weight plus the rest.
pub proof fn lemma_sum_weights_first(ws: Seq<i32>)
    requires
        ws.len() > 0,
    ensures
        sum_weights(ws) == ws[0] + sum_weights(ws.drop_first()),
{
    assert(ws =~= seq![ws[0]] + ws.drop_first());
    lemma_sum_weights_concat(seq![ws[0]], ws.drop_first());
    assert(seq![ws[0]].drop_last() =~= Seq::<i32>::empty());
    assert(sum_weights(Seq::<i32>::empty()) == 0);
    assert(seq![ws[0]].last() == ws[0]);
    assert(sum_weights(seq![ws[0]]) == ws[0]);
}

/// `n` copies of one value (none when `n` is not positive).
pub open spec fn repeat_val(v: TileID, n: int) -> Seq<TileID> {
    if n <= 0 {
        Seq::empty()
    } else {
        Seq::new(n as nat, |i: int| v)
    }
}

/// The sequence that a run-length encoding stands for: each value repeated
/// by its run length, in order.
pub open spec fn rle_expand(vals: Seq<TileID>, runs: Seq<i32>) -> Seq<TileID>
    decreases vals.len(),
{
    if vals.len() == 0 || runs.len() == 0 {
        Seq::empty()
    } else {
        repeat_val(vals[0], runs[0] as int) + rle_expand(vals.drop_first(), runs.drop_first())
    }
}

/// Opening a fresh run of length one appends exactly one value to the
/// expansion.
pub proof fn lemma_rle_push(vals: Seq<TileID>, runs: Seq<i32>, v: TileID)
    requires
        vals.len() == runs.len(),
    ensures
        rle_expand(vals.push(v), runs.push(1)) == rle_expand(vals, runs).push(v),
    decreases vals.len(),
{
    if vals.len() == 0 {
        assert(repeat_val(v, 1) =~= seq![v]);
        assert(vals.push(v).drop_first() =~= Seq::<TileID>::empty());
        assert(runs.push(1).drop_first() =~= Seq::<i32>::empty());
        assert(rle_expand(Seq::<TileID>::empty(), Seq::<i32>::empty()) =~= Seq::<TileID>::empty());
        assert(rle_expand(vals.push(v).drop_first(), runs.push(1).drop_first())
            =~= Seq::<TileID>::empty());
        assert(rle_expand(vals.push(v), runs.push(1)) =~= rle_expand(vals, runs).push(v));
    } else {
        assert(vals.push(v).drop_first() =~= vals.drop_first().push(v));
        assert(runs.push(1).drop_first() =~= runs.drop_first().push(1));
        lemma_rle_push(vals.drop_first(), runs.drop_first(), v);
        assert(rle_expand(vals.push(v), runs.push(1)) =~= rle_expand(vals, runs).push(v));
    }
}

/// Lengthening the last run by one appends one more copy of the last value
/// to the expansion.
pub proof fn lemma_rle_extend(vals: Seq<TileID>, runs: Seq<i32>)
    requires
        vals.len() == runs.len(),
        vals.len() > 0,
        forall|i: int| 0 <= i < runs.len() ==> 1 <= #[trigger] runs[i],
        runs.last() < i32::MAX,
    ensures
        rle_expand(vals, runs.update(runs.len() - 1, (runs.last() + 1) as i32)) == rle_expand(
            vals,
            runs,
        ).push(vals.last()),
    decreases vals.len(),
{
    let k = runs.len() - 1;
    let runs2 = runs.update(k, (runs.last() + 1) as i32);
    if vals.len() == 1 {
        assert(vals.drop_first().len() == 0);
        assert(repeat_val(vals[0], runs2[0] as int) =~= repeat_val(vals[0], runs[0] as int).push(
            vals[0],
        ));
        assert(rle_expand(vals.drop_first(), runs.drop_first()) =~= Seq::<TileID>::empty());
        assert(rle_expand(vals.drop_first(), runs2.drop_first()) =~= Seq::<TileID>::empty());
        assert(rle_expand(vals, runs2) =~= rle_expand(vals, runs).push(vals.last()));
    } else {
        assert(runs2.drop_first() =~= runs.drop_first().update(k - 1, (runs.last() + 1) as i32));
        assert(runs.drop_first().last() == runs.last());
        lemma_rle_extend(vals.drop_first(), runs.drop_first());
        assert(runs2[0] == runs[0]);
        assert(rle_expand(vals, runs2) =~= rle_expand(vals, runs).push(vals.last()));
    }
}

/// Index selection by inverse CDF: scan the weights left to right,
/// subtracting each from the draw; the first index where the remainder
/// drops to zero or below is selected. `None` when the weights run out
/// first.
pub open spec fn pick_spec(ws: Seq<i32>, n: int) -> Option<int>
    decreases ws.len(),
{
    if ws.len() == 0 {
        None
    } else if n - ws[0] <= 0 {
        Some(0)
    } else {
        match pick_spec(ws.drop_first(), n - ws[0]) {
            Some(i) => Some(i + 1),
            None => None,
        }
    }
}

/// A draw within `[1, total]` always selects an index, and only one whose
/// weight is positive.
pub proof fn lemma_pick_in_range(ws: Seq<i32>, n: int)
    requires
        forall|i: int| 0 <= i < ws.len() ==> #[trigger] ws[i] >= 0,
        1 <= n <= sum_weights(ws),
    ensures
        match pick_spec(ws, n) {
            Some(i) => 0 <= i < ws.len() && ws[i] > 0,
            None => false,
        },
    decreases ws.len(),
{
    if ws.len() == 0 {
    } else {
        lemma_sum_weights_first(ws);
        if n - ws[0] <= 0 {
        } else {
            lemma_pick_in_range(ws.drop_first(), n - ws[0]);
        }
    }
}

impl Weighted {
    /// Weights are meaningful when none is negative and their total fits
    /// the accumulator used by [`Weighted::sum`].
    pub open spec fn wf(&self) -> bool {
        &&& forall|i: int| 0 <= i < self.0@.len() ==> #[trigger] self.0@[i] >= 0
        &&& sum_weights(self.0@) <= i32::MAX
    }

    /// Run-length encodes `items`: one `(value, run length)` pair for each
    /// maximal run of equal consecutive values, preserving first-seen
    /// order. Re-expanding the output reproduces `items` exactly; when
    /// `items` is sorted the emitted values are strictly increasing.
    pub fn count(items: &Vec<TileID>) -> (out: (Vec<TileID>, Weighted))
        requires
            items@.len() <= i32::MAX,
        ensures
            out.0@.len() == out.1.0@.len(),
            rle_expand(out.0@, out.1.0@) == items@,
            forall|i: int| 0 <= i < out.1.0@.len() ==> 1 <= #[trigger] out.1.0@[i],
            forall|i: int| 0 <= i < out.0@.len() - 1 ==> (#[trigger] out.0@[i]) != out.0@[i + 1],
            sum_weights(out.1.0@) == items@.len(),
            sorted(items@) ==> strictly_sorted(out.0@),
            out.1.wf(),
    {
        let ghost whole = items@;
        let mut vals: Vec<TileID> = Vec::new();
        let mut runs: Vec<i32> = Vec::new();
        let mut i: usize = 0;
        while i < items.len()
            invariant
                i <= whole.len(),
                whole == items@,
                whole.len() <= i32::MAX,
                vals@.len() == runs@.len(),
                rle_expand(vals@, runs@) == whole.take(i as int),
                forall|k: int| 0 <= k < runs@.len() ==> 1 <= #[trigger] runs@[k],
                forall|k: int| 0 <= k < vals@.len() - 1 ==> (#[trigger] vals@[k]) != vals@[k + 1],
                sum_weights(runs@) == i,
                i > 0 ==> vals@.len() > 0 && vals@.last() == whole[i - 1],
                i == 0 ==> vals@.len() == 0,
                sorted(whole) ==> strictly_sorted(vals@),
            decreases whole.len() - i,
        {
            let x: TileID = items[i];
            let ghost pre_vals = vals@;
            let ghost pre_runs = runs@;
            proof {
                assert(whole.take(i as int + 1).drop_last() =~= whole.take(i as int));
                assert(whole.take(i as int + 1).last() == whole[i as int]);
            }
            let l: usize = vals.len();
            let mut extend: bool = false;
            if l > 0 {
                if vals[l - 1] == x {
                    extend = true;
                }
            }
            if extend {
                proof {
                    lemma_sum_weights_ge_elem(pre_runs, l - 1 as int);
                    assert(pre_runs.last() <= sum_weights(pre_runs));
                }
                let r: i32 = runs[l - 1];
                runs.set(l - 1, r + 1);
                proof {
                    assert(runs@ =~= pre_runs.update(pre_runs.len() - 1, (pre_runs.last() + 1) as i32));
                    lemma_rle_extend(pre_vals, pre_runs);
                    assert(runs@.drop_last() =~= pre_runs.drop_last());
                    assert(sum_weights(runs@) == sum_weights(pre_runs) + 1);
                }
            } else {
                vals.push(x);
                runs.push(1);
                proof {
                    lemma_rle_push(pre_vals, pre_runs, x);
                    assert(runs@.drop_last() =~= pre_runs);
                    assert(sum_weights(runs@) == sum_weights(pre_runs) + 1);
                    assert(forall|k: int| 0 <= k < pre_vals.len() ==> vals@[k] == pre_vals[k]);
                    assert(vals@.last() == x);
                    assert forall|k: int| 0 <= k < vals@.len() - 1 implies (#[trigger] vals@[k])
                        != vals@[k + 1] by {
                        if k + 1 < pre_vals.len() {
                            assert(vals@[k] == pre_vals[k] && vals@[k + 1] == pre_vals[k + 1]);
                        } else {
                            assert(vals@[k] == pre_vals[k] && vals@[k + 1] == x);
                        }
                    }
                    if sorted(whole) {
                        if i > 0 {
                            assert(whole[i - 1] <= whole[i as int]);
                            assert(pre_vals.last() != x);
                            assert forall|k: int| 0 <= k < pre_vals.len() implies pre_vals[k]
                                < x by {
                                if k < pre_vals.len() - 1 {
                                    assert(pre_vals[k] < pre_vals[pre_vals.len() - 1]);
                                }
                            }
                        }
                        assert(strictly_sorted(vals@)) by {
                            assert(forall|k: int|
                                0 <= k < pre_vals.len() ==> vals@[k] == pre_vals[k]);
                        }
                    }
                }
            }
            i += 1;
        }
        proof {
            assert(whole.take(whole.len() as int) =~= whole);
        }
        (vals, Weighted(runs))
    }

    /// The total of all weights.
    pub fn sum(&self) -> (total: i32)
        requires
            self.wf(),
        ensures
            total as int == sum_weights(self.0@),
            total >= 0,
    {
        let ghost ws = self.0@;
        let mut total: i32 = 0;
        let mut k: usize = 0;
        while k < self.0.len()
            invariant
                k <= ws.len(),
                ws == self.0@,
                self.wf(),
                total as int == sum_weights(ws.take(k as int)),
                total >= 0,
            decreases ws.len() - k,
        {
            proof {
                assert(ws.take(k as int + 1).drop_last() =~= ws.take(k as int));
                assert(ws.take(k as int + 1).last() == ws[k as int]);
                lemma_sum_weights_take_le(ws, k as int + 1);
            }
            total = total + self.0[k];
            k += 1;
        }
        proof {
            assert(ws.take(ws.len() as int) =~= ws);
        }
        total
    }

    /// Selects the index that a draw lands on, scanning left to right as
    /// [`pick_spec`] describes: index `i` is selected by the draws in
    /// `(sum of weights before i, sum through i]`.
    pub fn pick(&self, draw: i32) -> (out: Option<usize>)
        requires
            self.wf(),
        ensures
            match out {
                Some(i) => pick_spec(self.0@, draw as int) == Some(i as int) && i < self.0@.len(),
                None => pick_spec(self.0@, draw as int) is None,
            },
    {
        let ghost ws = self.0@;
        proof {
            assert(ws.skip(0) =~= ws);
        }
        let mut n: i32 = draw;
        let mut k: usize = 0;
        while k < self.0.len()
            invariant
                k <= ws.len(),
                ws == self.0@,
                self.wf(),
                match pick_spec(ws.skip(k as int), n as int) {
                    Some(i) => pick_spec(ws, draw as int) == Some(i + k),
                    None => pick_spec(ws, draw as int) is None,
                },
            decreases ws.len() - k,
        {
            let w: i32 = self.0[k];
            proof {
                assert(ws.skip(k as int)[0] == ws[k as int]);
            }
            if n <= w {
                proof {
                    assert(pick_spec(ws.skip(k as int), n as int) == Some(0int));
                }
                return Some(k);
            }
            n = n - w;
            proof {
                assert(ws.skip(k as int).drop_first() =~= ws.skip(k as int + 1));
            }
            k += 1;
        }
        proof {
            assert(ws.skip(ws.len() as int) =~= Seq::<i32>::empty());
        }
        None
    }

    /// Draws uniformly from `[1, total]` with the injected generator and
    /// delegates to [`Weighted::pick`]. `None` exactly when the total
    /// weight is zero: an empty or weightless table cannot be sampled.
    pub fn pick_rand(&self, rng: &mut rand::rngs::StdRng) -> (out: Option<usize>)
        requires
            self.wf(),
        ensures
            (out is Some) <==> sum_weights(self.0@) > 0,
            match out {
                Some(i) => i < self.0@.len() && self.0@[i as int] > 0,
                None => true,
            },
    {
        let total: i32 = self.sum();
        if total <= 0 {
            return None;
        }
        let draw: i32 = gen_range_inclusive(rng, 1, total);
        proof {
            lemma_pick_in_range(self.0@, draw as int);
        }
        self.pick(draw)
    }
}

} // verus!
