//! The rule catalog: canonicalized local-adjacency facts and their queries.
//!
//! A [`Rule`] records that a center tile admits a particular oriented ring of
//! eight neighbors, with an integer score that weights the fact during
//! collapse. [`Rules`] keeps the facts sorted and deduplicated so that the
//! facts for one center form a single contiguous range, found by binary
//! search.

use vstd::prelude::*;
use crate::sorted::sorted;
use crate::sorted::sorted_contains;
use crate::tile::TileID;

verus! {

broadcast use vstd::array::group_array_axioms;

/// One canonicalized local-adjacency fact: a center tile, its eight
/// oriented neighbors in clockwise order starting at top-left, and an
/// integer score.
#[derive(Debug, Clone, Copy, PartialEq, Eq)]
pub struct Rule {
    pub center: TileID,
    pub around: [TileID; 8],
    pub score: i32,
}

/// How a row-major 3-by-3 pattern maps to a rule: the middle cell is the
/// center, and the eight border cells are reordered clockwise starting at
/// top-left.
pub open spec fn is_rule_of(r: Rule, p: [TileID; 9], s: i32) -> bool {
    &&& r.center == p[4]
    &&& r.around[0] == p[6]
    &&& r.around[1] == p[7]
    &&& r.around[2] == p[8]
    &&& r.around[3] == p[5]
    &&& r.around[4] == p[2]
    &&& r.around[5] == p[1]
    &&& r.around[6] == p[0]
    &&& r.around[7] == p[3]
    &&& r.score == s
}

/// The pattern-to-rule mapping pins every field, so it has one solution.
pub proof fn lemma_rule_of_unique(x: Rule, y: Rule, p: [TileID; 9], s: i32)
    requires
        is_rule_of(x, p, s),
        is_rule_of(y, p, s),
    ensures
        x == y,
{
    assert(x.around@ =~= y.around@);
    assert(x.around =~= y.around);
}

impl Rule {
    /// Builds the rule of a row-major 3-by-3 pattern and a score.
    pub fn new(pattern: [TileID; 9], score: i32) -> (out: Rule)
        ensures
            is_rule_of(out, pattern, score),
    {
        Rule {
            center: pattern[4],
            around: [
                pattern[6],
                pattern[7],
                pattern[8],
                pattern[5],
                pattern[2],
                pattern[1],
                pattern[0],
                pattern[3],
            ],
            score,
        }
    }
}

// ---------------------------------------------------------------------------
// Total order on rules: (center, around, score) lexicographically.
// ---------------------------------------------------------------------------

/// Lexicographic comparison of two neighbor rings, starting at position `i`.
pub open spec fn lex_lt_from(a: [TileID; 8], b: [TileID; 8], i: int) -> bool
    decreases 8 - i,
{
    if i < 0 || i >= 8 {
        false
    } else if a[i] < b[i] {
        true
    } else if a[i] > b[i] {
        false
    } else {
        lex_lt_from(a, b, i + 1)
    }
}

/// Skipping over an equal prefix does not change a lexicographic comparison.
pub proof fn lemma_lex_shift(a: [TileID; 8], b: [TileID; 8], k: int, i: int)
    requires
        0 <= k <= i <= 8,
        forall|j: int| k <= j < i ==> a[j] == b[j],
    ensures
        lex_lt_from(a, b, k) == lex_lt_from(a, b, i),
    decreases i - k,
{
    if k < i {
        lemma_lex_shift(a, b, k + 1, i);
    }
}

/// If neither ring compares below the other, they agree from `i` on.
pub proof fn lemma_lex_connected(a: [TileID; 8], b: [TileID; 8], i: int)
    requires
        0 <= i <= 8,
        !lex_lt_from(a, b, i),
        !lex_lt_from(b, a, i),
    ensures
        forall|j: int| i <= j < 8 ==> a[j] == b[j],
    decreases 8 - i,
{
    if i < 8 {
        lemma_lex_connected(a, b, i + 1);
    }
}

/// Lexicographic comparison is transitive.
pub proof fn lemma_lex_trans(a: [TileID; 8], b: [TileID; 8], c: [TileID; 8], i: int)
    requires
        0 <= i <= 8,
        lex_lt_from(a, b, i),
        lex_lt_from(b, c, i),
    ensures
        lex_lt_from(a, c, i),
    decreases 8 - i,
{
    if i < 8 {
        if a[i] == b[i] && b[i] == c[i] {
            lemma_lex_trans(a, b, c, i + 1);
        }
    }
}

/// No ring compares below itself.
pub proof fn lemma_lex_irrefl(a: [TileID; 8], i: int)
    requires
        0 <= i <= 8,
    ensures
        !lex_lt_from(a, a, i),
    decreases 8 - i,
{
    if i < 8 {
        lemma_lex_irrefl(a, i + 1);
    }
}

/// Strict total order on rules: by center, then by the neighbor ring
/// lexicographically, then by score.
pub open spec fn rule_lt(a: Rule, b: Rule) -> bool {
    ||| a.center < b.center
    ||| (a.center == b.center && lex_lt_from(a.around, b.around, 0))
    ||| (a.center == b.center && a.around@ == b.around@ && a.score < b.score)
}

/// The order on rules is irreflexive.
pub proof fn lemma_rule_lt_irrefl(a: Rule)
    ensures
        !rule_lt(a, a),
{
    lemma_lex_irrefl(a.around, 0);
}

/// The order on rules is transitive.
pub proof fn lemma_rule_lt_trans(a: Rule, b: Rule, c: Rule)
    requires
        rule_lt(a, b),
        rule_lt(b, c),
    ensures
        rule_lt(a, c),
{
    if a.center == b.center && b.center == c.center {
        if lex_lt_from(a.around, b.around, 0) {
            if lex_lt_from(b.around, c.around, 0) {
                lemma_lex_trans(a.around, b.around, c.around, 0);
            } else {
                assert(b.around@ == c.around@);
                assert(b.around =~= c.around);
            }
        } else {
            assert(a.around@ == b.around@);
            assert(a.around =~= b.around);
        }
    }
}

/// Two rules that neither order below the other are equal.
pub proof fn lemma_rule_lt_connected(a: Rule, b: Rule)
    requires
        !rule_lt(a, b),
        !rule_lt(b, a),
    ensures
        a == b,
{
    assert(a.center == b.center);
    lemma_lex_connected(a.around, b.around, 0);
    assert(a.around@ =~= b.around@);
    assert(a.around =~= b.around);
}

/// Decides the order on rules.
pub fn rule_lt_exec(a: &Rule, b: &Rule) -> (below: bool)
    ensures
        below == rule_lt(*a, *b),
{
    if a.center < b.center {
        return true;
    }
    if b.center < a.center {
        return false;
    }
    let mut i: usize = 0;
    while i < 8
        invariant
            i <= 8,
            a.center == b.center,
            forall|j: int| 0 <= j < i ==> a.around[j] == b.around[j],
        decreases 8 - i,
    {
        let x: u16 = a.around[i];
        let y: u16 = b.around[i];
        proof {
            lemma_lex_shift(a.around, b.around, 0, i as int);
        }
        if x < y {
            return true;
        }
        if y < x {
            return false;
        }
        i += 1;
    }
    proof {
        lemma_lex_shift(a.around, b.around, 0, 8);
        assert(a.around@ =~= b.around@);
    }
    a.score < b.score
}

/// Decides equality of rules.
pub fn rule_eq_exec(a: &Rule, b: &Rule) -> (same: bool)
    ensures
        same == (*a == *b),
{
    if a.center != b.center {
        return false;
    }
    if a.score != b.score {
        return false;
    }
    let mut i: usize = 0;
    while i < 8
        invariant
            i <= 8,
            a.center == b.center,
            a.score == b.score,
            forall|j: int| 0 <= j < i ==> a.around[j] == b.around[j],
        decreases 8 - i,
    {
        if a.around[i] != b.around[i] {
            proof {
                assert(a.around@[i as int] != b.around@[i as int]);
            }
            return false;
        }
        i += 1;
    }
    proof {
        assert(a.around@ =~= b.around@);
        assert(a.around =~= b.around);
    }
    true
}

// ---------------------------------------------------------------------------
// Rule matching against neighbor candidate lists.
// ---------------------------------------------------------------------------

/// The mathematical view of an array of eight neighbor candidate lists.
pub open spec fn nb_views(nbs: [&[TileID]; 8]) -> Seq<Seq<TileID>> {
    Seq::new(8, |d: int| nbs[d]@)
}

/// Every neighbor candidate list is sorted.
pub open spec fn nbs_sorted(nbv: Seq<Seq<TileID>>) -> bool {
    forall|d: int| 0 <= d < 8 ==> sorted(#[trigger] nbv[d])
}

/// One direction of a match: an empty neighbor list is no constraint, a
/// non-empty one must contain the rule's expected id for that direction.
pub open spec fn dir_ok(r: Rule, nbv: Seq<Seq<TileID>>, d: int) -> bool {
    nbv[d].len() == 0 || nbv[d].contains(r.around[d])
}

/// A rule matches when every one of the eight directions is satisfied.
pub open spec fn rule_matches(r: Rule, nbv: Seq<Seq<TileID>>) -> bool {
    forall|d: int| 0 <= d < 8 ==> dir_ok(r, nbv, d)
}

/// The score a rule contributes: its score when it matches, zero otherwise.
pub open spec fn spec_score_eval(r: Rule, nbv: Seq<Seq<TileID>>) -> int {
    if rule_matches(r, nbv) {
        r.score as int
    } else {
        0
    }
}

impl Rule {
    /// Whether this rule matches the eight neighbor candidate lists.
    pub fn eval(&self, neighbors: &[&[TileID]; 8]) -> (matched: bool)
        requires
            nbs_sorted(nb_views(*neighbors)),
        ensures
            matched == rule_matches(*self, nb_views(*neighbors)),
    {
        let mut d: usize = 0;
        while d < 8
            invariant
                d <= 8,
                nbs_sorted(nb_views(*neighbors)),
                forall|e: int| 0 <= e < d ==> dir_ok(*self, nb_views(*neighbors), e),
            decreases 8 - d,
        {
            let opts: &[TileID] = neighbors[d];
            proof {
                assert(opts@ == nb_views(*neighbors)[d as int]);
            }
            if opts.len() > 0 {
                if !sorted_contains(opts, self.around[d]) {
                    proof {
                        assert(!dir_ok(*self, nb_views(*neighbors), d as int));
                    }
                    return false;
                }
            }
            d += 1;
        }
        true
    }

    /// The score this rule contributes against the given neighbors.
    pub fn score_eval(&self, neighbors: &[&[TileID]; 8]) -> (contribution: i32)
        requires
            nbs_sorted(nb_views(*neighbors)),
        ensures
            contribution as int == spec_score_eval(*self, nb_views(*neighbors)),
    {
        if self.eval(neighbors) {
            self.score
        } else {
            0
        }
    }
}

// ---------------------------------------------------------------------------
// Sums of scores.
// ---------------------------------------------------------------------------

/// No rule in the sequence carries a negative score.
pub open spec fn scores_nonneg(rs: Seq<Rule>) -> bool {
    forall|i: int| 0 <= i < rs.len() ==> (#[trigger] rs[i]).score >= 0
}

/// The total score of a sequence of rules.
pub open spec fn sum_scores(rs: Seq<Rule>) -> int
    decreases rs.len(),
{
    if rs.len() == 0 {
        0
    } else {
        sum_scores(rs.drop_last()) + rs.last().score
    }
}

/// The total score of the matching rules only.
pub open spec fn sum_matched(rs: Seq<Rule>, nbv: Seq<Seq<TileID>>) -> int
    decreases rs.len(),
{
    if rs.len() == 0 {
        0
    } else {
        sum_matched(rs.drop_last(), nbv) + spec_score_eval(rs.last(), nbv)
    }
}

/// Score totals split over concatenation.
pub proof fn lemma_sum_scores_concat(a: Seq<Rule>, b: Seq<Rule>)
    ensures
        sum_scores(a + b) == sum_scores(a) + sum_scores(b),
    decreases b.len(),
{
    if b.len() == 0 {
        assert(a + b =~= a);
    } else {
        Seq::drop_last_distributes_over_add(a, b);
        lemma_sum_scores_concat(a, b.drop_last());
    }
}

/// With no negative scores the total is non-negative.
pub proof fn lemma_sum_scores_nonneg(rs: Seq<Rule>)
    requires
        scores_nonneg(rs),
    ensures
        sum_scores(rs) >= 0,
    decreases rs.len(),
{
    if rs.len() > 0 {
        lemma_sum_scores_nonneg(rs.drop_last());
    }
}

/// With no negative scores, a prefix total is at most the whole total.
pub proof fn lemma_sum_scores_take_le(rs: Seq<Rule>, j: int)
    requires
        scores_nonneg(rs),
        0 <= j <= rs.len(),
    ensures
        0 <= sum_scores(rs.take(j)) <= sum_scores(rs),
{
    assert(rs =~= rs.take(j) + rs.skip(j));
    lemma_sum_scores_concat(rs.take(j), rs.skip(j));
    lemma_sum_scores_nonneg(rs.take(j));
    lemma_sum_scores_nonneg(rs.skip(j));
}

/// With no negative scores, prefix totals grow with the prefix.
pub proof fn lemma_sum_scores_take_mono(rs: Seq<Rule>, j1: int, j2: int)
    requires
        scores_nonneg(rs),
        0 <= j1 <= j2 <= rs.len(),
    ensures
        sum_scores(rs.take(j1)) <= sum_scores(rs.take(j2)),
{
    assert(rs.take(j2) =~= rs.take(j1) + rs.subrange(j1, j2));
    lemma_sum_scores_concat(rs.take(j1), rs.subrange(j1, j2));
    lemma_sum_scores_nonneg(rs.subrange(j1, j2));
}

/// Inserting a rule adds its score to the total.
pub proof fn lemma_sum_scores_insert(s: Seq<Rule>, j: int, r: Rule)
    requires
        0 <= j <= s.len(),
    ensures
        sum_scores(s.insert(j, r)) == sum_scores(s) + r.score,
{
    let a = s.subrange(0, j);
    let b = s.subrange(j, s.len() as int);
    lemma_sum_scores_concat(a.push(r), b);
    assert(a.push(r).drop_last() =~= a);
    assert(s =~= a + b);
    lemma_sum_scores_concat(a, b);
}

/// The matched total lies between zero and the full total.
pub proof fn lemma_sum_matched_bounds(rs: Seq<Rule>, nbv: Seq<Seq<TileID>>)
    requires
        scores_nonneg(rs),
    ensures
        0 <= sum_matched(rs, nbv) <= sum_scores(rs),
    decreases rs.len(),
{
    if rs.len() > 0 {
        lemma_sum_matched_bounds(rs.drop_last(), nbv);
    }
}

/// Sums the scores of every rule in the slice that matches the neighbors.
/// This and per-rule evaluation agree by construction: the result is exactly
/// the sum of `score_eval` over the slice.
pub fn score_rules(rules: &[Rule], neighbors: &[&[TileID]; 8]) -> (total: i32)
    requires
        scores_nonneg(rules@),
        sum_scores(rules@) <= i32::MAX,
        nbs_sorted(nb_views(*neighbors)),
    ensures
        total as int == sum_matched(rules@, nb_views(*neighbors)),
{
    let ghost nbv = nb_views(*neighbors);
    let mut total: i32 = 0;
    let mut k: usize = 0;
    while k < rules.len()
        invariant
            k <= rules@.len(),
            scores_nonneg(rules@),
            sum_scores(rules@) <= i32::MAX,
            nbs_sorted(nbv),
            nbv == nb_views(*neighbors),
            total as int == sum_matched(rules@.take(k as int), nbv),
            0 <= total as int <= sum_scores(rules@.take(k as int)),
        decreases rules@.len() - k,
    {
        let r: &Rule = &rules[k];
        let s: i32 = r.score_eval(neighbors);
        proof {
            let pre = rules@.take(k as int);
            let cur = rules@.take(k + 1 as int);
            assert(cur.drop_last() =~= pre);
            assert(cur.last() == rules@[k as int]);
            lemma_sum_matched_bounds(cur, nbv);
            lemma_sum_scores_take_le(rules@, k + 1 as int);
        }
        total = total + s;
        k += 1;
    }
    proof {
        assert(rules@.take(rules@.len() as int) =~= rules@);
    }
    total
}

} // verus!

verus! {

// ---------------------------------------------------------------------------
// The sorted catalog.
// ---------------------------------------------------------------------------

/// Rejected rule input: a pattern uses the void tile `0` as its center, a
/// score is negative, or the listing is too large for 32-bit score totals.
#[derive(Debug, Clone, Copy, PartialEq, Eq)]
pub struct MalformedRuleError;

/// A pattern is acceptable when its center is a real tile and its score is
/// not negative.
pub open spec fn valid_pattern(p: [TileID; 9], s: i32) -> bool {
    p[4] != 0 && s >= 0
}

/// The total score of a pattern listing.
pub open spec fn sum_pattern_scores(ps: Seq<([TileID; 9], i32)>) -> int
    decreases ps.len(),
{
    if ps.len() == 0 {
        0
    } else {
        sum_pattern_scores(ps.drop_last()) + ps.last().1
    }
}

/// A pattern listing is acceptable when every pattern is, and its size and
/// total score fit an `i32`.
pub open spec fn patterns_ok(ps: Seq<([TileID; 9], i32)>) -> bool {
    &&& forall|i: int| 0 <= i < ps.len() ==> valid_pattern((#[trigger] ps[i]).0, ps[i].1)
    &&& ps.len() <= i32::MAX
    &&& sum_pattern_scores(ps) <= i32::MAX
}

/// With no negative scores, a prefix total of a pattern listing is at most
/// the whole total.
proof fn lemma_sum_pattern_take_le(ps: Seq<([TileID; 9], i32)>, j: int)
    requires
        forall|i: int| 0 <= i < ps.len() ==> (#[trigger] ps[i]).1 >= 0,
        0 <= j <= ps.len(),
    ensures
        sum_pattern_scores(ps.take(j)) <= sum_pattern_scores(ps),
    decreases ps.len(),
{
    if j < ps.len() {
        assert(ps.drop_last().take(j) =~= ps.take(j));
        lemma_sum_pattern_take_le(ps.drop_last(), j);
    } else {
        assert(ps.take(j) =~= ps);
    }
}

/// The rules stand in strictly increasing order, so each appears once.
pub open spec fn rules_sorted(rs: Seq<Rule>) -> bool {
    forall|i: int, j: int| 0 <= i < j < rs.len() ==> #[trigger] rule_lt(rs[i], rs[j])
}

/// The rules whose center is `c`, in catalog order.
pub open spec fn rules_with_center(rs: Seq<Rule>, c: TileID) -> Seq<Rule> {
    rs.filter(|r: Rule| r.center == c)
}

/// Inserting into a sequence adds exactly one membership.
proof fn lemma_insert_contains<A>(s: Seq<A>, j: int, a: A)
    requires
        0 <= j <= s.len(),
    ensures
        forall|x: A| s.insert(j, a).contains(x) <==> (s.contains(x) || x == a),
{
    s.insert_ensures(j, a);
    assert forall|x: A| s.insert(j, a).contains(x) implies (s.contains(x) || x == a) by {
        let i = choose|i: int| 0 <= i < s.insert(j, a).len() && s.insert(j, a)[i] == x;
        if i < j {
            assert(s[i] == x);
        } else if i > j {
            assert(s.insert(j, a)[(i - 1) + 1] == s[i - 1]);
            assert(s[i - 1] == x);
        }
    }
    assert forall|x: A| (s.contains(x) || x == a) implies s.insert(j, a).contains(x) by {
        if x == a {
            assert(s.insert(j, a)[j] == x);
        } else {
            let i = choose|i: int| 0 <= i < s.len() && s[i] == x;
            if i < j {
                assert(s.insert(j, a)[i] == x);
            } else {
                assert(s.insert(j, a)[i + 1] == x);
            }
        }
    }
}

/// When a predicate holds exactly on the index range `[lo, hi)`, filtering
/// by it yields that sub-range.
proof fn lemma_filter_eq_subrange<A>(s: Seq<A>, pred: spec_fn(A) -> bool, lo: int, hi: int)
    requires
        0 <= lo <= hi <= s.len(),
        forall|i: int| 0 <= i < s.len() ==> (pred(#[trigger] s[i]) <==> lo <= i < hi),
    ensures
        s.filter(pred) == s.subrange(lo, hi),
    decreases s.len(),
{
    reveal(Seq::filter);
    if s.len() == 0 {
        assert(s.filter(pred) =~= s.subrange(lo, hi));
    } else {
        let pre = s.drop_last();
        let n = s.len() - 1;
        if pred(s.last()) {
            assert(lo <= n < hi);
            assert(hi == s.len());
            lemma_filter_eq_subrange(pre, pred, lo, n);
            assert(s.filter(pred) =~= s.subrange(lo, hi));
        } else {
            if hi <= n {
                lemma_filter_eq_subrange(pre, pred, lo, hi);
                assert(s.filter(pred) =~= s.subrange(lo, hi));
            } else {
                assert(lo == hi);
                let cap = if lo <= n { lo } else { n };
                lemma_filter_eq_subrange(pre, pred, cap, cap);
                assert(s.filter(pred) =~= s.subrange(lo, hi));
            }
        }
    }
}

/// An immutable catalog of rules, sorted by `(center, around, score)` and
/// deduplicated, so that all rules sharing a center are contiguous.
#[derive(Debug, Clone)]
pub struct Rules(pub Vec<Rule>);

impl Rules {
    /// The catalog invariant: strictly sorted (hence duplicate-free), no
    /// void centers, no negative scores, and totals that fit an `i32`.
    pub open spec fn wf(&self) -> bool {
        &&& rules_sorted(self.0@)
        &&& forall|i: int| 0 <= i < self.0@.len() ==> (#[trigger] self.0@[i]).center != 0
        &&& scores_nonneg(self.0@)
        &&& sum_scores(self.0@) <= i32::MAX
        &&& self.0@.len() <= i32::MAX
    }
}

/// Where `r` belongs in the sorted list `list`: the count of entries below
/// it, and whether it is already present there.
fn find_insert(list: &Vec<Rule>, r: &Rule) -> (found: (usize, bool))
    requires
        rules_sorted(list@),
    ensures
        ({
            let (j, dup) = found;
            &&& j <= list@.len()
            &&& forall|i: int| 0 <= i < j ==> rule_lt(#[trigger] list@[i], *r)
            &&& (dup <==> list@.contains(*r))
            &&& (dup ==> j < list@.len() && list@[j as int] == *r)
            &&& (!dup && j < list@.len() ==> rule_lt(*r, list@[j as int]))
        }),
{
    let mut j: usize = 0;
    while j < list.len()
        invariant
            j <= list@.len(),
            rules_sorted(list@),
            forall|i: int| 0 <= i < j ==> rule_lt(#[trigger] list@[i], *r),
        decreases list@.len() - j,
    {
        let cur: Rule = list[j];
        if rule_eq_exec(&cur, r) {
            proof {
                assert(list@[j as int] == *r);
            }
            return (j, true);
        }
        if !rule_lt_exec(&cur, r) {
            proof {
                if !rule_lt(*r, cur) {
                    lemma_rule_lt_connected(cur, *r);
                }
                assert(rule_lt(*r, cur));
                assert(!list@.contains(*r)) by {
                    if list@.contains(*r) {
                        let i = choose|i: int| 0 <= i < list@.len() && list@[i] == *r;
                        if i < j {
                            assert(rule_lt(list@[i], *r));
                            lemma_rule_lt_irrefl(*r);
                        } else if i == j {
                            lemma_rule_lt_irrefl(*r);
                        } else {
                            assert(rule_lt(list@[j as int], list@[i]));
                            lemma_rule_lt_trans(*r, list@[j as int], list@[i]);
                            lemma_rule_lt_irrefl(*r);
                        }
                    }
                }
            }
            return (j, false);
        }
        j += 1;
    }
    proof {
        assert(!list@.contains(*r)) by {
            if list@.contains(*r) {
                let i = choose|i: int| 0 <= i < list@.len() && list@[i] == *r;
                assert(rule_lt(list@[i], *r));
                lemma_rule_lt_irrefl(*r);
            }
        }
    }
    (j, false)
}

} // verus!

verus! {

/// The first position whose rule's center is at least `c`.
pub open spec fn first_with_center_ge(rs: Seq<Rule>, c: TileID) -> int
    decreases rs.len(),
{
    if rs.len() == 0 {
        0
    } else if rs[0].center >= c {
        0
    } else {
        1 + first_with_center_ge(rs.drop_first(), c)
    }
}

/// The first position whose rule's center is above `c`.
pub open spec fn first_with_center_gt(rs: Seq<Rule>, c: TileID) -> int
    decreases rs.len(),
{
    if rs.len() == 0 {
        0
    } else if rs[0].center > c {
        0
    } else {
        1 + first_with_center_gt(rs.drop_first(), c)
    }
}

/// What the lower split position means.
pub proof fn lemma_first_with_center_ge(rs: Seq<Rule>, c: TileID)
    ensures
        0 <= first_with_center_ge(rs, c) <= rs.len(),
        forall|i: int| 0 <= i < first_with_center_ge(rs, c) ==> (#[trigger] rs[i]).center < c,
        first_with_center_ge(rs, c) < rs.len() ==> rs[first_with_center_ge(rs, c)].center >= c,
    decreases rs.len(),
{
    if rs.len() > 0 && rs[0].center < c {
        lemma_first_with_center_ge(rs.drop_first(), c);
        assert forall|i: int| 0 <= i < first_with_center_ge(rs, c) implies (#[trigger] rs[i]).center
            < c by {
            if i > 0 {
                assert(rs.drop_first()[i - 1] == rs[i]);
            }
        }
    }
}

/// What the upper split position means.
pub proof fn lemma_first_with_center_gt(rs: Seq<Rule>, c: TileID)
    ensures
        0 <= first_with_center_gt(rs, c) <= rs.len(),
        forall|i: int| 0 <= i < first_with_center_gt(rs, c) ==> (#[trigger] rs[i]).center <= c,
        first_with_center_gt(rs, c) < rs.len() ==> rs[first_with_center_gt(rs, c)].center > c,
    decreases rs.len(),
{
    if rs.len() > 0 && rs[0].center <= c {
        lemma_first_with_center_gt(rs.drop_first(), c);
        assert forall|i: int| 0 <= i < first_with_center_gt(rs, c) implies (#[trigger] rs[i]).center
            <= c by {
            if i > 0 {
                assert(rs.drop_first()[i - 1] == rs[i]);
            }
        }
    }
}

/// With no negative scores, the total over a sub-range is at most the whole
/// total.
pub proof fn lemma_sum_scores_subrange_le(rs: Seq<Rule>, lo: int, hi: int)
    requires
        scores_nonneg(rs),
        0 <= lo <= hi <= rs.len(),
    ensures
        0 <= sum_scores(rs.subrange(lo, hi)) <= sum_scores(rs),
{
    assert(rs =~= rs.take(lo) + rs.subrange(lo, hi) + rs.skip(hi));
    lemma_sum_scores_concat(rs.take(lo) + rs.subrange(lo, hi), rs.skip(hi));
    lemma_sum_scores_concat(rs.take(lo), rs.subrange(lo, hi));
    lemma_sum_scores_nonneg(rs.take(lo));
    lemma_sum_scores_nonneg(rs.skip(hi));
    lemma_sum_scores_nonneg(rs.subrange(lo, hi));
}

impl Rules {
    /// Builds the catalog from row-major `(pattern, score)` pairs:
    /// canonicalizes each pattern into a rule, sorts, and deduplicates.
    /// A listing is rejected exactly when some pattern centers on the void
    /// tile `0`, some score is negative, or the listing's length or total
    /// score does not fit an `i32`; otherwise the catalog holds exactly the
    /// rules of the listing.
    pub fn new(patterns: &Vec<([TileID; 9], i32)>) -> (out: Result<Rules, MalformedRuleError>)
        ensures
            match out {
                Ok(rs) => {
                    &&& patterns_ok(patterns@)
                    &&& rs.wf()
                    &&& forall|r: Rule|
                        rs.0@.contains(r) <==> (exists|i: int|
                            0 <= i < patterns@.len() && is_rule_of(
                                r,
                                (#[trigger] patterns@[i]).0,
                                patterns@[i].1,
                            ))
                },
                Err(_) => !patterns_ok(patterns@),
            },
    {
        let ghost ps = patterns@;
        if patterns.len() > (i32::MAX as usize) {
            return Err(MalformedRuleError);
        }
        let mut acc: i64 = 0;
        let mut k: usize = 0;
        while k < patterns.len()
            invariant
                k <= ps.len(),
                ps == patterns@,
                acc == sum_pattern_scores(ps.take(k as int)),
                acc <= i32::MAX,
                forall|i: int|
                    0 <= i < k ==> valid_pattern((#[trigger] ps[i]).0, ps[i].1),
            decreases ps.len() - k,
        {
            let pr: ([TileID; 9], i32) = patterns[k];
            let p: [TileID; 9] = pr.0;
            proof {
                assert(ps.take(k as int + 1).drop_last() =~= ps.take(k as int));
                assert(ps.take(k as int + 1).last() == ps[k as int]);
            }
            if p[4] == 0 {
                return Err(MalformedRuleError);
            }
            if pr.1 < 0 {
                return Err(MalformedRuleError);
            }
            acc = acc + (pr.1 as i64);
            if acc > (i32::MAX as i64) {
                proof {
                    if patterns_ok(ps) {
                        assert(forall|i: int| 0 <= i < ps.len() ==> (#[trigger] ps[i]).1 >= 0);
                        lemma_sum_pattern_take_le(ps, k as int + 1);
                    }
                }
                return Err(MalformedRuleError);
            }
            k += 1;
        }
        proof {
            assert(ps.take(ps.len() as int) =~= ps);
            assert(patterns_ok(ps));
        }
        let mut list: Vec<Rule> = Vec::new();
        let mut b: usize = 0;
        while b < patterns.len()
            invariant
                b <= ps.len(),
                ps == patterns@,
                patterns_ok(ps),
                rules_sorted(list@),
                forall|i: int| 0 <= i < list@.len() ==> (#[trigger] list@[i]).center != 0,
                scores_nonneg(list@),
                sum_scores(list@) <= sum_pattern_scores(ps.take(b as int)),
                list@.len() <= b,
                forall|r: Rule|
                    list@.contains(r) <==> (exists|i: int|
                        0 <= i < b && is_rule_of(r, (#[trigger] ps[i]).0, ps[i].1)),
            decreases ps.len() - b,
        {
            let pr: ([TileID; 9], i32) = patterns[b];
            let r: Rule = Rule::new(pr.0, pr.1);
            let ghost pre_list = list@;
            let ghost bi = b as int;
            proof {
                assert(valid_pattern(ps[bi].0, ps[bi].1));
                assert(ps.take(bi + 1).drop_last() =~= ps.take(bi));
                assert(ps.take(bi + 1).last() == ps[bi]);
            }
            let (j, dup) = find_insert(&list, &r);
            let ghost jj = j as int;
            if !dup {
                list.insert(j, r);
                proof {
                    pre_list.insert_ensures(jj, r);
                    lemma_insert_contains(pre_list, jj, r);
                    lemma_sum_scores_insert(pre_list, jj, r);
                    assert(list@ == pre_list.insert(jj, r));
                    assert forall|x: int, y: int| 0 <= x < y < list@.len() implies rule_lt(
                        #[trigger] list@[x],
                        #[trigger] list@[y],
                    ) by {
                        if y < jj {
                            assert(rule_lt(pre_list[x], pre_list[y]));
                        } else if y == jj {
                            assert(list@[y] == r);
                            assert(list@[x] == pre_list[x]);
                            assert(rule_lt(pre_list[x], r));
                        } else {
                            assert(list@[y] == pre_list.insert(jj, r)[(y - 1) + 1]);
                            assert(list@[y] == pre_list[y - 1]);
                            assert(jj <= y - 1 < pre_list.len());
                            if x < jj {
                                assert(list@[x] == pre_list[x]);
                                assert(x < y - 1);
                                assert(rule_lt(pre_list[x], pre_list[y - 1]));
                            } else if x == jj {
                                assert(list@[x] == r);
                                assert(rule_lt(r, pre_list[jj]));
                                if y - 1 > jj {
                                    assert(rule_lt(pre_list[jj], pre_list[y - 1]));
                                    lemma_rule_lt_trans(r, pre_list[jj], pre_list[y - 1]);
                                }
                            } else {
                                assert(list@[x] == pre_list.insert(jj, r)[(x - 1) + 1]);
                                assert(list@[x] == pre_list[x - 1]);
                                assert(rule_lt(pre_list[x - 1], pre_list[y - 1]));
                            }
                        }
                    }
                    assert forall|i: int| 0 <= i < list@.len() implies (#[trigger] list@[i]).center
                        != 0 && list@[i].score >= 0 by {
                        if i < jj {
                            assert(list@[i] == pre_list[i]);
                        } else if i > jj {
                            assert(list@[i] == pre_list.insert(jj, r)[(i - 1) + 1]);
                            assert(list@[i] == pre_list[i - 1]);
                        }
                    }
                }
            }
            proof {
                assert forall|x: Rule| #[trigger] list@.contains(x) implies (exists|i: int|
                    0 <= i < bi + 1 && is_rule_of(x, (#[trigger] ps[i]).0, ps[i].1)) by {
                    if pre_list.contains(x) {
                        let i = choose|i: int|
                            0 <= i < bi && is_rule_of(x, (#[trigger] ps[i]).0, ps[i].1);
                        assert(0 <= i < bi + 1 && is_rule_of(x, ps[i].0, ps[i].1));
                    } else {
                        assert(x == r);
                        assert(is_rule_of(x, ps[bi].0, ps[bi].1));
                    }
                }
                assert forall|x: Rule, i: int|
                    0 <= i < bi + 1 && #[trigger] is_rule_of(x, ps[i].0, ps[i].1) implies list@
                    .contains(x) by {
                    if i < bi {
                        assert(pre_list.contains(x));
                        if !dup {
                            lemma_insert_contains(pre_list, jj, r);
                        }
                    } else {
                        lemma_rule_of_unique(x, r, ps[bi].0, ps[bi].1);
                        if dup {
                            assert(pre_list.contains(x));
                        } else {
                            lemma_insert_contains(pre_list, jj, r);
                        }
                    }
                }
                if dup {
                    assert(sum_scores(list@) <= sum_pattern_scores(ps.take(bi)));
                    assert(sum_pattern_scores(ps.take(bi + 1)) == sum_pattern_scores(ps.take(bi))
                        + ps[bi].1);
                    assert(ps[bi].1 >= 0);
                }
            }
            b += 1;
        }
        proof {
            assert(ps.take(ps.len() as int) =~= ps);
        }
        Ok(Rules(list))
    }

    /// The contiguous range of rules whose center is `center`, found by two
    /// binary searches; empty when no rule has that center. The range is
    /// exactly the rules of that center, in catalog order.
    pub fn rules_for(&self, center: TileID) -> (out: &[Rule])
        requires
            self.wf(),
        ensures
            out@ == self.0@.subrange(
                first_with_center_ge(self.0@, center),
                first_with_center_gt(self.0@, center),
            ),
            out@ == rules_with_center(self.0@, center),
            forall|i: int| 0 <= i < out@.len() ==> (#[trigger] out@[i]).center == center,
    {
        let ghost rs = self.0@;
        proof {
            assert forall|i: int, j: int| 0 <= i < j < rs.len() implies (#[trigger] rs[i]).center
                <= (#[trigger] rs[j]).center by {
                assert(rule_lt(rs[i], rs[j]));
            }
        }
        let n: usize = self.0.len();
        let mut lo: usize = 0;
        let mut hi: usize = n;
        while lo < hi
            invariant
                lo <= hi <= n,
                n == rs.len(),
                rs == self.0@,
                forall|i: int, j: int|
                    0 <= i < j < rs.len() ==> (#[trigger] rs[i]).center <= (#[trigger] rs[j]).center,
                forall|i: int| 0 <= i < lo ==> (#[trigger] rs[i]).center < center,
                forall|i: int| hi <= i < rs.len() ==> (#[trigger] rs[i]).center >= center,
            decreases hi - lo,
        {
            let mid: usize = lo + (hi - lo) / 2;
            if self.0[mid].center < center {
                lo = mid + 1;
            } else {
                hi = mid;
            }
        }
        let start: usize = lo;
        let mut lo2: usize = start;
        let mut hi2: usize = n;
        while lo2 < hi2
            invariant
                start <= lo2 <= hi2 <= n,
                n == rs.len(),
                rs == self.0@,
                forall|i: int, j: int|
                    0 <= i < j < rs.len() ==> (#[trigger] rs[i]).center <= (#[trigger] rs[j]).center,
                forall|i: int| 0 <= i < lo2 ==> (#[trigger] rs[i]).center <= center,
                forall|i: int| hi2 <= i < rs.len() ==> (#[trigger] rs[i]).center > center,
            decreases hi2 - lo2,
        {
            let mid: usize = lo2 + (hi2 - lo2) / 2;
            if self.0[mid].center <= center {
                lo2 = mid + 1;
            } else {
                hi2 = mid;
            }
        }
        let end: usize = lo2;
        proof {
            lemma_first_with_center_ge(rs, center);
            lemma_first_with_center_gt(rs, center);
            let fge = first_with_center_ge(rs, center);
            let fgt = first_with_center_gt(rs, center);
            assert(start as int == fge) by {
                if (start as int) < fge {
                    assert(rs[start as int].center < center);
                    assert(rs[start as int].center >= center);
                } else if fge < start as int {
                    assert(rs[fge].center < center);
                    assert(rs[fge].center >= center);
                }
            }
            assert(end as int == fgt) by {
                if (end as int) < fgt {
                    assert(rs[end as int].center <= center);
                    assert(rs[end as int].center > center);
                } else if fgt < end as int {
                    assert(rs[fgt].center <= center);
                    assert(rs[fgt].center > center);
                }
            }
        }
        let out: &[Rule] = vstd::slice::slice_subrange(self.0.as_slice(), start, end);
        proof {
            assert forall|i: int| 0 <= i < rs.len() implies ((#[trigger] rs[i]).center == center
                <==> start as int <= i < end as int) by {}
            lemma_filter_eq_subrange(
                rs,
                |r: Rule| r.center == center,
                start as int,
                end as int,
            );
        }
        out
    }

    /// Bulk scoring: for each center in turn, the total score of its
    /// matching rules against the same eight neighbor lists.
    pub fn score(&self, centers: &[TileID], neighbors: &[&[TileID]; 8]) -> (totals: Vec<i32>)
        requires
            self.wf(),
            nbs_sorted(nb_views(*neighbors)),
        ensures
            totals@.len() == centers@.len(),
            forall|i: int|
                0 <= i < centers@.len() ==> (#[trigger] totals@[i]) as int == sum_matched(
                    rules_with_center(self.0@, centers@[i]),
                    nb_views(*neighbors),
                ),
    {
        let mut totals: Vec<i32> = Vec::new();
        let mut i: usize = 0;
        while i < centers.len()
            invariant
                i <= centers@.len(),
                self.wf(),
                nbs_sorted(nb_views(*neighbors)),
                totals@.len() == i,
                forall|k: int|
                    0 <= k < i ==> (#[trigger] totals@[k]) as int == sum_matched(
                        rules_with_center(self.0@, centers@[k]),
                        nb_views(*neighbors),
                    ),
            decreases centers@.len() - i,
        {
            let c: TileID = centers[i];
            let sub: &[Rule] = self.rules_for(c);
            proof {
                lemma_first_with_center_ge(self.0@, c);
                lemma_first_with_center_gt(self.0@, c);
                assert forall|k: int| 0 <= k < sub@.len() implies (#[trigger] sub@[k]).score
                    >= 0 by {
                    assert(sub@[k] == self.0@[first_with_center_ge(self.0@, c) + k]);
                }
                lemma_sum_scores_subrange_le(
                    self.0@,
                    first_with_center_ge(self.0@, c),
                    first_with_center_gt(self.0@, c),
                );
            }
            let t: i32 = score_rules(sub, neighbors);
            totals.push(t);
            i += 1;
        }
        totals
    }
}

} // verus!
