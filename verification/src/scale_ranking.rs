use vstd::prelude::*;

use crate::scale_candidates::{
    is_common, is_common_scale, pair_root, pair_scale, pitch_set_of, scale_pitch_set, tallies_shape,
    ScaleAlternate, ScaleCandidate, ScaleCandidates, ScaleTallies,
};
use crate::scale_constants::{scale_intervals, NOTE_NAMES, SCALE_NAMES};
use crate::text::{lemma_lex_less_order, lex_less, str_eq, str_less};
use crate::xml::idx_view;

verus! {

// ---------------------------------------------------------------------------
// Orders
// ---------------------------------------------------------------------------

/// `r` is a strict total order on the integers.
pub open spec fn strict_total(r: spec_fn(int, int) -> bool) -> bool {
    &&& forall|a: int| !#[trigger] r(a, a)
    &&& forall|a: int, b: int, c: int| #[trigger] r(a, b) && #[trigger] r(b, c) ==> r(a, c)
    &&& forall|a: int, b: int| a != b ==> #[trigger] r(a, b) || #[trigger] r(b, a)
}

/// Every earlier entry of `s` comes before every later one under `r`.
pub open spec fn sorted_by(s: Seq<int>, r: spec_fn(int, int) -> bool) -> bool {
    forall|i: int, j: int| 0 <= i < j < s.len() ==> #[trigger] r(s[i], s[j])
}

/// The name of pair `k`'s root note.
pub open spec fn pair_root_name(k: int) -> Seq<char> {
    NOTE_NAMES@[pair_root(k)]@
}

/// The name of pair `k`'s scale.
pub open spec fn pair_scale_name(k: int) -> Seq<char> {
    SCALE_NAMES@[pair_scale(k)]@
}

/// Pair `k` matched at least one clip.
pub open spec fn present(t: ScaleTallies, k: int) -> bool {
    t.clip_count@[k] > 0
}

/// Pairs `a` and `b` hold the same absolute pitch classes (relative modes
/// of one collection, which no pitch content can tell apart).
pub open spec fn same_notes(a: int, b: int) -> bool {
    scale_pitch_set(pair_root(a), pair_scale(a)) == scale_pitch_set(pair_root(b), pair_scale(b))
}

/// Among pairs with the same notes, `a` is the likelier tonic than `b`: its
/// root's pitch class carries more notes in the project (`hist`), then its
/// root name sorts first, then (never needed within one group) its index.
pub open spec fn tonic_before(hist: Seq<u32>, a: int, b: int) -> bool {
    let ha = hist[pair_root(a)];
    let hb = hist[pair_root(b)];
    ||| ha > hb
    ||| ha == hb && lex_less(pair_root_name(a), pair_root_name(b))
    ||| ha == hb && pair_root_name(a) == pair_root_name(b) && a < b
}

pub open spec fn tonic_order(hist: Seq<u32>) -> spec_fn(int, int) -> bool {
    |a: int, b: int| tonic_before(hist, a, b)
}

/// Candidate `a` ranks above candidate `b`: higher coverage, then higher
/// score, then root name, then scale name, then (never needed between
/// distinct groups) index.
pub open spec fn ranks_before(score: Seq<u32>, cov: Seq<u32>, a: int, b: int) -> bool {
    ||| cov[a] > cov[b]
    ||| cov[a] == cov[b] && score[a] > score[b]
    ||| cov[a] == cov[b] && score[a] == score[b] && lex_less(pair_root_name(a), pair_root_name(b))
    ||| cov[a] == cov[b] && score[a] == score[b] && pair_root_name(a) == pair_root_name(b)
        && lex_less(pair_scale_name(a), pair_scale_name(b))
    ||| cov[a] == cov[b] && score[a] == score[b] && pair_root_name(a) == pair_root_name(b)
        && pair_scale_name(a) == pair_scale_name(b) && a < b
}

pub open spec fn rank_order(score: Seq<u32>, cov: Seq<u32>) -> spec_fn(int, int) -> bool {
    |a: int, b: int| ranks_before(score, cov, a, b)
}

pub proof fn lemma_tonic_order_total(hist: Seq<u32>)
    ensures
        strict_total(tonic_order(hist)),
{
    let r = tonic_order(hist);
    assert forall|a: int| !#[trigger] r(a, a) by {
        lemma_lex_less_order(pair_root_name(a), pair_root_name(a), pair_root_name(a));
    }
    assert forall|a: int, b: int, c: int| #[trigger] r(a, b) && #[trigger] r(b, c) implies r(a, c) by {
        lemma_lex_less_order(pair_root_name(a), pair_root_name(b), pair_root_name(c));
    }
    assert forall|a: int, b: int| a != b implies #[trigger] r(a, b) || #[trigger] r(b, a) by {
        lemma_lex_less_order(pair_root_name(a), pair_root_name(b), pair_root_name(b));
    }
}

pub proof fn lemma_rank_order_total(score: Seq<u32>, cov: Seq<u32>)
    ensures
        strict_total(rank_order(score, cov)),
{
    let r = rank_order(score, cov);
    assert forall|a: int| !#[trigger] r(a, a) by {
        lemma_lex_less_order(pair_root_name(a), pair_root_name(a), pair_root_name(a));
        lemma_lex_less_order(pair_scale_name(a), pair_scale_name(a), pair_scale_name(a));
    }
    assert forall|a: int, b: int, c: int| #[trigger] r(a, b) && #[trigger] r(b, c) implies r(a, c) by {
        lemma_lex_less_order(pair_root_name(a), pair_root_name(b), pair_root_name(c));
        lemma_lex_less_order(pair_scale_name(a), pair_scale_name(b), pair_scale_name(c));
    }
    assert forall|a: int, b: int| a != b implies #[trigger] r(a, b) || #[trigger] r(b, a) by {
        lemma_lex_less_order(pair_root_name(a), pair_root_name(b), pair_root_name(b));
        lemma_lex_less_order(pair_scale_name(a), pair_scale_name(b), pair_scale_name(b));
    }
}

/// Inserting `x` where everything before it precedes it and everything
/// from there on follows it keeps a sequence sorted.
pub proof fn lemma_insert_sorted(s: Seq<int>, p: int, x: int, r: spec_fn(int, int) -> bool)
    requires
        strict_total(r),
        sorted_by(s, r),
        0 <= p <= s.len(),
        forall|j: int| 0 <= j < p ==> #[trigger] r(s[j], x),
        p < s.len() ==> r(x, s[p]),
    ensures
        sorted_by(s.insert(p, x), r),
{
    let t = s.insert(p, x);
    assert forall|j: int| p <= j < s.len() implies #[trigger] r(x, s[j]) by {
        if j > p {
            assert(r(s[p], s[j]));
        }
    }
    assert forall|i: int, j: int| 0 <= i < j < t.len() implies #[trigger] r(t[i], t[j]) by {
        if j < p {
            assert(t[i] == s[i] && t[j] == s[j]);
        } else if j == p {
            assert(t[i] == s[i]);
        } else if i < p {
            assert(t[i] == s[i] && t[j] == s[j - 1]);
            assert(r(s[i], x));
            assert(r(x, s[j - 1]));
        } else if i == p {
            assert(t[j] == s[j - 1]);
        } else {
            assert(t[i] == s[i - 1] && t[j] == s[j - 1]);
        }
    }
}


/// What `insert` holds: the old entries and the new one.
pub proof fn lemma_insert_contains(s: Seq<int>, p: int, x: int)
    requires
        0 <= p <= s.len(),
    ensures
        forall|y: int| #[trigger] s.insert(p, x).contains(y) <==> (s.contains(y) || y == x),
{
    let t = s.insert(p, x);
    assert forall|y: int| #[trigger] t.contains(y) <==> (s.contains(y) || y == x) by {
        if s.contains(y) {
            let j = choose|j: int| 0 <= j < s.len() && s[j] == y;
            if j < p {
                assert(t[j] == y);
            } else {
                assert(t[j + 1] == y);
            }
        }
        if y == x {
            assert(t[p] == y);
        }
        if t.contains(y) {
            let i = choose|i: int| 0 <= i < t.len() && t[i] == y;
            if i < p {
                assert(s[i] == y);
            } else if i > p {
                assert(s[i - 1] == y);
            }
        }
    }
}

// ---------------------------------------------------------------------------
// Executable comparisons
// ---------------------------------------------------------------------------

fn tonic_before_exec(hist: &Vec<u32>, a: usize, b: usize) -> (r: bool)
    requires
        hist@.len() == 12,
        a < 420,
        b < 420,
    ensures
        r == tonic_before(hist@, a as int, b as int),
{
    let ra = a / 35;
    let rb = b / 35;
    let ha = hist[ra];
    let hb = hist[rb];
    if ha != hb {
        return ha > hb;
    }
    if str_less(NOTE_NAMES[ra], NOTE_NAMES[rb]) {
        return true;
    }
    str_eq(NOTE_NAMES[ra], NOTE_NAMES[rb]) && a < b
}

fn ranks_before_exec(score: &Vec<u32>, cov: &Vec<u32>, a: usize, b: usize) -> (r: bool)
    requires
        score@.len() == 420,
        cov@.len() == 420,
        a < 420,
        b < 420,
    ensures
        r == ranks_before(score@, cov@, a as int, b as int),
{
    if cov[a] != cov[b] {
        return cov[a] > cov[b];
    }
    if score[a] != score[b] {
        return score[a] > score[b];
    }
    let ra = a / 35;
    let rb = b / 35;
    if str_less(NOTE_NAMES[ra], NOTE_NAMES[rb]) {
        return true;
    }
    if !str_eq(NOTE_NAMES[ra], NOTE_NAMES[rb]) {
        return false;
    }
    let sa = a % 35;
    let sb = b % 35;
    if str_less(SCALE_NAMES[sa], SCALE_NAMES[sb]) {
        return true;
    }
    str_eq(SCALE_NAMES[sa], SCALE_NAMES[sb]) && a < b
}

/// Inserts pair `x` into `order`, keeping it sorted by tonic order.
fn insert_by_tonic(order: &mut Vec<usize>, x: usize, hist: &Vec<u32>)
    requires
        hist@.len() == 12,
        x < 420,
        forall|j: int| 0 <= j < old(order)@.len() ==> #[trigger] old(order)@[j] < 420,
        sorted_by(idx_view(old(order)@), tonic_order(hist@)),
        !idx_view(old(order)@).contains(x as int),
    ensures
        forall|j: int| 0 <= j < final(order)@.len() ==> #[trigger] final(order)@[j] < 420,
        sorted_by(idx_view(final(order)@), tonic_order(hist@)),
        forall|y: int| #[trigger] idx_view(final(order)@).contains(y) <==> (idx_view(old(order)@).contains(y) || y == x),
        final(order)@.len() == old(order)@.len() + 1,
{
    let ghost s = idx_view(order@);
    let ghost r = tonic_order(hist@);
    proof {
        lemma_tonic_order_total(hist@);
    }
    let mut p: usize = 0;
    while p < order.len()
        invariant
            0 <= p <= order@.len(),
            order@ == old(order)@,
            s == idx_view(order@),
            r == tonic_order(hist@),
            strict_total(r),
            hist@.len() == 12,
            x < 420,
            forall|j: int| 0 <= j < order@.len() ==> #[trigger] order@[j] < 420,
            !s.contains(x as int),
            forall|j: int| 0 <= j < p ==> #[trigger] r(s[j], x as int),
        ensures
            0 <= p <= order@.len(),
            p < order@.len() ==> r(x as int, s[p as int]),
        decreases order@.len() - p,
    {
        let y = order[p];
        if tonic_before_exec(hist, x, y) {
            break;
        }
        proof {
            assert(s[p as int] == y as int);
            if y == x {
                assert(s.contains(x as int));
            }
            assert(!r(x as int, s[p as int]));
            assert(r(s[p as int], x as int) || r(x as int, s[p as int]));
        }
        p = p + 1;
    }
    proof {
        if p < s.len() {
            assert(s[p as int] == order@[p as int] as int);
        }
    }
    order.insert(p, x);
    proof {
        assert(idx_view(order@) =~= s.insert(p as int, x as int));
        lemma_insert_sorted(s, p as int, x as int, r);
        lemma_insert_contains(s, p as int, x as int);
        assert forall|j: int| 0 <= j < order@.len() implies #[trigger] order@[j] < 420 by {
            if j < p {
                assert(order@[j] == old(order)@[j]);
            } else if j > p {
                assert(order@[j] == old(order)@[j - 1]);
            }
        }
    }
}


// ---------------------------------------------------------------------------
// Grouping and ranking
// ---------------------------------------------------------------------------

/// The first member of each group.
pub open spec fn firsts(gs: Seq<Seq<int>>) -> Seq<int> {
    gs.map_values(|g: Seq<int>| g[0])
}

/// `gs` groups the matched pairs of `t` by their notes: each group holds
/// exactly the matched pairs that sound like its first member, likeliest
/// tonic first; every matched pair is in a group; no two groups sound
/// alike; and the groups are ranked by their first members.
pub open spec fn grouping(t: ScaleTallies, cov: Seq<u32>, gs: Seq<Seq<int>>) -> bool {
    &&& forall|i: int| 0 <= i < gs.len() ==> #[trigger] gs[i].len() > 0
    &&& forall|i: int, k: int|
        0 <= i < gs.len() ==> (#[trigger] gs[i].contains(k) <==> (0 <= k < 420 && present(t, k)
            && same_notes(k, gs[i][0])))
    &&& forall|k: int|
        0 <= k < 420 && present(t, k) ==> exists|i: int| 0 <= i < gs.len() && #[trigger] gs[i].contains(k)
    &&& forall|i: int, j: int| 0 <= i < j < gs.len() ==> !same_notes(#[trigger] gs[i][0], #[trigger] gs[j][0])
    &&& forall|i: int| 0 <= i < gs.len() ==> sorted_by(#[trigger] gs[i], tonic_order(t.histogram@))
    &&& sorted_by(firsts(gs), rank_order(t.score@, cov))
}

/// Candidate `c` presents group `g`: its first member's names, commonness,
/// score, clip count and coverage, and the other members as alternates.
pub open spec fn describes(c: ScaleCandidate, t: ScaleTallies, cov: Seq<u32>, g: Seq<int>) -> bool {
    &&& c.root_name@ == pair_root_name(g[0])
    &&& c.scale_name@ == pair_scale_name(g[0])
    &&& c.common == is_common_scale(pair_scale(g[0]))
    &&& c.score == t.score@[g[0]]
    &&& c.clip_count == t.clip_count@[g[0]]
    &&& c.coverage_percent == cov[g[0]]
    &&& c.alternates@.len() == g.len() - 1
    &&& forall|a: int|
        0 <= a < c.alternates@.len() ==> #[trigger] c.alternates@[a].root_name@ == pair_root_name(g[a + 1])
            && c.alternates@[a].scale_name@ == pair_scale_name(g[a + 1])
}

/// `r` presents the groups `gs` of `t`, in order.
pub open spec fn ranked_candidates(r: Seq<ScaleCandidate>, t: ScaleTallies, cov: Seq<u32>, gs: Seq<Seq<int>>) -> bool {
    &&& grouping(t, cov, gs)
    &&& r.len() == gs.len()
    &&& forall|i: int| 0 <= i < r.len() ==> describes(#[trigger] r[i], t, cov, gs[i])
}

/// Candidates come best first: by descending coverage, and by descending
/// score among equal coverage.
pub proof fn lemma_candidates_best_first(r: Seq<ScaleCandidate>, t: ScaleTallies, cov: Seq<u32>, gs: Seq<Seq<int>>)
    requires
        ranked_candidates(r, t, cov, gs),
    ensures
        forall|i: int, j: int|
            0 <= i < j < r.len() ==> (#[trigger] r[i]).coverage_percent >= (#[trigger] r[j]).coverage_percent && (
            r[i].coverage_percent == r[j].coverage_percent ==> r[i].score >= r[j].score),
{
    assert forall|i: int, j: int| 0 <= i < j < r.len() implies (#[trigger] r[i]).coverage_percent >= (
    #[trigger] r[j]).coverage_percent && (r[i].coverage_percent == r[j].coverage_percent ==> r[i].score
        >= r[j].score) by {
        assert(describes(r[i], t, cov, gs[i]));
        assert(describes(r[j], t, cov, gs[j]));
        assert(firsts(gs)[i] == gs[i][0] && firsts(gs)[j] == gs[j][0]);
        assert(rank_order(t.score@, cov)(firsts(gs)[i], firsts(gs)[j]));
    }
}

/// Every matched pair belongs to exactly one candidate (as its label or
/// as one of its alternates).
pub proof fn lemma_each_pair_in_one_group(t: ScaleTallies, cov: Seq<u32>, gs: Seq<Seq<int>>, k: int)
    requires
        grouping(t, cov, gs),
        0 <= k < 420,
        present(t, k),
    ensures
        exists|i: int| 0 <= i < gs.len() && #[trigger] gs[i].contains(k),
        forall|i: int, j: int| 0 <= i < gs.len() && 0 <= j < gs.len() && #[trigger] gs[i].contains(k) && #[trigger] gs[j].contains(k) ==> i == j,
{
    assert forall|i: int, j: int| 0 <= i < gs.len() && 0 <= j < gs.len() && #[trigger] gs[i].contains(k) && #[trigger] gs[j].contains(k) implies i == j by {
        assert(same_notes(k, gs[i][0]) && same_notes(k, gs[j][0]));
        if i < j {
            assert(!same_notes(gs[i][0], gs[j][0]));
        } else if j < i {
            assert(!same_notes(gs[j][0], gs[i][0]));
        }
    }
}

pub open spec fn gview(groups: Seq<Vec<usize>>) -> Seq<Seq<int>> {
    groups.map_values(|g: Vec<usize>| idx_view(g@))
}

fn bools_eq(a: &Vec<bool>, b: &Vec<bool>) -> (r: bool)
    ensures
        r == (a@ == b@),
{
    if a.len() != b.len() {
        return false;
    }
    let mut i: usize = 0;
    while i < a.len()
        invariant
            a@.len() == b@.len(),
            0 <= i <= a@.len(),
            forall|k: int| 0 <= k < i ==> a@[k] == b@[k],
        decreases a@.len() - i,
    {
        if a[i] != b[i] {
            return false;
        }
        i = i + 1;
    }
    assert(a@ =~= b@);
    true
}

/// The absolute pitch classes of every pair.
fn all_pitch_sets() -> (ps: Vec<Vec<bool>>)
    ensures
        ps@.len() == 420,
        forall|k: int| 0 <= k < 420 ==> #[trigger] ps@[k]@ == scale_pitch_set(pair_root(k), pair_scale(k)),
{
    let mut ps: Vec<Vec<bool>> = Vec::new();
    let mut k: usize = 0;
    while k < 420
        invariant
            0 <= k <= 420,
            ps@.len() == k,
            forall|j: int| 0 <= j < k ==> #[trigger] ps@[j]@ == scale_pitch_set(pair_root(j), pair_scale(j)),
        decreases 420 - k,
    {
        let intervals = scale_intervals(k % 35);
        let set = pitch_set_of(k / 35, &intervals);
        assert(set@ =~= scale_pitch_set(pair_root(k as int), pair_scale(k as int)));
        ps.push(set);
        k = k + 1;
    }
    ps
}

/// The matched pairs of `t`, likeliest tonic first.
fn present_by_tonic(t: &ScaleTallies) -> (order: Vec<usize>)
    requires
        tallies_shape(*t),
    ensures
        forall|j: int| 0 <= j < order@.len() ==> #[trigger] order@[j] < 420,
        sorted_by(idx_view(order@), tonic_order(t.histogram@)),
        forall|y: int| #[trigger] idx_view(order@).contains(y) <==> (0 <= y < 420 && present(*t, y)),
{
    let mut order: Vec<usize> = Vec::new();
    let mut k: usize = 0;
    while k < 420
        invariant
            0 <= k <= 420,
            tallies_shape(*t),
            forall|j: int| 0 <= j < order@.len() ==> #[trigger] order@[j] < 420,
            sorted_by(idx_view(order@), tonic_order(t.histogram@)),
            forall|y: int| #[trigger] idx_view(order@).contains(y) <==> (0 <= y < k && present(*t, y)),
        decreases 420 - k,
    {
        let ghost before = idx_view(order@);
        if t.clip_count[k] > 0 {
            assert(!before.contains(k as int));
            insert_by_tonic(&mut order, k, &t.histogram);
        }
        assert forall|y: int| #[trigger] idx_view(order@).contains(y) <==> (0 <= y < k + 1 && present(*t, y)) by {
            assert(before.contains(y) <==> (0 <= y < k && present(*t, y)));
        }
        k = k + 1;
    }
    order
}


/// The groups built from the first `i` pairs of `s` (matched pairs in tonic
/// order) keep the shape that [`grouping`] asks for; `home[j]` is the group
/// that holds `s[j]`.
pub open spec fn partial_grouping(t: ScaleTallies, cov: Seq<u32>, s: Seq<int>, i: int, gs: Seq<Seq<int>>, home: Seq<int>) -> bool {
    &&& forall|h: int| 0 <= h < gs.len() ==> #[trigger] gs[h].len() > 0
    &&& forall|h: int| 0 <= h < gs.len() ==> sorted_by(#[trigger] gs[h], tonic_order(t.histogram@))
    &&& forall|h: int, a: int|
        0 <= h < gs.len() && 0 <= a < gs[h].len() ==> same_notes(#[trigger] gs[h][a], gs[h][0])
            && s.take(i).contains(gs[h][a])
    &&& home.len() == i
    &&& forall|j: int| 0 <= j < i ==> 0 <= #[trigger] home[j] < gs.len() && gs[home[j]].contains(s[j])
    &&& forall|h1: int, h2: int| 0 <= h1 < h2 < gs.len() ==> !same_notes(#[trigger] gs[h1][0], #[trigger] gs[h2][0])
    &&& sorted_by(firsts(gs), rank_order(t.score@, cov))
}

proof fn lemma_grouping_done(t: ScaleTallies, cov: Seq<u32>, s: Seq<int>, gs: Seq<Seq<int>>, home: Seq<int>)
    requires
        partial_grouping(t, cov, s, s.len() as int, gs, home),
        forall|y: int| #[trigger] s.contains(y) <==> (0 <= y < 420 && present(t, y)),
    ensures
        grouping(t, cov, gs),
{
    assert(s.take(s.len() as int) =~= s);
    assert forall|i: int, k: int| 0 <= i < gs.len() implies (#[trigger] gs[i].contains(k) <==> (0 <= k < 420
        && present(t, k) && same_notes(k, gs[i][0]))) by {
        if gs[i].contains(k) {
            let a = choose|a: int| 0 <= a < gs[i].len() && gs[i][a] == k;
            assert(same_notes(gs[i][a], gs[i][0]) && s.take(s.len() as int).contains(gs[i][a]));
        }
        if 0 <= k < 420 && present(t, k) && same_notes(k, gs[i][0]) {
            assert(s.contains(k));
            let j = choose|j: int| 0 <= j < s.len() && s[j] == k;
            let h = home[j];
            assert(gs[h].contains(s[j]));
            let a = choose|a: int| 0 <= a < gs[h].len() && gs[h][a] == k;
            assert(same_notes(gs[h][a], gs[h][0]));
            if h < i {
                assert(!same_notes(gs[h][0], gs[i][0]));
            } else if h > i {
                assert(!same_notes(gs[i][0], gs[h][0]));
            }
        }
    }
    assert forall|k: int| 0 <= k < 420 && present(t, k) implies exists|i: int| 0 <= i < gs.len() && #[trigger] gs[i].contains(k) by {
        assert(s.contains(k));
        let j = choose|j: int| 0 <= j < s.len() && s[j] == k;
        assert(gs[home[j]].contains(s[j]));
    }
}

proof fn lemma_take_step(s: Seq<int>, i: int)
    requires
        0 <= i < s.len(),
    ensures
        forall|y: int| #[trigger] s.take(i + 1).contains(y) <==> (s.take(i).contains(y) || y == s[i]),
        forall|y: int| #[trigger] s.take(i).contains(y) ==> exists|j: int| 0 <= j < i && s[j] == y,
{
    assert forall|y: int| #[trigger] s.take(i + 1).contains(y) <==> (s.take(i).contains(y) || y == s[i]) by {
        if s.take(i).contains(y) {
            let j = choose|j: int| 0 <= j < i && #[trigger] s.take(i)[j] == y;
            assert(s.take(i + 1)[j] == y);
        }
        if y == s[i] {
            assert(s.take(i + 1)[i] == y);
        }
        if s.take(i + 1).contains(y) {
            let j = choose|j: int| 0 <= j < i + 1 && #[trigger] s.take(i + 1)[j] == y;
            if j < i {
                assert(s.take(i)[j] == y);
            }
        }
    }
    assert forall|y: int| #[trigger] s.take(i).contains(y) implies exists|j: int| 0 <= j < i && s[j] == y by {
        let j = choose|j: int| 0 <= j < i && #[trigger] s.take(i)[j] == y;
        assert(s[j] == y);
    }
}

/// Appending the next pair to the group that sounds like it keeps the
/// grouping's shape.
proof fn lemma_extend_group(t: ScaleTallies, cov: Seq<u32>, s: Seq<int>, i: int, gs: Seq<Seq<int>>, home: Seq<int>, gi: int)
    requires
        partial_grouping(t, cov, s, i, gs, home),
        0 <= i < s.len(),
        sorted_by(s, tonic_order(t.histogram@)),
        0 <= gi < gs.len(),
        same_notes(gs[gi][0], s[i]),
    ensures
        partial_grouping(t, cov, s, i + 1, gs.update(gi, gs[gi].push(s[i])), home.push(gi)),
{
    let x = s[i];
    let tonic = tonic_order(t.histogram@);
    let ng = gs[gi].push(x);
    let gs2 = gs.update(gi, ng);
    lemma_take_step(s, i);
    assert(sorted_by(ng, tonic)) by {
        assert forall|a: int, b: int| 0 <= a < b < ng.len() implies #[trigger] tonic(ng[a], ng[b]) by {
            if b < gs[gi].len() {
                assert(tonic(gs[gi][a], gs[gi][b]));
            } else {
                assert(s.take(i).contains(gs[gi][a]));
                let j = choose|j: int| 0 <= j < i && s[j] == gs[gi][a];
                assert(tonic(s[j], s[i]));
            }
        }
    }
    assert forall|h: int| 0 <= h < gs2.len() implies sorted_by(#[trigger] gs2[h], tonic) by {
        if h != gi {
            assert(gs2[h] == gs[h]);
        }
    }
    assert forall|h: int, a: int| 0 <= h < gs2.len() && 0 <= a < gs2[h].len() implies same_notes(#[trigger] gs2[h][a], gs2[h][0])
        && s.take(i + 1).contains(gs2[h][a]) by {
        if h != gi || a < gs[gi].len() {
            assert(gs2[h][a] == gs[h][a]);
            assert(gs2[h][0] == gs[h][0]);
            assert(same_notes(gs[h][a], gs[h][0]) && s.take(i).contains(gs[h][a]));
        }
    }
    let home2 = home.push(gi);
    assert forall|j: int| 0 <= j < i + 1 implies 0 <= #[trigger] home2[j] < gs2.len() && gs2[home2[j]].contains(s[j]) by {
        if j < i {
            let h = home[j];
            assert(gs[h].contains(s[j]));
            let a = choose|a: int| 0 <= a < gs[h].len() && gs[h][a] == s[j];
            assert(gs2[h][a] == s[j]);
        } else {
            assert(gs2[gi][gs[gi].len() as int] == s[j]);
        }
    }
    assert(firsts(gs2) =~= firsts(gs));
    assert forall|h1: int, h2: int| 0 <= h1 < h2 < gs2.len() implies !same_notes(#[trigger] gs2[h1][0], #[trigger] gs2[h2][0]) by {
        assert(gs2[h1][0] == gs[h1][0]);
        assert(gs2[h2][0] == gs[h2][0]);
    }
    assert forall|h: int| 0 <= h < gs2.len() implies #[trigger] gs2[h].len() > 0 by {}
}

/// Opening a new group for the next pair, at its rank, keeps the
/// grouping's shape.
/// Where each earlier pair's group lands once a group is inserted at `p`.
pub open spec fn shifted_homes(home: Seq<int>, p: int) -> Seq<int> {
    Seq::new(home.len() + 1, |j: int| if j == home.len() { p } else if home[j] >= p { home[j] + 1 } else { home[j] })
}

proof fn lemma_new_group(t: ScaleTallies, cov: Seq<u32>, s: Seq<int>, i: int, gs: Seq<Seq<int>>, home: Seq<int>, p: int)
    requires
        partial_grouping(t, cov, s, i, gs, home),
        0 <= i < s.len(),
        strict_total(rank_order(t.score@, cov)),
        forall|h: int| 0 <= h < gs.len() ==> !same_notes(#[trigger] gs[h][0], s[i]),
        0 <= p <= gs.len(),
        forall|q: int| 0 <= q < p ==> #[trigger] rank_order(t.score@, cov)(firsts(gs)[q], s[i]),
        p < gs.len() ==> rank_order(t.score@, cov)(s[i], firsts(gs)[p]),
    ensures
        partial_grouping(t, cov, s, i + 1, gs.insert(p, seq![s[i]]), shifted_homes(home, p)),
{
    let x = s[i];
    let gs2 = gs.insert(p, seq![x]);
    lemma_take_step(s, i);
    lemma_new_group_members(t, s, i, gs, p);
    lemma_new_group_cover(s, i, gs, home, p);
    lemma_new_group_apart(s, i, gs, p);
    assert(firsts(gs2) =~= firsts(gs).insert(p, x));
    lemma_insert_sorted(firsts(gs), p, x, rank_order(t.score@, cov));
}

proof fn lemma_new_group_members(t: ScaleTallies, s: Seq<int>, i: int, gs: Seq<Seq<int>>, p: int)
    requires
        0 <= i < s.len(),
        0 <= p <= gs.len(),
        forall|h: int| 0 <= h < gs.len() ==> #[trigger] gs[h].len() > 0,
        forall|h: int| 0 <= h < gs.len() ==> sorted_by(#[trigger] gs[h], tonic_order(t.histogram@)),
        forall|h: int, a: int|
            0 <= h < gs.len() && 0 <= a < gs[h].len() ==> same_notes(#[trigger] gs[h][a], gs[h][0])
                && s.take(i).contains(gs[h][a]),
        forall|y: int| #[trigger] s.take(i + 1).contains(y) <==> (s.take(i).contains(y) || y == s[i]),
    ensures
        ({
            let gs2 = gs.insert(p, seq![s[i]]);
            &&& forall|h: int| 0 <= h < gs2.len() ==> #[trigger] gs2[h].len() > 0
            &&& forall|h: int| 0 <= h < gs2.len() ==> sorted_by(#[trigger] gs2[h], tonic_order(t.histogram@))
            &&& forall|h: int, a: int|
                0 <= h < gs2.len() && 0 <= a < gs2[h].len() ==> same_notes(#[trigger] gs2[h][a], gs2[h][0])
                    && s.take(i + 1).contains(gs2[h][a])
        }),
{
    let x = s[i];
    let tonic = tonic_order(t.histogram@);
    let gs2 = gs.insert(p, seq![x]);
    assert forall|h: int| 0 <= h < gs2.len() implies #[trigger] gs2[h].len() > 0 by {
        if h < p {
            assert(gs2[h] == gs[h]);
        } else if h > p {
            assert(gs2[h] == gs[h - 1]);
        }
    }
    assert forall|h: int| 0 <= h < gs2.len() implies sorted_by(#[trigger] gs2[h], tonic) by {
        if h < p {
            assert(gs2[h] == gs[h]);
        } else if h > p {
            assert(gs2[h] == gs[h - 1]);
        }
    }
    assert forall|h: int, a: int| 0 <= h < gs2.len() && 0 <= a < gs2[h].len() implies same_notes(#[trigger] gs2[h][a], gs2[h][0])
        && s.take(i + 1).contains(gs2[h][a]) by {
        if h < p {
            assert(gs2[h] == gs[h]);
            assert(same_notes(gs[h][a], gs[h][0]) && s.take(i).contains(gs[h][a]));
        } else if h > p {
            assert(gs2[h] == gs[h - 1]);
            assert(same_notes(gs[h - 1][a], gs[h - 1][0]) && s.take(i).contains(gs[h - 1][a]));
        } else {
            assert(gs2[h][a] == x);
        }
    }
}

proof fn lemma_new_group_cover(s: Seq<int>, i: int, gs: Seq<Seq<int>>, home: Seq<int>, p: int)
    requires
        0 <= i < s.len(),
        0 <= p <= gs.len(),
        home.len() == i,
        forall|j: int| 0 <= j < i ==> 0 <= #[trigger] home[j] < gs.len() && gs[home[j]].contains(s[j]),
    ensures
        forall|j: int|
            0 <= j < i + 1 ==> 0 <= #[trigger] shifted_homes(home, p)[j] < gs.insert(p, seq![s[i]]).len()
                && gs.insert(p, seq![s[i]])[shifted_homes(home, p)[j]].contains(s[j]),
{
    let gs2 = gs.insert(p, seq![s[i]]);
    let home2 = shifted_homes(home, p);
    assert forall|j: int| 0 <= j < i + 1 implies 0 <= #[trigger] home2[j] < gs2.len() && gs2[home2[j]].contains(s[j]) by {
        if j < i {
            let h = home[j];
            if h < p {
                assert(gs2[h] == gs[h]);
            } else {
                assert(gs2[h + 1] == gs[h]);
            }
        } else {
            assert(gs2[p][0] == s[j]);
        }
    }
}

proof fn lemma_new_group_apart(s: Seq<int>, i: int, gs: Seq<Seq<int>>, p: int)
    requires
        0 <= i < s.len(),
        0 <= p <= gs.len(),
        forall|h: int| 0 <= h < gs.len() ==> !same_notes(#[trigger] gs[h][0], s[i]),
        forall|h1: int, h2: int| 0 <= h1 < h2 < gs.len() ==> !same_notes(#[trigger] gs[h1][0], #[trigger] gs[h2][0]),
    ensures
        forall|h1: int, h2: int|
            0 <= h1 < h2 < gs.insert(p, seq![s[i]]).len() ==> !same_notes(
                #[trigger] gs.insert(p, seq![s[i]])[h1][0],
                #[trigger] gs.insert(p, seq![s[i]])[h2][0],
            ),
{
    let x = s[i];
    let gs2 = gs.insert(p, seq![x]);
    assert forall|h1: int, h2: int| 0 <= h1 < h2 < gs2.len() implies !same_notes(#[trigger] gs2[h1][0], #[trigger] gs2[h2][0]) by {
        if h2 < p {
            assert(gs2[h1] == gs[h1] && gs2[h2] == gs[h2]);
        } else if h2 == p {
            assert(gs2[h1] == gs[h1]);
            assert(!same_notes(gs[h1][0], x));
        } else if h1 < p {
            assert(gs2[h1] == gs[h1] && gs2[h2] == gs[h2 - 1]);
        } else if h1 == p {
            assert(gs2[h2] == gs[h2 - 1]);
            assert(!same_notes(gs[h2 - 1][0], x));
        } else {
            assert(gs2[h1] == gs[h1 - 1] && gs2[h2] == gs[h2 - 1]);
        }
    }
}

/// Groups the matched pairs of `t` by their notes, labels each group by its
/// likeliest tonic (the root whose pitch class carries the most notes, then
/// the first root name), and ranks the groups by coverage, then score, then
/// names. `coverage[k]` is the coverage percentage of pair `k`.
pub fn rank_candidates(t: &ScaleTallies, coverage: &Vec<u32>) -> (r: ScaleCandidates)
    requires
        tallies_shape(*t),
        coverage@.len() == 420,
    ensures
        exists|gs: Seq<Seq<int>>| #[trigger] ranked_candidates(r.scales@, *t, coverage@, gs),
{
    let ghost tonic = tonic_order(t.histogram@);
    let ghost rank = rank_order(t.score@, coverage@);
    proof {
        lemma_tonic_order_total(t.histogram@);
        lemma_rank_order_total(t.score@, coverage@);
    }
    let ps = all_pitch_sets();
    let order = present_by_tonic(t);
    let ghost s = idx_view(order@);
    let mut groups: Vec<Vec<usize>> = Vec::new();
    let ghost mut gs: Seq<Seq<int>> = Seq::empty();
    let ghost mut home: Seq<int> = Seq::empty();
    proof {
        assert(gview(groups@) =~= gs);
        assert(firsts(gs) =~= Seq::<int>::empty());
    }
    let mut i: usize = 0;
    while i < order.len()
        invariant
            0 <= i <= order@.len(),
            tallies_shape(*t),
            coverage@.len() == 420,
            tonic == tonic_order(t.histogram@),
            rank == rank_order(t.score@, coverage@),
            strict_total(tonic),
            strict_total(rank),
            ps@.len() == 420,
            forall|k: int| 0 <= k < 420 ==> #[trigger] ps@[k]@ == scale_pitch_set(pair_root(k), pair_scale(k)),
            s == idx_view(order@),
            forall|j: int| 0 <= j < order@.len() ==> #[trigger] order@[j] < 420,
            sorted_by(s, tonic),
            forall|y: int| #[trigger] s.contains(y) <==> (0 <= y < 420 && present(*t, y)),
            gs == gview(groups@),
            gs.len() == groups@.len(),
            forall|h: int, a: int| 0 <= h < gs.len() && 0 <= a < gs[h].len() ==> 0 <= #[trigger] gs[h][a] < 420,
            partial_grouping(*t, coverage@, s, i as int, gs, home),
        decreases order@.len() - i,
    {
        let x = order[i];
        assert(s[i as int] == x as int);
        let mut gi: usize = 0;
        while gi < groups.len()
            invariant
                0 <= gi <= groups@.len(),
                gs == gview(groups@),
                gs.len() == groups@.len(),
                x < 420,
                ps@.len() == 420,
                forall|k: int| 0 <= k < 420 ==> #[trigger] ps@[k]@ == scale_pitch_set(pair_root(k), pair_scale(k)),
                forall|h: int| 0 <= h < gs.len() ==> #[trigger] gs[h].len() > 0,
                forall|h: int, a: int| 0 <= h < gs.len() && 0 <= a < gs[h].len() ==> 0 <= #[trigger] gs[h][a] < 420,
                forall|h: int| 0 <= h < gi ==> !same_notes(#[trigger] gs[h][0], x as int),
            ensures
                0 <= gi <= groups@.len(),
                forall|h: int| 0 <= h < gi ==> !same_notes(#[trigger] gs[h][0], x as int),
                gi < groups@.len() ==> same_notes(gs[gi as int][0], x as int),
            decreases groups@.len() - gi,
        {
            assert(gs[gi as int] == idx_view(groups@[gi as int]@));
            let first = groups[gi][0];
            assert(gs[gi as int][0] == first as int);
            if bools_eq(&ps[first], &ps[x]) {
                break;
            }
            gi = gi + 1;
        }
        if gi < groups.len() {
            let ghost old_groups = groups@;
            let mut g = groups.remove(gi);
            g.push(x);
            groups.insert(gi, g);
            proof {
                lemma_extend_group(*t, coverage@, s, i as int, gs, home, gi as int);
                let ng = gs[gi as int].push(x as int);
                assert(idx_view(groups@[gi as int]@) =~= ng);
                let gs2 = gs.update(gi as int, ng);
                assert forall|h: int| 0 <= h < gs2.len() implies #[trigger] gview(groups@)[h] == gs2[h] by {
                    if h != gi {
                        assert(groups@[h] == old_groups[h]);
                    }
                }
                assert(gview(groups@) =~= gs2);
                assert forall|h: int, a: int| 0 <= h < gs2.len() && 0 <= a < gs2[h].len() implies 0 <= #[trigger] gs2[h][a] < 420 by {
                    if h != gi || a < gs[h].len() {
                        assert(gs2[h][a] == gs[h][a]);
                    }
                }
                gs = gs2;
                home = home.push(gi as int);
            }
        } else {
            proof {
                if s.take(i as int).contains(x as int) {
                    let j = choose|j: int| 0 <= j < i && #[trigger] s.take(i as int)[j] == x as int;
                    assert(s[j] == s[i as int]);
                    assert(tonic(s[j], s[i as int]));
                }
            }
            let mut p: usize = 0;
            while p < groups.len()
                invariant
                    0 <= p <= groups@.len(),
                    gs == gview(groups@),
                    gs.len() == groups@.len(),
                    x < 420,
                    tallies_shape(*t),
                    coverage@.len() == 420,
                    rank == rank_order(t.score@, coverage@),
                    strict_total(rank),
                    x as int == s[i as int],
                    !s.take(i as int).contains(x as int),
                    partial_grouping(*t, coverage@, s, i as int, gs, home),
                    forall|h: int, a: int| 0 <= h < gs.len() && 0 <= a < gs[h].len() ==> 0 <= #[trigger] gs[h][a] < 420,
                    forall|q: int| 0 <= q < p ==> #[trigger] rank(firsts(gs)[q], x as int),
                ensures
                    0 <= p <= groups@.len(),
                    forall|q: int| 0 <= q < p ==> #[trigger] rank(firsts(gs)[q], x as int),
                    p < groups@.len() ==> rank(x as int, firsts(gs)[p as int]),
                decreases groups@.len() - p,
            {
                assert(gs[p as int] == idx_view(groups@[p as int]@));
                let first = groups[p][0];
                assert(firsts(gs)[p as int] == first as int);
                if ranks_before_exec(&t.score, coverage, x, first) {
                    break;
                }
                proof {
                    assert(s.take(i as int).contains(gs[p as int][0]));
                    if first == x {
                        assert(false);
                    }
                    assert(rank(firsts(gs)[p as int], x as int) || rank(x as int, firsts(gs)[p as int]));
                }
                p = p + 1;
            }
            let mut g: Vec<usize> = Vec::new();
            g.push(x);
            let ghost old_groups = groups@;
            groups.insert(p, g);
            proof {
                lemma_new_group(*t, coverage@, s, i as int, gs, home, p as int);
                let gs2 = gs.insert(p as int, seq![x as int]);
                assert(idx_view(groups@[p as int]@) =~= seq![x as int]);
                assert forall|h: int| 0 <= h < gs2.len() implies #[trigger] gview(groups@)[h] == gs2[h] by {
                    if h < p {
                        assert(groups@[h] == old_groups[h]);
                    } else if h > p {
                        assert(groups@[h] == old_groups[h - 1]);
                    }
                }
                assert(gview(groups@) =~= gs2);
                assert forall|h: int, a: int| 0 <= h < gs2.len() && 0 <= a < gs2[h].len() implies 0 <= #[trigger] gs2[h][a] < 420 by {
                    if h < p {
                        assert(gs2[h] == gs[h]);
                    } else if h > p {
                        assert(gs2[h] == gs[h - 1]);
                    }
                }
                gs = gs2;
                home = shifted_homes(home, p as int);
            }
        }
        i = i + 1;
    }
    proof {
        lemma_grouping_done(*t, coverage@, s, gs, home);
    }
    let mut scales: Vec<ScaleCandidate> = Vec::new();
    let mut h: usize = 0;
    while h < groups.len()
        invariant
            0 <= h <= groups@.len(),
            tallies_shape(*t),
            coverage@.len() == 420,
            gs == gview(groups@),
            gs.len() == groups@.len(),
            grouping(*t, coverage@, gs),
            forall|h2: int, a: int| 0 <= h2 < gs.len() && 0 <= a < gs[h2].len() ==> 0 <= #[trigger] gs[h2][a] < 420,
            scales@.len() == h,
            forall|j: int| 0 <= j < h ==> describes(#[trigger] scales@[j], *t, coverage@, gs[j]),
        decreases groups@.len() - h,
    {
        let g = &groups[h];
        let ghost gv = gs[h as int];
        assert(gv == idx_view(g@));
        assert(gv.len() > 0);
        let first = g[0];
        assert(gv[0] == first as int);
        assert(0 <= gs[h as int][0] < 420);
        let mut alternates: Vec<ScaleAlternate> = Vec::new();
        let mut a: usize = 1;
        while a < g.len()
            invariant
                1 <= a <= g@.len(),
                gv == idx_view(g@),
                forall|b: int| 0 <= b < gv.len() ==> 0 <= #[trigger] gv[b] < 420,
                alternates@.len() == a - 1,
                forall|b: int| 0 <= b < alternates@.len() ==> #[trigger] alternates@[b].root_name@ == pair_root_name(gv[b + 1])
                    && alternates@[b].scale_name@ == pair_scale_name(gv[b + 1]),
            decreases g@.len() - a,
        {
            let m = g[a];
            assert(gv[a as int] == m as int);
            assert(0 <= gv[a as int] < 420);
            let ghost old_alts = alternates@;
            alternates.push(ScaleAlternate {
                root_name: NOTE_NAMES[m / 35].to_owned(),
                scale_name: SCALE_NAMES[m % 35].to_owned(),
            });
            assert forall|b: int| 0 <= b < alternates@.len() implies #[trigger] alternates@[b].root_name@ == pair_root_name(gv[b + 1])
                && alternates@[b].scale_name@ == pair_scale_name(gv[b + 1]) by {
                if b < old_alts.len() {
                    assert(alternates@[b] == old_alts[b]);
                }
            }
            a = a + 1;
        }
        let c = ScaleCandidate {
            root_name: NOTE_NAMES[first / 35].to_owned(),
            scale_name: SCALE_NAMES[first % 35].to_owned(),
            common: is_common(first % 35),
            score: t.score[first],
            clip_count: t.clip_count[first],
            coverage_percent: coverage[first],
            alternates,
        };
        assert(describes(c, *t, coverage@, gv));
        let ghost old_scales = scales@;
        scales.push(c);
        assert forall|j: int| 0 <= j < h + 1 implies describes(#[trigger] scales@[j], *t, coverage@, gs[j]) by {
            if j < h {
                assert(scales@[j] == old_scales[j]);
            }
        }
        h = h + 1;
    }
    let r = ScaleCandidates { scales };
    assert(ranked_candidates(r.scales@, *t, coverage@, gs));
    r
}

} // verus!
