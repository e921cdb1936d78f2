use vstd::prelude::*;

use crate::error::AlsError;
use crate::scale_constants::{
    scale_intervals, scale_intervals_spec, COMMON_SCALE_NAMES, NOTE_NAMES, SCALE_COUNT, SCALE_NAMES,
};
use crate::text::{parse_i32, parse_i32_str, str_eq};
use crate::xml::{
    child_value, desc_pred, desc_sel, idx_view, lemma_select_contains, lemma_select_props, select, NodeV,
    XmlDoc,
};

verus! {

/// The pitch class (0-11) of a MIDI key: its Euclidean remainder by 12.
pub fn pitch_class(key: i32) -> (r: usize)
    ensures
        r as int == (key as int) % 12,
        r < 12,
{
    if key >= 0 {
        (key % 12) as usize
    } else {
        let m: i64 = (-(key as i64)) % 12;
        if m == 0 {
            0
        } else {
            (12 - m) as usize
        }
    }
}

/// The pitch class of a `KeyTrack`'s `MidiKey` value, when it is an `i32`.
pub open spec fn key_pitch_class(nodes: Seq<NodeV>, k: int) -> Option<int> {
    match child_value(nodes, k, "MidiKey"@) {
        Some(v) => match parse_i32(v) {
            Some(key) => Some(key % 12),
            None => None,
        },
        None => None,
    }
}

/// The `KeyTrack` nodes in and below clip `c`.
pub open spec fn clip_key_tracks(nodes: Seq<NodeV>, c: int) -> Seq<int> {
    desc_sel(nodes, c, Some("KeyTrack"@), false)
}

/// The pitch classes used in clip `c`: entry `p` is set when some
/// `KeyTrack` below the clip has a `MidiKey` of pitch class `p`.
pub open spec fn clip_pitch_classes_spec(nodes: Seq<NodeV>, c: int) -> Seq<bool> {
    Seq::new(
        12,
        |p: int|
            exists|a: int|
                0 <= a < clip_key_tracks(nodes, c).len() && key_pitch_class(
                    nodes,
                    #[trigger] clip_key_tracks(nodes, c)[a],
                ) == Some(p),
    )
}

/// The number of `MidiNoteEvent` nodes in and below clip `c`, as a `u32`
/// (truncated, as `count() as u32` does).
pub open spec fn clip_note_count_spec(nodes: Seq<NodeV>, c: int) -> u32 {
    desc_sel(nodes, c, Some("MidiNoteEvent"@), false).len() as u32
}

/// The distinct pitch classes (0-11) used by the notes of `MidiClip` node
/// `clip`: entry `p` is `true` when some `KeyTrack`'s `MidiKey` has pitch
/// class `p`.
pub fn clip_pitch_classes(doc: &XmlDoc, clip: usize) -> (r: Vec<bool>)
    requires
        clip < doc@.nodes.len(),
    ensures
        r@ == clip_pitch_classes_spec(doc@.nodes, clip as int),
{
    let ghost nodes = doc@.nodes;
    let kts = doc.desc_select(clip, Some("KeyTrack"), false);
    let ghost kv = idx_view(kts@);
    proof {
        lemma_select_props(0, nodes.len() as int, desc_pred(nodes, clip as int, Some("KeyTrack"@), false));
    }
    let mut pcs: Vec<bool> = vec![false; 12];
    let mut t: usize = 0;
    while t < kts.len()
        invariant
            0 <= t <= kts@.len(),
            nodes == doc@.nodes,
            kv == idx_view(kts@),
            kv == clip_key_tracks(nodes, clip as int),
            forall|a: int| 0 <= a < kv.len() ==> 0 <= #[trigger] kv[a] < nodes.len(),
            pcs@.len() == 12,
            forall|p: int|
                0 <= p < 12 ==> #[trigger] pcs@[p] == exists|a: int|
                    0 <= a < t && key_pitch_class(nodes, #[trigger] kv[a]) == Some(p),
        decreases kts@.len() - t,
    {
        let k = kts[t];
        assert(kv[t as int] == k as int);
        let ghost old_pcs = pcs@;
        match doc.child_value(k, "MidiKey") {
            Some(v) => match parse_i32_str(v.as_str()) {
                Some(key) => {
                    let pc = pitch_class(key);
                    pcs.set(pc, true);
                    assert forall|p: int| 0 <= p < 12 implies #[trigger] pcs@[p] == exists|a: int|
                        0 <= a < t + 1 && key_pitch_class(nodes, #[trigger] kv[a]) == Some(p) by {
                        if p == pc {
                            assert(key_pitch_class(nodes, kv[t as int]) == Some(p));
                        } else {
                            assert(pcs@[p] == old_pcs[p]);
                            if exists|a: int| 0 <= a < t + 1 && key_pitch_class(nodes, #[trigger] kv[a]) == Some(p) {
                                let a = choose|a: int| 0 <= a < t + 1 && key_pitch_class(nodes, #[trigger] kv[a]) == Some(p);
                                assert(a < t);
                            }
                        }
                    }
                },
                None => {
                    assert forall|p: int| 0 <= p < 12 implies #[trigger] pcs@[p] == exists|a: int|
                        0 <= a < t + 1 && key_pitch_class(nodes, #[trigger] kv[a]) == Some(p) by {
                        if exists|a: int| 0 <= a < t + 1 && key_pitch_class(nodes, #[trigger] kv[a]) == Some(p) {
                            let a = choose|a: int| 0 <= a < t + 1 && key_pitch_class(nodes, #[trigger] kv[a]) == Some(p);
                            assert(a < t);
                        }
                    }
                },
            },
            None => {
                assert forall|p: int| 0 <= p < 12 implies #[trigger] pcs@[p] == exists|a: int|
                    0 <= a < t + 1 && key_pitch_class(nodes, #[trigger] kv[a]) == Some(p) by {
                    if exists|a: int| 0 <= a < t + 1 && key_pitch_class(nodes, #[trigger] kv[a]) == Some(p) {
                        let a = choose|a: int| 0 <= a < t + 1 && key_pitch_class(nodes, #[trigger] kv[a]) == Some(p);
                        assert(a < t);
                    }
                }
            },
        }
        t = t + 1;
    }
    assert(pcs@ =~= clip_pitch_classes_spec(nodes, clip as int));
    pcs
}

/// How many note events clip `clip` holds, as a `u32`.
pub fn clip_note_count(doc: &XmlDoc, clip: usize) -> (r: u32)
    requires
        clip < doc@.nodes.len(),
    ensures
        r == clip_note_count_spec(doc@.nodes, clip as int),
{
    let evs = doc.desc_select(clip, Some("MidiNoteEvent"), false);
    assert(idx_view(evs@).len() == evs@.len());
    #[verifier::truncate]
    (evs.len() as u32)
}


// ---------------------------------------------------------------------------
// Matching clips against every (root, scale) pair
// ---------------------------------------------------------------------------

/// The number of (root, scale) pairs: 12 roots times 35 scales. Pair `k`
/// is root `k / 35` with scale `k % 35`.
pub const PAIR_COUNT: usize = 420;

pub open spec fn pair_root(k: int) -> int {
    k / 35
}

pub open spec fn pair_scale(k: int) -> int {
    k % 35
}

/// Every offset of every scale lies within one octave.
pub proof fn lemma_intervals_within_octave(scale: int)
    ensures
        forall|i: int| 0 <= i < scale_intervals_spec(scale).len() ==> #[trigger] scale_intervals_spec(scale)[i] < 12,
{
}

/// A scale played from any root fits its own notes: a clip that uses
/// exactly the pitch classes of (root, scale) matches that pair.
pub proof fn lemma_scale_fits_own_notes(root: int, scale: int)
    requires
        0 <= root < 12,
    ensures
        fits_all(scale_pitch_set(root, scale), root, scale),
{
    lemma_intervals_within_octave(scale);
    let iv = scale_intervals_spec(scale);
    assert forall|p: int| 0 <= p < 12 && #[trigger] scale_pitch_set(root, scale)[p] implies iv.contains(((p - root) % 12) as u8) by {
        let i = choose|i: int| 0 <= i < iv.len() && (root + #[trigger] iv[i]) % 12 == p;
        assert(iv[i] < 12);
        assert((p - root) % 12 == iv[i] as int);
        assert(iv[i] == ((p - root) % 12) as u8);
    }
}

/// Some pitch class is present.
pub open spec fn pitched(pcs: Seq<bool>) -> bool {
    exists|p: int| 0 <= p < 12 && #[trigger] pcs[p]
}

/// Every present pitch class lies in scale `scale` played from `root`.
pub open spec fn fits_all(pcs: Seq<bool>, root: int, scale: int) -> bool {
    forall|p: int|
        0 <= p < 12 && #[trigger] pcs[p] ==> scale_intervals_spec(scale).contains(((p - root) % 12) as u8)
}

/// The absolute pitch classes of scale `scale` played from `root`.
pub open spec fn scale_pitch_set(root: int, scale: int) -> Seq<bool> {
    Seq::new(12, |p: int| exists|i: int| 0 <= i < scale_intervals_spec(scale).len() && (root + #[trigger] scale_intervals_spec(scale)[i]) % 12 == p)
}

/// Scale `scale` is one of the common scales (by name).
pub open spec fn is_common_scale(scale: int) -> bool {
    exists|i: int| 0 <= i < 10 && #[trigger] COMMON_SCALE_NAMES@[i]@ == SCALE_NAMES@[scale]@
}

/// One (root, scale) pair whose scale holds every pitch class of a clip.
pub struct ScaleMatch {
    pub root_note: i32,
    pub scale_index: usize,
    pub root_name: String,
    pub scale_name: String,
    /// Whether the scale is one of the common scales.
    pub common: bool,
    /// The scale's absolute pitch classes at that root: pairs with equal
    /// sets sound identical (relative modes).
    pub pitch_set: Vec<bool>,
}

/// Pair `k` as a [`ScaleMatch`].
pub open spec fn match_is(m: ScaleMatch, k: int) -> bool {
    &&& m.root_note == pair_root(k)
    &&& m.scale_index == pair_scale(k)
    &&& m.root_name@ == NOTE_NAMES@[pair_root(k)]@
    &&& m.scale_name@ == SCALE_NAMES@[pair_scale(k)]@
    &&& m.common == is_common_scale(pair_scale(k))
    &&& m.pitch_set@ == scale_pitch_set(pair_root(k), pair_scale(k))
}

/// The pairs whose scale holds every present pitch class, in root-major
/// order.
pub open spec fn matching_pairs(pcs: Seq<bool>) -> Seq<int> {
    select(0, 420, |k: int| fits_all(pcs, pair_root(k), pair_scale(k)))
}

pub(crate) fn is_common(scale: usize) -> (r: bool)
    requires
        scale < 35,
    ensures
        r == is_common_scale(scale as int),
{
    let mut i: usize = 0;
    while i < 10
        invariant
            0 <= i <= 10,
            scale < 35,
            forall|j: int| 0 <= j < i ==> #[trigger] COMMON_SCALE_NAMES@[j]@ != SCALE_NAMES@[scale as int]@,
        decreases 10 - i,
    {
        if str_eq(COMMON_SCALE_NAMES[i], SCALE_NAMES[scale]) {
            return true;
        }
        i = i + 1;
    }
    false
}

pub(crate) fn pitch_set_of(root: usize, intervals: &Vec<u8>) -> (r: Vec<bool>)
    requires
        root < 12,
    ensures
        r@ == Seq::new(12, |p: int| exists|i: int| 0 <= i < intervals@.len() && (root + #[trigger] intervals@[i]) % 12 == p),
{
    let mut set: Vec<bool> = vec![false; 12];
    let mut i: usize = 0;
    while i < intervals.len()
        invariant
            0 <= i <= intervals@.len(),
            root < 12,
            set@.len() == 12,
            forall|p: int| 0 <= p < 12 ==> #[trigger] set@[p] == exists|j: int| 0 <= j < i && (root + #[trigger] intervals@[j]) % 12 == p,
        decreases intervals@.len() - i,
    {
        let pc = (root + intervals[i] as usize) % 12;
        let ghost old_set = set@;
        set.set(pc, true);
        assert forall|p: int| 0 <= p < 12 implies #[trigger] set@[p] == exists|j: int| 0 <= j < i + 1 && (root + #[trigger] intervals@[j]) % 12 == p by {
            if p == pc {
                assert((root + intervals@[i as int]) % 12 == p);
            } else {
                assert(set@[p] == old_set[p]);
                if exists|j: int| 0 <= j < i + 1 && (root + #[trigger] intervals@[j]) % 12 == p {
                    let j = choose|j: int| 0 <= j < i + 1 && (root + #[trigger] intervals@[j]) % 12 == p;
                    assert(j < i);
                }
            }
        }
        i = i + 1;
    }
    assert(set@ =~= Seq::new(12, |p: int| exists|i: int| 0 <= i < intervals@.len() && (root + #[trigger] intervals@[i]) % 12 == p));
    set
}

fn fits_all_exec(pcs: &Vec<bool>, root: usize, intervals: &Vec<u8>) -> (r: bool)
    requires
        pcs@.len() == 12,
        root < 12,
    ensures
        r == forall|p: int| 0 <= p < 12 && #[trigger] pcs@[p] ==> intervals@.contains(((p - root) % 12) as u8),
{
    let mut p: usize = 0;
    while p < 12
        invariant
            0 <= p <= 12,
            pcs@.len() == 12,
            root < 12,
            forall|q: int| 0 <= q < p && #[trigger] pcs@[q] ==> intervals@.contains(((q - root) % 12) as u8),
        decreases 12 - p,
    {
        if pcs[p] {
            let off = (p + 12 - root) % 12;
            assert(off == (p - root) % 12);
            let mut found = false;
            let mut i: usize = 0;
            while i < intervals.len()
                invariant
                    0 <= i <= intervals@.len(),
                    found == exists|j: int| 0 <= j < i && intervals@[j] == off as u8,
                decreases intervals@.len() - i,
            {
                if intervals[i] == off as u8 {
                    found = true;
                }
                i = i + 1;
            }
            if !found {
                assert(!intervals@.contains(off as u8));
                return false;
            }
        }
        p = p + 1;
    }
    true
}

/// Every (root, scale) pair whose scale holds all of `pitch_classes`, in
/// root-major order, with the names, commonness and absolute pitch set of
/// each.
pub fn matching_scales(pitch_classes: &Vec<bool>) -> (r: Vec<ScaleMatch>)
    requires
        pitch_classes@.len() == 12,
    ensures
        r@.len() == matching_pairs(pitch_classes@).len(),
        forall|a: int| 0 <= a < r@.len() ==> match_is(#[trigger] r@[a], matching_pairs(pitch_classes@)[a]),
{
    let ghost pred = |k: int| fits_all(pitch_classes@, pair_root(k), pair_scale(k));
    let mut out: Vec<ScaleMatch> = Vec::new();
    let mut k: usize = 0;
    while k < PAIR_COUNT
        invariant
            0 <= k <= 420,
            pitch_classes@.len() == 12,
            pred == (|k: int| fits_all(pitch_classes@, pair_root(k), pair_scale(k))),
            out@.len() == select(0, k as int, pred).len(),
            forall|a: int| 0 <= a < out@.len() ==> match_is(#[trigger] out@[a], select(0, k as int, pred)[a]),
        decreases 420 - k,
    {
        let root = k / 35;
        let scale = k % 35;
        let intervals = scale_intervals(scale);
        if fits_all_exec(pitch_classes, root, &intervals) {
            let m = ScaleMatch {
                root_note: root as i32,
                scale_index: scale,
                root_name: NOTE_NAMES[root].to_owned(),
                scale_name: SCALE_NAMES[scale].to_owned(),
                common: is_common(scale),
                pitch_set: pitch_set_of(root, &intervals),
            };
            let ghost prev = select(0, k as int, pred);
            let ghost old_out = out@;
            out.push(m);
            proof {
                assert(select(0, k + 1, pred) == prev.push(k as int));
                assert forall|a: int| 0 <= a < out@.len() implies match_is(#[trigger] out@[a], select(0, k + 1, pred)[a]) by {
                    if a < prev.len() {
                        assert(out@[a] == old_out[a]);
                    }
                }
                assert(out@[out@.len() - 1].pitch_set@ =~= scale_pitch_set(pair_root(k as int), pair_scale(k as int)));
            }
        }
        k = k + 1;
    }
    out
}


// ---------------------------------------------------------------------------
// Tallies over a document
// ---------------------------------------------------------------------------

/// The `MidiClip` nodes of the document, in document order.
pub open spec fn doc_clips(nodes: Seq<NodeV>) -> Seq<int> {
    desc_sel(nodes, 0, Some("MidiClip"@), false)
}

/// Sum over the pitched clips in `clips` that pair `k` matches of their
/// note counts.
pub open spec fn sum_score(nodes: Seq<NodeV>, clips: Seq<int>, k: int) -> int
    decreases clips.len(),
{
    if clips.len() == 0 {
        0
    } else {
        let pcs = clip_pitch_classes_spec(nodes, clips.last());
        sum_score(nodes, clips.drop_last(), k) + if pitched(pcs) && fits_all(pcs, pair_root(k), pair_scale(k)) {
            clip_note_count_spec(nodes, clips.last()) as int
        } else {
            0
        }
    }
}

/// The number of pitched clips in `clips` that pair `k` matches.
pub open spec fn sum_clips(nodes: Seq<NodeV>, clips: Seq<int>, k: int) -> int
    decreases clips.len(),
{
    if clips.len() == 0 {
        0
    } else {
        let pcs = clip_pitch_classes_spec(nodes, clips.last());
        sum_clips(nodes, clips.drop_last(), k) + if pitched(pcs) && fits_all(pcs, pair_root(k), pair_scale(k)) {
            1int
        } else {
            0
        }
    }
}

/// Sum over the clips in `clips` that use pitch class `p` of their note
/// counts: how much the project emphasizes `p`.
pub open spec fn sum_hist(nodes: Seq<NodeV>, clips: Seq<int>, p: int) -> int
    decreases clips.len(),
{
    if clips.len() == 0 {
        0
    } else {
        let pcs = clip_pitch_classes_spec(nodes, clips.last());
        sum_hist(nodes, clips.drop_last(), p) + if pitched(pcs) && pcs[p] {
            clip_note_count_spec(nodes, clips.last()) as int
        } else {
            0
        }
    }
}

/// The number of clips in `clips` with at least one pitched note.
pub open spec fn count_pitched(nodes: Seq<NodeV>, clips: Seq<int>) -> int
    decreases clips.len(),
{
    if clips.len() == 0 {
        0
    } else {
        count_pitched(nodes, clips.drop_last()) + if pitched(clip_pitch_classes_spec(nodes, clips.last())) {
            1int
        } else {
            0
        }
    }
}

/// Every tally over `clips` fits in a `u32`.
pub open spec fn tallies_fit(nodes: Seq<NodeV>, clips: Seq<int>) -> bool {
    &&& forall|k: int| 0 <= k < 420 ==> #[trigger] sum_score(nodes, clips, k) <= u32::MAX && sum_clips(nodes, clips, k) <= u32::MAX
    &&& forall|p: int| 0 <= p < 12 ==> #[trigger] sum_hist(nodes, clips, p) <= u32::MAX
    &&& count_pitched(nodes, clips) <= u32::MAX
}

/// Per-pair scores and clip counts, the project-wide pitch-class
/// histogram, and the number of pitched clips.
#[derive(Debug, Clone)]
pub struct ScaleTallies {
    /// Pair `k`: note-count-weighted score.
    pub score: Vec<u32>,
    /// Pair `k`: number of distinct matching clips.
    pub clip_count: Vec<u32>,
    /// Pitch class `p`: note count of the clips that use it.
    pub histogram: Vec<u32>,
    /// Clips with at least one pitched note.
    pub total_pitched_clips: u32,
}

/// `t` holds exactly the tallies over `clips`.
pub open spec fn tallies_are(t: ScaleTallies, nodes: Seq<NodeV>, clips: Seq<int>) -> bool {
    &&& t.score@.len() == 420
    &&& t.clip_count@.len() == 420
    &&& t.histogram@.len() == 12
    &&& forall|k: int| 0 <= k < 420 ==> #[trigger] t.score@[k] == sum_score(nodes, clips, k)
    &&& forall|k: int| 0 <= k < 420 ==> #[trigger] t.clip_count@[k] == sum_clips(nodes, clips, k)
    &&& forall|p: int| 0 <= p < 12 ==> #[trigger] t.histogram@[p] == sum_hist(nodes, clips, p)
    &&& t.total_pitched_clips == count_pitched(nodes, clips)
}

proof fn lemma_sums_monotone(nodes: Seq<NodeV>, clips: Seq<int>, t: int)
    requires
        0 <= t <= clips.len(),
    ensures
        forall|k: int| #[trigger] sum_score(nodes, clips.take(t), k) <= sum_score(nodes, clips, k),
        forall|k: int| #[trigger] sum_clips(nodes, clips.take(t), k) <= sum_clips(nodes, clips, k),
        forall|p: int| #[trigger] sum_hist(nodes, clips.take(t), p) <= sum_hist(nodes, clips, p),
        count_pitched(nodes, clips.take(t)) <= count_pitched(nodes, clips),
    decreases clips.len() - t,
{
    if t == clips.len() {
        assert(clips.take(t) =~= clips);
    } else {
        lemma_sums_monotone(nodes, clips, t + 1);
        let next = clips.take(t + 1);
        assert(next.drop_last() =~= clips.take(t));
        assert forall|k: int| #[trigger] sum_score(nodes, clips.take(t), k) <= sum_score(nodes, clips, k) by {
            assert(sum_score(nodes, clips.take(t), k) <= sum_score(nodes, next, k));
        }
        assert forall|k: int| #[trigger] sum_clips(nodes, clips.take(t), k) <= sum_clips(nodes, clips, k) by {
            assert(sum_clips(nodes, clips.take(t), k) <= sum_clips(nodes, next, k));
        }
        assert forall|p: int| #[trigger] sum_hist(nodes, clips.take(t), p) <= sum_hist(nodes, clips, p) by {
            assert(sum_hist(nodes, clips.take(t), p) <= sum_hist(nodes, next, p));
        }
        assert(count_pitched(nodes, clips.take(t)) <= count_pitched(nodes, next));
    }
}


/// What one pitched clip with pitch classes `pcs` and `nc` notes adds to
/// the score of pair `k`.
pub open spec fn score_gain(pcs: Seq<bool>, nc: int, k: int) -> int {
    if pitched(pcs) && fits_all(pcs, pair_root(k), pair_scale(k)) {
        nc
    } else {
        0
    }
}

/// What that clip adds to the clip count of pair `k`.
pub open spec fn clip_gain(pcs: Seq<bool>, k: int) -> int {
    if pitched(pcs) && fits_all(pcs, pair_root(k), pair_scale(k)) {
        1
    } else {
        0
    }
}

/// What that clip adds to the histogram entry of pitch class `p`.
pub open spec fn hist_gain(pcs: Seq<bool>, nc: int, p: int) -> int {
    if pitched(pcs) && pcs[p] {
        nc
    } else {
        0
    }
}

/// Adding one clip's gains to `t` keeps every entry within `u32`.
pub open spec fn gains_fit(t: ScaleTallies, pcs: Seq<bool>, nc: int) -> bool {
    &&& forall|k: int| 0 <= k < 420 ==> #[trigger] t.score@[k] + score_gain(pcs, nc, k) <= u32::MAX
    &&& forall|k: int| 0 <= k < 420 ==> #[trigger] t.clip_count@[k] + clip_gain(pcs, k) <= u32::MAX
    &&& forall|p: int| 0 <= p < 12 ==> #[trigger] t.histogram@[p] + hist_gain(pcs, nc, p) <= u32::MAX
    &&& t.total_pitched_clips + 1 <= u32::MAX
}

pub open spec fn tallies_shape(t: ScaleTallies) -> bool {
    &&& t.score@.len() == 420
    &&& t.clip_count@.len() == 420
    &&& t.histogram@.len() == 12
}

/// Adds one pitched clip to the tallies. Returns `false`, with the tallies
/// left in some state, when an entry would overflow `u32`.
fn tally_clip(t: &mut ScaleTallies, pcs: &Vec<bool>, nc: u32) -> (ok: bool)
    requires
        tallies_shape(*old(t)),
        pcs@.len() == 12,
        pitched(pcs@),
    ensures
        tallies_shape(*final(t)),
        ok == gains_fit(*old(t), pcs@, nc as int),
        ok ==> forall|k: int| 0 <= k < 420 ==> #[trigger] final(t).score@[k] == old(t).score@[k] + score_gain(pcs@, nc as int, k),
        ok ==> forall|k: int| 0 <= k < 420 ==> #[trigger] final(t).clip_count@[k] == old(t).clip_count@[k] + clip_gain(pcs@, k),
        ok ==> forall|p: int| 0 <= p < 12 ==> #[trigger] final(t).histogram@[p] == old(t).histogram@[p] + hist_gain(pcs@, nc as int, p),
        ok ==> final(t).total_pitched_clips == old(t).total_pitched_clips + 1,
{
    let ghost t0 = *t;
    let ghost pv = pcs@;
    assert(t0 == *old(t));
    if t.total_pitched_clips == u32::MAX {
        return false;
    }
    t.total_pitched_clips = t.total_pitched_clips + 1;
    let mut p: usize = 0;
    while p < 12
        invariant
            0 <= p <= 12,
            t0 == *old(t),
            pv == pcs@,
            pcs@.len() == 12,
            pitched(pv),
            tallies_shape(*t),
            t.score@ == t0.score@,
            t.clip_count@ == t0.clip_count@,
            t.total_pitched_clips == t0.total_pitched_clips + 1,
            forall|q: int| 0 <= q < p ==> #[trigger] t0.histogram@[q] + hist_gain(pv, nc as int, q) <= u32::MAX,
            forall|q: int| 0 <= q < 12 ==> #[trigger] t.histogram@[q] == t0.histogram@[q] + if q < p { hist_gain(pv, nc as int, q) } else { 0 },
        decreases 12 - p,
    {
        if pcs[p] {
            let cur = t.histogram[p];
            match cur.checked_add(nc) {
                Some(v) => {
                    t.histogram.set(p, v);
                },
                None => {
                    assert(!gains_fit(t0, pv, nc as int)) by {
                        assert(t0.histogram@[p as int] + hist_gain(pv, nc as int, p as int) > u32::MAX);
                    }
                    return false;
                },
            }
        }
        p = p + 1;
    }
    let ms = matching_scales(pcs);
    let ghost mp = matching_pairs(pv);
    proof {
        lemma_select_props(0, 420, |k: int| fits_all(pv, pair_root(k), pair_scale(k)));
    }
    let mut a: usize = 0;
    while a < ms.len()
        invariant
            0 <= a <= ms@.len(),
            t0 == *old(t),
            pv == pcs@,
            pitched(pv),
            mp == matching_pairs(pv),
            ms@.len() == mp.len(),
            forall|j: int| 0 <= j < ms@.len() ==> match_is(#[trigger] ms@[j], mp[j]),
            forall|j: int| 0 <= j < mp.len() ==> 0 <= #[trigger] mp[j] < 420 && fits_all(pv, pair_root(mp[j]), pair_scale(mp[j])),
            forall|i: int, j: int| 0 <= i < j < mp.len() ==> #[trigger] mp[i] < #[trigger] mp[j],
            tallies_shape(*t),
            t.total_pitched_clips == t0.total_pitched_clips + 1,
            forall|q: int| 0 <= q < 12 ==> #[trigger] t.histogram@[q] == t0.histogram@[q] + hist_gain(pv, nc as int, q),
            forall|q: int| 0 <= q < 12 ==> #[trigger] t0.histogram@[q] + hist_gain(pv, nc as int, q) <= u32::MAX,
            t0.total_pitched_clips + 1 <= u32::MAX,
            forall|j: int| 0 <= j < a ==> #[trigger] t0.score@[mp[j]] + nc <= u32::MAX && t0.clip_count@[mp[j]] + 1 <= u32::MAX,
            forall|k: int| 0 <= k < 420 ==> #[trigger] t.score@[k] == t0.score@[k] + if (exists|j: int| 0 <= j < a && mp[j] == k) { nc as int } else { 0 },
            forall|k: int| 0 <= k < 420 ==> #[trigger] t.clip_count@[k] == t0.clip_count@[k] + if (exists|j: int| 0 <= j < a && mp[j] == k) { 1int } else { 0 },
        decreases ms@.len() - a,
    {
        let ghost k0 = mp[a as int];
        assert(match_is(ms@[a as int], k0));
        let root = ms[a].root_note;
        let k: usize = (root as usize) * 35 + ms[a].scale_index;
        assert(k == k0);
        assert(!(exists|j: int| 0 <= j < a && mp[j] == k0));
        let sc = t.score[k];
        let cc = t.clip_count[k];
        if sc > u32::MAX - nc || cc == u32::MAX {
            assert(!gains_fit(t0, pv, nc as int)) by {
                assert(score_gain(pv, nc as int, k0) == nc);
                assert(clip_gain(pv, k0) == 1);
                assert(t0.score@[k0] + score_gain(pv, nc as int, k0) > u32::MAX
                    || t0.clip_count@[k0] + clip_gain(pv, k0) > u32::MAX);
            }
            return false;
        }
        let ghost old_score = t.score@;
        let ghost old_cc = t.clip_count@;
        t.score.set(k, sc + nc);
        t.clip_count.set(k, cc + 1);
        assert forall|kk: int| 0 <= kk < 420 implies #[trigger] t.score@[kk] == t0.score@[kk] + if (exists|j: int| 0 <= j < a + 1 && mp[j] == kk) { nc as int } else { 0 } by {
            if kk == k0 {
                assert(mp[a as int] == kk);
            } else {
                assert(t.score@[kk] == old_score[kk]);
                if exists|j: int| 0 <= j < a + 1 && mp[j] == kk {
                    let j = choose|j: int| 0 <= j < a + 1 && mp[j] == kk;
                    assert(j < a);
                }
            }
        }
        assert forall|kk: int| 0 <= kk < 420 implies #[trigger] t.clip_count@[kk] == t0.clip_count@[kk] + if (exists|j: int| 0 <= j < a + 1 && mp[j] == kk) { 1int } else { 0 } by {
            if kk == k0 {
                assert(mp[a as int] == kk);
            } else {
                assert(t.clip_count@[kk] == old_cc[kk]);
                if exists|j: int| 0 <= j < a + 1 && mp[j] == kk {
                    let j = choose|j: int| 0 <= j < a + 1 && mp[j] == kk;
                    assert(j < a);
                }
            }
        }
        a = a + 1;
    }
    proof {
        assert forall|k: int| 0 <= k < 420 implies (exists|j: int| 0 <= j < mp.len() && mp[j] == k) == fits_all(pv, pair_root(k), pair_scale(k)) by {
            lemma_select_contains(0, 420, |k: int| fits_all(pv, pair_root(k), pair_scale(k)), k);
        }
        assert forall|k: int| 0 <= k < 420 implies #[trigger] t0.score@[k] + score_gain(pv, nc as int, k) <= u32::MAX by {
            if fits_all(pv, pair_root(k), pair_scale(k)) {
                let j = choose|j: int| 0 <= j < mp.len() && mp[j] == k;
                assert(t0.score@[mp[j]] + nc <= u32::MAX);
            }
        }
        assert forall|k: int| 0 <= k < 420 implies #[trigger] t0.clip_count@[k] + clip_gain(pv, k) <= u32::MAX by {
            if fits_all(pv, pair_root(k), pair_scale(k)) {
                let j = choose|j: int| 0 <= j < mp.len() && mp[j] == k;
                assert(t0.score@[mp[j]] + nc <= u32::MAX);
            }
        }
    }
    true
}


/// One more clip changes each sum by that clip's gain.
proof fn lemma_tally_step(nodes: Seq<NodeV>, clips: Seq<int>, i: int)
    requires
        0 <= i < clips.len(),
    ensures
        ({
            let pcs = clip_pitch_classes_spec(nodes, clips[i]);
            let nc = clip_note_count_spec(nodes, clips[i]) as int;
            &&& forall|k: int| #[trigger] sum_score(nodes, clips.take(i + 1), k) == sum_score(nodes, clips.take(i), k) + score_gain(pcs, nc, k)
            &&& forall|k: int| #[trigger] sum_clips(nodes, clips.take(i + 1), k) == sum_clips(nodes, clips.take(i), k) + clip_gain(pcs, k)
            &&& forall|p: int| #[trigger] sum_hist(nodes, clips.take(i + 1), p) == sum_hist(nodes, clips.take(i), p) + hist_gain(pcs, nc, p)
            &&& count_pitched(nodes, clips.take(i + 1)) == count_pitched(nodes, clips.take(i)) + if pitched(pcs) { 1int } else { 0 }
        }),
{
    let next = clips.take(i + 1);
    assert(next.drop_last() =~= clips.take(i));
    assert(next.last() == clips[i]);
}

fn any_pitched(pcs: &Vec<bool>) -> (r: bool)
    requires
        pcs@.len() == 12,
    ensures
        r == pitched(pcs@),
{
    let mut p: usize = 0;
    while p < 12
        invariant
            0 <= p <= 12,
            pcs@.len() == 12,
            forall|q: int| 0 <= q < p ==> !#[trigger] pcs@[q],
        decreases 12 - p,
    {
        if pcs[p] {
            return true;
        }
        p = p + 1;
    }
    false
}

/// Tallies every `MidiClip` of the document: for each (root, scale) pair
/// the note-count-weighted score and the number of pitched clips it holds
/// completely, the note count behind each pitch class, and the number of
/// pitched clips. Fails with `CountOverflow` exactly when one of these
/// does not fit in a `u32`.
pub fn extract_tallies(doc: &XmlDoc) -> (r: Result<ScaleTallies, AlsError>)
    ensures
        match r {
            Ok(t) => tallies_fit(doc@.nodes, doc_clips(doc@.nodes)) && tallies_are(t, doc@.nodes, doc_clips(doc@.nodes)),
            Err(e) => !tallies_fit(doc@.nodes, doc_clips(doc@.nodes)) && e == AlsError::CountOverflow,
        },
{
    let ghost nodes = doc@.nodes;
    let n = doc.node_count();
    let clips = doc.desc_select(0, Some("MidiClip"), false);
    let ghost cv = idx_view(clips@);
    proof {
        lemma_select_props(0, nodes.len() as int, desc_pred(nodes, 0, Some("MidiClip"@), false));
        assert(cv == doc_clips(nodes));
    }
    let mut t = ScaleTallies {
        score: vec![0u32; 420],
        clip_count: vec![0u32; 420],
        histogram: vec![0u32; 12],
        total_pitched_clips: 0,
    };
    proof {
        assert(cv.take(0) =~= Seq::<int>::empty());
    }
    let mut i: usize = 0;
    while i < clips.len()
        invariant
            0 <= i <= clips@.len(),
            nodes == doc@.nodes,
            cv == idx_view(clips@),
            cv == doc_clips(nodes),
            cv.len() == clips@.len(),
            forall|a: int| 0 <= a < cv.len() ==> 0 <= #[trigger] cv[a] < nodes.len(),
            tallies_are(t, nodes, cv.take(i as int)),
        decreases clips@.len() - i,
    {
        let c = clips[i];
        assert(cv[i as int] == c as int);
        let pcs = clip_pitch_classes(doc, c);
        proof {
            lemma_tally_step(nodes, cv, i as int);
        }
        if any_pitched(&pcs) {
            let nc = clip_note_count(doc, c);
            let ghost t_old = t;
            let ok = tally_clip(&mut t, &pcs, nc);
            if !ok {
                proof {
                    lemma_sums_monotone(nodes, cv, i + 1);
                    if tallies_fit(nodes, cv) {
                        assert forall|k: int| 0 <= k < 420 implies #[trigger] t_old.score@[k] + score_gain(pcs@, nc as int, k) <= u32::MAX by {
                            assert(sum_score(nodes, cv.take(i + 1), k) <= sum_score(nodes, cv, k));
                        }
                        assert forall|k: int| 0 <= k < 420 implies #[trigger] t_old.clip_count@[k] + clip_gain(pcs@, k) <= u32::MAX by {
                            assert(sum_score(nodes, cv, k) <= u32::MAX);
                            assert(sum_clips(nodes, cv.take(i + 1), k) <= sum_clips(nodes, cv, k));
                        }
                        assert forall|p: int| 0 <= p < 12 implies #[trigger] t_old.histogram@[p] + hist_gain(pcs@, nc as int, p) <= u32::MAX by {
                            assert(sum_hist(nodes, cv.take(i + 1), p) <= sum_hist(nodes, cv, p));
                        }
                        assert(gains_fit(t_old, pcs@, nc as int));
                    }
                }
                return Err(AlsError::CountOverflow);
            }
        }
        proof {
            let pv = clip_pitch_classes_spec(nodes, cv[i as int]);
            assert(pcs@ == pv);
            if !pitched(pv) {
                assert forall|k: int| 0 <= k < 420 implies #[trigger] t.score@[k] == sum_score(nodes, cv.take(i + 1), k) by {}
                assert forall|k: int| 0 <= k < 420 implies #[trigger] t.clip_count@[k] == sum_clips(nodes, cv.take(i + 1), k) by {}
                assert forall|p: int| 0 <= p < 12 implies #[trigger] t.histogram@[p] == sum_hist(nodes, cv.take(i + 1), p) by {}
            }
        }
        i = i + 1;
    }
    proof {
        assert(cv.take(cv.len() as int) =~= cv);
        assert forall|k: int| 0 <= k < 420 implies #[trigger] sum_score(nodes, cv, k) <= u32::MAX && sum_clips(nodes, cv, k) <= u32::MAX by {
            assert(t.score@[k] == sum_score(nodes, cv, k));
            assert(t.clip_count@[k] == sum_clips(nodes, cv, k));
        }
        assert forall|p: int| 0 <= p < 12 implies #[trigger] sum_hist(nodes, cv, p) <= u32::MAX by {
            assert(t.histogram@[p] == sum_hist(nodes, cv, p));
        }
    }
    Ok(t)
}


// ---------------------------------------------------------------------------
// Candidates as presented
// ---------------------------------------------------------------------------

/// A (root, scale) pair with exactly the same notes as a candidate.
#[derive(Debug, Clone)]
pub struct ScaleAlternate {
    pub root_name: String,
    pub scale_name: String,
}

/// One group of matched pairs that share their notes, labelled by its
/// likeliest tonic.
#[derive(Debug, Clone)]
pub struct ScaleCandidate {
    pub root_name: String,
    pub scale_name: String,
    /// True for a common Western scale or mode, false for an exotic one.
    pub common: bool,
    /// Note-count-weighted score of the labelling pair.
    pub score: u32,
    /// Number of pitched clips the labelling pair matches.
    pub clip_count: u32,
    /// Percentage of the project's pitched clips that this scale matches.
    pub coverage_percent: u32,
    /// The other pairs with the same notes, likeliest tonic first.
    pub alternates: Vec<ScaleAlternate>,
}

/// Every candidate of a project, best first.
#[derive(Debug, Clone, Default)]
pub struct ScaleCandidates {
    pub scales: Vec<ScaleCandidate>,
}


/// The tallies of a document are determined by it: two tallies of the
/// same clips agree entry by entry.
pub proof fn lemma_tallies_determined(t1: ScaleTallies, t2: ScaleTallies, nodes: Seq<NodeV>, clips: Seq<int>)
    requires
        tallies_are(t1, nodes, clips),
        tallies_are(t2, nodes, clips),
    ensures
        t1.score@ == t2.score@,
        t1.clip_count@ == t2.clip_count@,
        t1.histogram@ == t2.histogram@,
        t1.total_pitched_clips == t2.total_pitched_clips,
{
    assert(t1.score@ =~= t2.score@);
    assert(t1.clip_count@ =~= t2.clip_count@);
    assert(t1.histogram@ =~= t2.histogram@);
}

} // verus!
