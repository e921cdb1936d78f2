use vstd::prelude::*;

use crate::error::AlsError;
use crate::paths::{file_name_of, path_file_name};
use crate::text::{
    contains_chars, ends_with, ends_with_chars, has_substring, lowercase, push_str, str_chars, str_eq,
    string_from_chars, to_lowercase,
};
use crate::xml::{
    attr_value, child_pred, child_sel, first_child_named, first_child_named_exec, first_desc_named,
    first_desc_named_exec, first_of, idx_view, lemma_select_props, opt_string_view, select, NodeV, XmlDoc,
};

verus! {

/// Coarse track grouping derived from a track's name or, when available,
/// its Live Database tags. `Other` is an ordinary outcome, not an error.
#[derive(Debug, Clone, Copy, PartialEq, Eq, Structural)]
pub enum TrackCategory {
    Drums,
    Bass,
    Percussion,
    Vocals,
    Lead,
    Pads,
    Fx,
    Other,
}

/// Keywords of each category, in the fixed priority order of the
/// categories: earlier categories are checked first, so a track named
/// "Bass Drums" lands in Drums. Names match a keyword as a substring, Live
/// Database tags match it exactly.
pub const DRUM_KEYWORDS: [&'static str; 8] = [
    "drum", "drums", "kit", "kick", "drum loop", "snare", "hihat", "hi-hat",
];

pub const BASS_KEYWORDS: [&'static str; 2] = ["bass", "sub"];

pub const PERCUSSION_KEYWORDS: [&'static str; 2] = ["perc", "percussion"];

pub const VOCAL_KEYWORDS: [&'static str; 4] = ["vox", "vocal", "vocals", "solo voice"];

pub const LEAD_KEYWORDS: [&'static str; 2] = ["lead", "melody"];

pub const PAD_KEYWORDS: [&'static str; 3] = ["pad", "pads", "atmos"];

pub const FX_KEYWORDS: [&'static str; 3] = ["fx", "sfx", "riser"];

/// The number of categories with keywords (all but `Other`).
pub const KEYWORD_CATEGORIES: usize = 7;

/// The category checked in position `i` of the priority order.
pub open spec fn ranked_category(i: int) -> TrackCategory {
    if i == 0 {
        TrackCategory::Drums
    } else if i == 1 {
        TrackCategory::Bass
    } else if i == 2 {
        TrackCategory::Percussion
    } else if i == 3 {
        TrackCategory::Vocals
    } else if i == 4 {
        TrackCategory::Lead
    } else if i == 5 {
        TrackCategory::Pads
    } else if i == 6 {
        TrackCategory::Fx
    } else {
        TrackCategory::Other
    }
}

/// The keywords of the category in position `i`.
pub open spec fn category_keywords(i: int) -> Seq<&'static str> {
    if i == 0 {
        DRUM_KEYWORDS@
    } else if i == 1 {
        BASS_KEYWORDS@
    } else if i == 2 {
        PERCUSSION_KEYWORDS@
    } else if i == 3 {
        VOCAL_KEYWORDS@
    } else if i == 4 {
        LEAD_KEYWORDS@
    } else if i == 5 {
        PAD_KEYWORDS@
    } else if i == 6 {
        FX_KEYWORDS@
    } else {
        Seq::empty()
    }
}

/// The category of the first position from `i` on that `hit` accepts.
pub open spec fn first_hit(hit: spec_fn(int) -> bool, i: int) -> Option<TrackCategory>
    decreases 7 - i,
{
    if i >= 7 || i < 0 {
        None
    } else if hit(i) {
        Some(ranked_category(i))
    } else {
        first_hit(hit, i + 1)
    }
}

/// Some keyword of category `i` occurs in the lower-cased name `lower`.
pub open spec fn name_hits(lower: Seq<char>, i: int) -> bool {
    exists|j: int| 0 <= j < category_keywords(i).len() && has_substring(lower, #[trigger] category_keywords(i)[j]@)
}

/// The category of a track whose lower-cased name is `lower`.
pub open spec fn category_of_lowered_name(lower: Seq<char>) -> TrackCategory {
    match first_hit(|i: int| name_hits(lower, i), 0) {
        Some(c) => c,
        None => TrackCategory::Other,
    }
}

/// Some lower-cased tag equals a keyword of category `i`.
pub open spec fn tags_hit(lower: Seq<Seq<char>>, i: int) -> bool {
    exists|j: int, t: int|
        0 <= j < category_keywords(i).len() && 0 <= t < lower.len() && #[trigger] lower[t] == #[trigger] category_keywords(i)[j]@
}

/// The category given by lower-cased tags, if any tag names one.
pub open spec fn category_of_lowered_tags(lower: Seq<Seq<char>>) -> Option<TrackCategory> {
    first_hit(|i: int| tags_hit(lower, i), 0)
}

pub open spec fn lowered_tags(tags: Seq<String>) -> Seq<Seq<char>> {
    tags.map_values(|t: String| lowercase(t@))
}

proof fn lemma_first_hit_skip(hit: spec_fn(int) -> bool, i: int)
    requires
        0 <= i < 7,
        !hit(i),
    ensures
        first_hit(hit, i) == first_hit(hit, i + 1),
{
}

fn category_at(i: usize) -> (r: TrackCategory)
    requires
        i < 7,
    ensures
        r == ranked_category(i as int),
{
    match i {
        0 => TrackCategory::Drums,
        1 => TrackCategory::Bass,
        2 => TrackCategory::Percussion,
        3 => TrackCategory::Vocals,
        4 => TrackCategory::Lead,
        5 => TrackCategory::Pads,
        _ => TrackCategory::Fx,
    }
}

fn keywords(i: usize) -> (r: &'static [&'static str])
    requires
        i < 7,
    ensures
        r@ == category_keywords(i as int),
{
    match i {
        0 => &DRUM_KEYWORDS,
        1 => &BASS_KEYWORDS,
        2 => &PERCUSSION_KEYWORDS,
        3 => &VOCAL_KEYWORDS,
        4 => &LEAD_KEYWORDS,
        5 => &PAD_KEYWORDS,
        _ => &FX_KEYWORDS,
    }
}

/// The category of a track whose name, already lower-cased, is `lower`:
/// the first category in priority order with a keyword that occurs in it,
/// else `Other`.
pub fn categorize_lowered_name(lower: &str) -> (r: TrackCategory)
    ensures
        r == category_of_lowered_name(lower@),
{
    let ghost hit = |i: int| name_hits(lower@, i);
    let chars = str_chars(lower);
    let mut i: usize = 0;
    while i < KEYWORD_CATEGORIES
        invariant
            0 <= i <= 7,
            chars@ == lower@,
            hit == (|i: int| name_hits(lower@, i)),
            first_hit(hit, 0) == first_hit(hit, i as int),
        decreases 7 - i,
    {
        let kws = keywords(i);
        let mut j: usize = 0;
        while j < kws.len()
            invariant
                0 <= j <= kws@.len(),
                i < 7,
                kws@ == category_keywords(i as int),
                chars@ == lower@,
                hit == (|i: int| name_hits(lower@, i)),
                first_hit(hit, 0) == first_hit(hit, i as int),
                forall|m: int| 0 <= m < j ==> !has_substring(lower@, #[trigger] category_keywords(i as int)[m]@),
            decreases kws@.len() - j,
        {
            let kw = str_chars(kws[j]);
            assert(kw@ == category_keywords(i as int)[j as int]@);
            if contains_chars(&chars, &kw) {
                assert(name_hits(lower@, i as int));
                return category_at(i);
            }
            j = j + 1;
        }
        proof {
            lemma_first_hit_skip(hit, i as int);
        }
        i = i + 1;
    }
    TrackCategory::Other
}

/// Fallback categorization by name: lower-cases `track_name` and takes the
/// first category in priority order with a keyword that occurs in it, else
/// `Other`.
pub fn categorize_by_name(track_name: &str) -> (r: TrackCategory)
    ensures
        r == category_of_lowered_name(lowercase(track_name@)),
{
    let lower = to_lowercase(track_name);
    categorize_lowered_name(lower.as_str())
}

/// The category named by tags that are already lower-cased: the first
/// category in priority order with a keyword equal to some tag.
pub fn categorize_lowered_tags(lower: &Vec<String>) -> (r: Option<TrackCategory>)
    ensures
        r == category_of_lowered_tags(lower@.map_values(|t: String| t@)),
{
    let ghost lv = lower@.map_values(|t: String| t@);
    let ghost hit = |i: int| tags_hit(lv, i);
    let mut i: usize = 0;
    while i < KEYWORD_CATEGORIES
        invariant
            0 <= i <= 7,
            lv == lower@.map_values(|t: String| t@),
            hit == (|i: int| tags_hit(lv, i)),
            first_hit(hit, 0) == first_hit(hit, i as int),
        decreases 7 - i,
    {
        let kws = keywords(i);
        let mut j: usize = 0;
        while j < kws.len()
            invariant
                0 <= j <= kws@.len(),
                i < 7,
                kws@ == category_keywords(i as int),
                lv == lower@.map_values(|t: String| t@),
                hit == (|i: int| tags_hit(lv, i)),
                first_hit(hit, 0) == first_hit(hit, i as int),
                forall|m: int, t: int|
                    0 <= m < j && 0 <= t < lv.len() ==> #[trigger] lv[t] != #[trigger] category_keywords(i as int)[m]@,
            decreases kws@.len() - j,
        {
            let mut t: usize = 0;
            while t < lower.len()
                invariant
                    0 <= t <= lower@.len(),
                    0 <= j < kws@.len(),
                    i < 7,
                    kws@ == category_keywords(i as int),
                    lv == lower@.map_values(|t: String| t@),
                    hit == (|i: int| tags_hit(lv, i)),
                    first_hit(hit, 0) == first_hit(hit, i as int),
                    forall|m: int, u: int|
                        0 <= m < j && 0 <= u < lv.len() ==> #[trigger] lv[u] != #[trigger] category_keywords(i as int)[m]@,
                    forall|u: int| 0 <= u < t ==> #[trigger] lv[u] != category_keywords(i as int)[j as int]@,
                decreases lower@.len() - t,
            {
                if str_eq(lower[t].as_str(), kws[j]) {
                    assert(lv[t as int] == category_keywords(i as int)[j as int]@);
                    assert(tags_hit(lv, i as int));
                    return Some(category_at(i));
                }
                t = t + 1;
            }
            j = j + 1;
        }
        proof {
            lemma_first_hit_skip(hit, i as int);
        }
        i = i + 1;
    }
    None
}

/// Maps Live Database tags to a category with the same keyword table as
/// [`categorize_by_name`], by exact equality of the lower-cased tag. `None`
/// means no tag matched.
pub fn categorize_by_db_tags(tags: &[String]) -> (r: Option<TrackCategory>)
    ensures
        r == category_of_lowered_tags(lowered_tags(tags@)),
{
    let mut lower: Vec<String> = Vec::new();
    let mut i: usize = 0;
    while i < tags.len()
        invariant
            0 <= i <= tags@.len(),
            lower@.len() == i,
            forall|k: int| 0 <= k < i ==> #[trigger] lower@[k]@ == lowercase(tags@[k]@),
        decreases tags@.len() - i,
    {
        lower.push(to_lowercase(tags[i].as_str()));
        i = i + 1;
    }
    assert(lower@.map_values(|t: String| t@) =~= lowered_tags(tags@));
    categorize_lowered_tags(&lower)
}


// ---------------------------------------------------------------------------
// Tracks of a document
// ---------------------------------------------------------------------------

/// One track's name, kind ("Midi", "Audio", "Group", ...) and category.
#[derive(Debug, Clone)]
pub struct TrackSummary {
    pub name: String,
    pub kind: String,
    pub category: TrackCategory,
}

/// The first `Tracks` node of the document.
pub open spec fn tracks_node(nodes: Seq<NodeV>) -> Option<int> {
    first_desc_named(nodes, 0, "Tracks"@)
}

/// The element children of `Tracks` node `tn` that are not return tracks,
/// in document order.
pub open spec fn listed_tracks(nodes: Seq<NodeV>, tn: int) -> Seq<int> {
    child_sel(nodes, tn, None, true).filter(|k: int| nodes[k].name != "ReturnTrack"@)
}

/// The first entry of `s` that passes `pred`.
pub open spec fn first_passing(s: Seq<int>, pred: spec_fn(int) -> bool) -> Option<int>
    decreases s.len(),
{
    if s.len() == 0 {
        None
    } else if pred(s[0]) {
        Some(s[0])
    } else {
        first_passing(s.drop_first(), pred)
    }
}

/// The `Value` of the `Path` child of node `f`.
pub open spec fn path_value(nodes: Seq<NodeV>, f: int) -> Option<Seq<char>> {
    match first_child_named(nodes, f, "Path"@) {
        Some(p) => attr_value(nodes[p].attrs, "Value"@),
        None => None,
    }
}

/// A track's displayed name: its `Name` child's `EffectiveName` child's
/// `Value`, or empty.
pub open spec fn effective_name_spec(nodes: Seq<NodeV>, track: int) -> Seq<char> {
    match first_child_named(nodes, track, "Name"@) {
        Some(n) => match first_child_named(nodes, n, "EffectiveName"@) {
            Some(e) => match attr_value(nodes[e].attrs, "Value"@) {
                Some(v) => v,
                None => Seq::empty(),
            },
            None => Seq::empty(),
        },
        None => Seq::empty(),
    }
}

pub open spec fn track_word() -> Seq<char> {
    seq!['T', 'r', 'a', 'c', 'k']
}

/// `s` with every trailing "Track" removed (`trim_end_matches("Track")`).
pub open spec fn trim_track_suffix(s: Seq<char>) -> Seq<char>
    decreases s.len(),
{
    if s.len() >= 5 && ends_with(s, track_word()) {
        trim_track_suffix(s.take(s.len() - 5))
    } else {
        s
    }
}

/// The file name of the sample a `SampleRef` node plays: its `FileRef`
/// child's `Path` child's `Value`, reduced to the file name.
pub open spec fn sample_ref_name(nodes: Seq<NodeV>, r: int) -> Option<Seq<char>> {
    match first_child_named(nodes, r, "FileRef"@) {
        Some(f) => match path_value(nodes, f) {
            Some(v) => path_file_name(v),
            None => None,
        },
        None => None,
    }
}

/// The sample file names of the `SampleRef` nodes `refs`, skipping those
/// without one.
pub open spec fn sample_names(nodes: Seq<NodeV>, refs: Seq<int>) -> Seq<Seq<char>>
    decreases refs.len(),
{
    if refs.len() == 0 {
        Seq::empty()
    } else {
        sample_names(nodes, refs.drop_last()) + match sample_ref_name(nodes, refs.last()) {
            Some(n) => seq![n],
            None => Seq::empty(),
        }
    }
}

/// Every sample file name that track `track` references.
pub open spec fn sample_filenames_spec(nodes: Seq<NodeV>, track: int) -> Seq<Seq<char>> {
    sample_names(nodes, crate::xml::desc_sel(nodes, track, Some("SampleRef"@), false))
}

/// Live's built-in MIDI effect devices, which sit before the instrument in
/// a MIDI track's device chain.
pub const MIDI_EFFECT_DEVICE_TAGS: [&'static str; 8] = [
    "MidiArpeggiator",
    "MidiChord",
    "MidiScale",
    "MidiPitcher",
    "MidiRandom",
    "MidiVelocity",
    "MidiNoteLength",
    "MidiEffectGroupDevice",
];

pub open spec fn is_midi_effect(name: Seq<char>) -> bool {
    exists|j: int| 0 <= j < 8 && #[trigger] MIDI_EFFECT_DEVICE_TAGS@[j]@ == name
}

/// A MIDI track's instrument: the first element child of its first
/// `Devices` node that is not a MIDI effect.
pub open spec fn instrument_device_spec(nodes: Seq<NodeV>, track: int) -> Option<int> {
    match first_desc_named(nodes, track, "Devices"@) {
        Some(d) => first_passing(child_sel(nodes, d, None, true), |k: int| !is_midi_effect(nodes[k].name)),
        None => None,
    }
}

/// The file that identifies an instrument device: a `Simpler`'s own sample,
/// any other device's saved preset file (`LastPresetRef` > `FilePresetRef`);
/// none for a factory-default preset.
pub open spec fn instrument_tag_filename_spec(nodes: Seq<NodeV>, device: int) -> Option<Seq<char>> {
    let source = if nodes[device].name == "OriginalSimpler"@ {
        first_desc_named(nodes, device, "SampleRef"@)
    } else {
        match first_child_named(nodes, device, "LastPresetRef"@) {
            Some(l) => first_desc_named(nodes, l, "FilePresetRef"@),
            None => None,
        }
    };
    match source {
        Some(src) => match first_desc_named(nodes, src, "FileRef"@) {
            Some(f) => match path_value(nodes, f) {
                Some(v) => path_file_name(v),
                None => None,
            },
            None => None,
        },
        None => None,
    }
}

/// The file names to look a track up by in the Live Database: a MIDI
/// track's instrument file, any other track's samples.
pub open spec fn tag_filenames_spec(nodes: Seq<NodeV>, track: int) -> Seq<Seq<char>> {
    if nodes[track].name == "MidiTrack"@ {
        match instrument_device_spec(nodes, track) {
            Some(d) => match instrument_tag_filename_spec(nodes, d) {
                Some(n) => seq![n],
                None => Seq::empty(),
            },
            None => Seq::empty(),
        }
    } else {
        sample_filenames_spec(nodes, track)
    }
}

fn path_value_exec(doc: &XmlDoc, f: usize) -> (r: Option<String>)
    requires
        f < doc@.nodes.len(),
    ensures
        opt_string_view(r) == path_value(doc@.nodes, f as int),
{
    match first_child_named_exec(doc, f, "Path") {
        Some(p) => doc.attribute(p, "Value"),
        None => None,
    }
}

/// A track's displayed name (`Name` > `EffectiveName` > `Value`), or empty.
pub fn effective_name(doc: &XmlDoc, track: usize) -> (r: String)
    requires
        track < doc@.nodes.len(),
    ensures
        r@ == effective_name_spec(doc@.nodes, track as int),
{
    match first_child_named_exec(doc, track, "Name") {
        Some(n) => match first_child_named_exec(doc, n, "EffectiveName") {
            Some(e) => match doc.attribute(e, "Value") {
                Some(v) => v,
                None => String::new(),
            },
            None => String::new(),
        },
        None => String::new(),
    }
}

/// A track's kind: its tag name with every trailing "Track" removed
/// (`MidiTrack` -> `Midi`).
pub fn track_kind(doc: &XmlDoc, track: usize) -> (r: String)
    requires
        track < doc@.nodes.len(),
    ensures
        r@ == trim_track_suffix(doc@.nodes[track as int].name),
{
    let node = doc.node(track);
    let mut chars = str_chars(node.name.as_str());
    let suffix = str_chars("Track");
    proof {
        reveal_strlit("Track");
        assert(suffix@ =~= track_word());
    }
    while ends_with_chars(&chars, &suffix)
        invariant
            suffix@ == track_word(),
            trim_track_suffix(chars@) == trim_track_suffix(doc@.nodes[track as int].name),
        decreases chars@.len(),
    {
        let ghost before = chars@;
        let keep = chars.len() - 5;
        chars.truncate(keep);
        assert(chars@ =~= before.take(before.len() - 5));
    }
    string_from_chars(&chars)
}


fn is_midi_effect_exec(name: &str) -> (r: bool)
    ensures
        r == is_midi_effect(name@),
{
    let mut j: usize = 0;
    while j < 8
        invariant
            0 <= j <= 8,
            forall|m: int| 0 <= m < j ==> #[trigger] MIDI_EFFECT_DEVICE_TAGS@[m]@ != name@,
        decreases 8 - j,
    {
        if str_eq(MIDI_EFFECT_DEVICE_TAGS[j], name) {
            return true;
        }
        j = j + 1;
    }
    false
}

/// A MIDI track's instrument device: the first element child of its first
/// `Devices` node that is not a MIDI effect.
pub fn instrument_device(doc: &XmlDoc, track: usize) -> (r: Option<usize>)
    requires
        track < doc@.nodes.len(),
    ensures
        r matches Some(d) ==> d < doc@.nodes.len(),
        match r {
            Some(d) => instrument_device_spec(doc@.nodes, track as int) == Some(d as int),
            None => instrument_device_spec(doc@.nodes, track as int) is None,
        },
{
    let ghost nodes = doc@.nodes;
    let d = match first_desc_named_exec(doc, track, "Devices") {
        Some(d) => d,
        None => {
            return None;
        },
    };
    let kids = doc.child_select(d, None, true);
    let ghost kv = idx_view(kids@);
    let ghost pred = |k: int| !is_midi_effect(nodes[k].name);
    proof {
        lemma_select_props(0, nodes.len() as int, child_pred(nodes, d as int, None, true));
        assert(kv.skip(0) =~= kv);
    }
    let mut i: usize = 0;
    while i < kids.len()
        invariant
            0 <= i <= kids@.len(),
            nodes == doc@.nodes,
            kv == idx_view(kids@),
            kv == child_sel(nodes, d as int, None, true),
            forall|a: int| 0 <= a < kv.len() ==> 0 <= #[trigger] kv[a] < nodes.len(),
            pred == (|k: int| !is_midi_effect(nodes[k].name)),
            instrument_device_spec(nodes, track as int) == first_passing(kv, pred),
            first_passing(kv, pred) == first_passing(kv.skip(i as int), pred),
        decreases kids@.len() - i,
    {
        let k = kids[i];
        assert(kv[i as int] == k as int);
        assert(kv.skip(i as int)[0] == k as int);
        let node = doc.node(k);
        assert(node.name@ == nodes[k as int].name);
        if !is_midi_effect_exec(node.name.as_str()) {
            assert(pred(k as int));
            return Some(k);
        }
        assert(kv.skip(i as int).drop_first() =~= kv.skip(i + 1));
        i = i + 1;
    }
    None
}

/// The file that identifies instrument device `device` in the Live
/// Database: a `Simpler`'s wrapped sample, any other device's saved preset
/// file; none for a factory-default preset.
pub fn instrument_tag_filename(doc: &XmlDoc, device: usize) -> (r: Option<String>)
    requires
        device < doc@.nodes.len(),
    ensures
        opt_string_view(r) == instrument_tag_filename_spec(doc@.nodes, device as int),
{
    let node = doc.node(device);
    let source = if str_eq(node.name.as_str(), "OriginalSimpler") {
        first_desc_named_exec(doc, device, "SampleRef")
    } else {
        match first_child_named_exec(doc, device, "LastPresetRef") {
            Some(l) => first_desc_named_exec(doc, l, "FilePresetRef"),
            None => None,
        }
    };
    match source {
        Some(src) => match first_desc_named_exec(doc, src, "FileRef") {
            Some(f) => match path_value_exec(doc, f) {
                Some(v) => file_name_of(v.as_str()),
                None => None,
            },
            None => None,
        },
        None => None,
    }
}

fn sample_ref_name_exec(doc: &XmlDoc, r: usize) -> (n: Option<String>)
    requires
        r < doc@.nodes.len(),
    ensures
        opt_string_view(n) == sample_ref_name(doc@.nodes, r as int),
{
    match first_child_named_exec(doc, r, "FileRef") {
        Some(f) => match path_value_exec(doc, f) {
            Some(v) => file_name_of(v.as_str()),
            None => None,
        },
        None => None,
    }
}

pub open spec fn strings_view(v: Seq<String>) -> Seq<Seq<char>> {
    v.map_values(|s: String| s@)
}

/// The file names of every sample that track `track` references
/// (`SampleRef` > `FileRef` > `Path`).
pub fn sample_filenames(doc: &XmlDoc, track: usize) -> (r: Vec<String>)
    requires
        track < doc@.nodes.len(),
    ensures
        strings_view(r@) == sample_filenames_spec(doc@.nodes, track as int),
{
    let ghost nodes = doc@.nodes;
    let refs = doc.desc_select(track, Some("SampleRef"), false);
    let ghost rv = idx_view(refs@);
    proof {
        lemma_select_props(0, nodes.len() as int, crate::xml::desc_pred(nodes, track as int, Some("SampleRef"@), false));
        assert(rv.take(0) =~= Seq::<int>::empty());
    }
    let mut out: Vec<String> = Vec::new();
    let mut i: usize = 0;
    while i < refs.len()
        invariant
            0 <= i <= refs@.len(),
            nodes == doc@.nodes,
            rv == idx_view(refs@),
            forall|a: int| 0 <= a < rv.len() ==> 0 <= #[trigger] rv[a] < nodes.len(),
            strings_view(out@) == sample_names(nodes, rv.take(i as int)),
        decreases refs@.len() - i,
    {
        let r = refs[i];
        assert(rv[i as int] == r as int);
        let ghost before = out@;
        assert(rv.take(i + 1).drop_last() =~= rv.take(i as int));
        match sample_ref_name_exec(doc, r) {
            Some(n) => {
                out.push(n);
                assert(strings_view(out@) =~= strings_view(before) + seq![out@.last()@]);
            },
            None => {
                assert(strings_view(out@) =~= strings_view(before) + Seq::<Seq<char>>::empty());
            },
        }
        i = i + 1;
    }
    assert(rv.take(rv.len() as int) =~= rv);
    out
}

/// The file names to look track `track` up by in the Live Database: a MIDI
/// track's instrument file, any other track's samples.
pub fn tag_filenames(doc: &XmlDoc, track: usize) -> (r: Vec<String>)
    requires
        track < doc@.nodes.len(),
    ensures
        strings_view(r@) == tag_filenames_spec(doc@.nodes, track as int),
{
    let node = doc.node(track);
    if str_eq(node.name.as_str(), "MidiTrack") {
        let mut out: Vec<String> = Vec::new();
        match instrument_device(doc, track) {
            Some(d) => match instrument_tag_filename(doc, d) {
                Some(n) => {
                    out.push(n);
                    assert(strings_view(out@) =~= seq![out@[0]@]);
                },
                None => {
                    assert(strings_view(out@) =~= Seq::<Seq<char>>::empty());
                },
            },
            None => {
                assert(strings_view(out@) =~= Seq::<Seq<char>>::empty());
            },
        }
        out
    } else {
        sample_filenames(doc, track)
    }
}

/// The tracks to list: the element children of the first `Tracks` node
/// that are not return tracks. Fails with `NoTracks` when there is no
/// `Tracks` node.
pub fn list_track_nodes(doc: &XmlDoc) -> (r: Result<Vec<usize>, AlsError>)
    ensures
        match r {
            Ok(v) => tracks_node(doc@.nodes) matches Some(tn) && idx_view(v@) == listed_tracks(doc@.nodes, tn)
                && forall|a: int| 0 <= a < v@.len() ==> #[trigger] v@[a] < doc@.nodes.len(),
            Err(e) => tracks_node(doc@.nodes) is None && e == AlsError::NoTracks,
        },
{
    let ghost nodes = doc@.nodes;
    let n = doc.node_count();
    let tn = match first_desc_named_exec(doc, 0, "Tracks") {
        Some(tn) => tn,
        None => {
            return Err(AlsError::NoTracks);
        },
    };
    let kids = doc.child_select(tn, None, true);
    let ghost kv = idx_view(kids@);
    let ghost pred = |k: int| nodes[k].name != "ReturnTrack"@;
    proof {
        lemma_select_props(0, nodes.len() as int, child_pred(nodes, tn as int, None, true));
        assert(kv.take(0) =~= Seq::<int>::empty());
        reveal(Seq::filter);
    }
    let mut out: Vec<usize> = Vec::new();
    assert(idx_view(out@) =~= Seq::<int>::empty());
    let mut i: usize = 0;
    while i < kids.len()
        invariant
            0 <= i <= kids@.len(),
            nodes == doc@.nodes,
            kv == idx_view(kids@),
            kv == child_sel(nodes, tn as int, None, true),
            forall|a: int| 0 <= a < kv.len() ==> 0 <= #[trigger] kv[a] < nodes.len(),
            pred == (|k: int| nodes[k].name != "ReturnTrack"@),
            idx_view(out@) == kv.take(i as int).filter(pred),
            forall|a: int| 0 <= a < out@.len() ==> #[trigger] out@[a] < nodes.len(),
        decreases kids@.len() - i,
    {
        let k = kids[i];
        assert(kv[i as int] == k as int);
        assert(kv.take(i + 1).drop_last() =~= kv.take(i as int));
        assert(kv.take(i + 1).last() == k as int);
        let node = doc.node(k);
        proof {
            reveal(Seq::filter);
        }
        if !str_eq(node.name.as_str(), "ReturnTrack") {
            out.push(k);
            assert(idx_view(out@) =~= kv.take(i as int).filter(pred).push(k as int));
        }
        i = i + 1;
    }
    assert(kv.take(kv.len() as int) =~= kv);
    Ok(out)
}


// ---------------------------------------------------------------------------
// Categorizing listed tracks
// ---------------------------------------------------------------------------

/// The key of a per-track override: `"<project_path>::<track_name>"`.
pub open spec fn override_key(project: Seq<char>, name: Seq<char>) -> Seq<char> {
    project + seq![':', ':'] + name
}

/// The category of the first override with key `key`.
pub open spec fn override_lookup(ovs: Seq<(Seq<char>, TrackCategory)>, key: Seq<char>) -> Option<TrackCategory>
    decreases ovs.len(),
{
    if ovs.len() == 0 {
        None
    } else if ovs[0].0 == key {
        Some(ovs[0].1)
    } else {
        override_lookup(ovs.drop_first(), key)
    }
}

pub open spec fn overrides_view(ovs: Seq<(String, TrackCategory)>) -> Seq<(Seq<char>, TrackCategory)> {
    ovs.map_values(|e: (String, TrackCategory)| (e.0@, e.1))
}

/// The category named by the first of `lists` (Live Database tags, one list
/// per successful lookup, in lookup order) whose tags name one.
pub open spec fn first_tag_category(lists: Seq<Seq<String>>) -> Option<TrackCategory>
    decreases lists.len(),
{
    if lists.len() == 0 {
        None
    } else {
        match category_of_lowered_tags(lowered_tags(lists[0])) {
            Some(c) => Some(c),
            None => first_tag_category(lists.drop_first()),
        }
    }
}

pub open spec fn tag_lists_view(lists: Seq<Vec<String>>) -> Seq<Seq<String>> {
    lists.map_values(|l: Vec<String>| l@)
}

/// A track's category: its override if one is set, else the first category
/// its Live Database tags name, else the category of its name.
pub open spec fn track_category_spec(
    name: Seq<char>,
    project: Seq<char>,
    ovs: Seq<(Seq<char>, TrackCategory)>,
    lists: Seq<Seq<String>>,
) -> TrackCategory {
    match override_lookup(ovs, override_key(project, name)) {
        Some(c) => c,
        None => match first_tag_category(lists) {
            Some(c) => c,
            None => category_of_lowered_name(lowercase(name)),
        },
    }
}

/// The category of the first override with key `key`, if any.
pub fn find_override(overrides: &Vec<(String, TrackCategory)>, key: &str) -> (r: Option<TrackCategory>)
    ensures
        r == override_lookup(overrides_view(overrides@), key@),
{
    let ghost all = overrides_view(overrides@);
    let n = overrides.len();
    assert(all.skip(0) =~= all);
    let mut i: usize = 0;
    while i < n
        invariant
            0 <= i <= n,
            n == overrides@.len(),
            all == overrides_view(overrides@),
            override_lookup(all, key@) == override_lookup(all.skip(i as int), key@),
        decreases n - i,
    {
        assert(all.skip(i as int)[0] == (overrides@[i as int].0@, overrides@[i as int].1));
        if str_eq(overrides[i].0.as_str(), key) {
            return Some(overrides[i].1);
        }
        assert(all.skip(i as int).drop_first() =~= all.skip(i + 1));
        i = i + 1;
    }
    None
}

/// Decides a track's category: a per-track override (keyed
/// `"<project_path>::<track_name>"`; keys are meant to be distinct, and
/// when one occurs more than once its first entry counts) wins; else the first of `tag_lists` (the
/// Live Database tags found for the track, in lookup order) that names a
/// category; else the track's name.
pub fn categorize_track(
    name: &str,
    project_path: &str,
    overrides: &Vec<(String, TrackCategory)>,
    tag_lists: &Vec<Vec<String>>,
) -> (r: TrackCategory)
    ensures
        r == track_category_spec(name@, project_path@, overrides_view(overrides@), tag_lists_view(tag_lists@)),
{
    let mut key: Vec<char> = Vec::new();
    push_str(&mut key, project_path);
    key.push(':');
    key.push(':');
    push_str(&mut key, name);
    let key = string_from_chars(&key);
    assert(key@ =~= override_key(project_path@, name@));
    if let Some(c) = find_override(overrides, key.as_str()) {
        return c;
    }
    let ghost lists = tag_lists_view(tag_lists@);
    let n = tag_lists.len();
    assert(lists.skip(0) =~= lists);
    let mut i: usize = 0;
    while i < n
        invariant
            0 <= i <= n,
            n == tag_lists@.len(),
            lists == tag_lists_view(tag_lists@),
            override_lookup(overrides_view(overrides@), override_key(project_path@, name@)) is None,
            first_tag_category(lists) == first_tag_category(lists.skip(i as int)),
        decreases n - i,
    {
        assert(lists.skip(i as int)[0] == tag_lists@[i as int]@);
        if let Some(c) = categorize_by_db_tags(tag_lists[i].as_slice()) {
            return c;
        }
        assert(lists.skip(i as int).drop_first() =~= lists.skip(i + 1));
        i = i + 1;
    }
    categorize_by_name(name)
}

/// The Live Database tags found for listed track `i`: none when `db_tags`
/// has no entry for it.
pub open spec fn tags_for(db_tags: Seq<Vec<Vec<String>>>, i: int) -> Seq<Seq<String>> {
    if 0 <= i < db_tags.len() {
        tag_lists_view(db_tags[i]@)
    } else {
        Seq::empty()
    }
}

/// Summary `s` describes track node `track`, listed `i`-th.
pub open spec fn summary_is(
    s: TrackSummary,
    nodes: Seq<NodeV>,
    track: int,
    project: Seq<char>,
    ovs: Seq<(Seq<char>, TrackCategory)>,
    lists: Seq<Seq<String>>,
) -> bool {
    &&& s.name@ == effective_name_spec(nodes, track)
    &&& s.kind@ == trim_track_suffix(nodes[track].name)
    &&& s.category == track_category_spec(effective_name_spec(nodes, track), project, ovs, lists)
}

/// The file names to look each listed track up by in the Live Database, in
/// the order [`list_tracks`] lists the tracks.
pub fn lookup_filenames(doc: &XmlDoc) -> (r: Result<Vec<Vec<String>>, AlsError>)
    ensures
        match r {
            Ok(v) => tracks_node(doc@.nodes) matches Some(tn) && v@.len() == listed_tracks(doc@.nodes, tn).len()
                && forall|i: int| 0 <= i < v@.len() ==> #[trigger] strings_view(v@[i]@) == tag_filenames_spec(
                    doc@.nodes,
                    listed_tracks(doc@.nodes, tn)[i],
                ),
            Err(e) => tracks_node(doc@.nodes) is None && e == AlsError::NoTracks,
        },
{
    let tracks = list_track_nodes(doc)?;
    let ghost tn = tracks_node(doc@.nodes)->0;
    let mut out: Vec<Vec<String>> = Vec::new();
    let mut i: usize = 0;
    while i < tracks.len()
        invariant
            0 <= i <= tracks@.len(),
            tracks_node(doc@.nodes) == Some(tn),
            idx_view(tracks@) == listed_tracks(doc@.nodes, tn),
            forall|a: int| 0 <= a < tracks@.len() ==> #[trigger] tracks@[a] < doc@.nodes.len(),
            out@.len() == i,
            forall|j: int| 0 <= j < i ==> #[trigger] strings_view(out@[j]@) == tag_filenames_spec(
                doc@.nodes,
                listed_tracks(doc@.nodes, tn)[j],
            ),
        decreases tracks@.len() - i,
    {
        let t = tracks[i];
        assert(idx_view(tracks@)[i as int] == t as int);
        let names = tag_filenames(doc, t);
        let ghost before = out@;
        out.push(names);
        assert forall|j: int| 0 <= j < i + 1 implies #[trigger] strings_view(out@[j]@) == tag_filenames_spec(
            doc@.nodes,
            listed_tracks(doc@.nodes, tn)[j],
        ) by {
            if j < i {
                assert(out@[j] == before[j]);
            }
        }
        i = i + 1;
    }
    Ok(out)
}

/// Lists every track with a derived category: the element children of the
/// first `Tracks` node, return tracks excluded. `db_tags[i]` holds the Live
/// Database tags found for the `i`-th listed track (see
/// [`lookup_filenames`]), one list per successful lookup; `overrides` maps
/// `"<project_path>::<track_name>"` to a category that wins over both tags
/// and name. Fails with `NoTracks` when there is no `Tracks` node.
pub fn list_tracks(
    doc: &XmlDoc,
    project_path: &str,
    overrides: &Vec<(String, TrackCategory)>,
    db_tags: &Vec<Vec<Vec<String>>>,
) -> (r: Result<Vec<TrackSummary>, AlsError>)
    ensures
        match r {
            Ok(v) => tracks_node(doc@.nodes) matches Some(tn) && v@.len() == listed_tracks(doc@.nodes, tn).len()
                && forall|i: int| 0 <= i < v@.len() ==> summary_is(
                    #[trigger] v@[i],
                    doc@.nodes,
                    listed_tracks(doc@.nodes, tn)[i],
                    project_path@,
                    overrides_view(overrides@),
                    tags_for(db_tags@, i),
                ),
            Err(e) => tracks_node(doc@.nodes) is None && e == AlsError::NoTracks,
        },
{
    let tracks = list_track_nodes(doc)?;
    let ghost tn = tracks_node(doc@.nodes)->0;
    let empty: Vec<Vec<String>> = Vec::new();
    let mut out: Vec<TrackSummary> = Vec::new();
    let mut i: usize = 0;
    while i < tracks.len()
        invariant
            0 <= i <= tracks@.len(),
            tracks_node(doc@.nodes) == Some(tn),
            idx_view(tracks@) == listed_tracks(doc@.nodes, tn),
            forall|a: int| 0 <= a < tracks@.len() ==> #[trigger] tracks@[a] < doc@.nodes.len(),
            empty@.len() == 0,
            out@.len() == i,
            forall|j: int| 0 <= j < i ==> summary_is(
                #[trigger] out@[j],
                doc@.nodes,
                listed_tracks(doc@.nodes, tn)[j],
                project_path@,
                overrides_view(overrides@),
                tags_for(db_tags@, j),
            ),
        decreases tracks@.len() - i,
    {
        let t = tracks[i];
        assert(idx_view(tracks@)[i as int] == t as int);
        let name = effective_name(doc, t);
        let kind = track_kind(doc, t);
        let lists = if i < db_tags.len() {
            &db_tags[i]
        } else {
            &empty
        };
        assert(tag_lists_view(lists@) =~= tags_for(db_tags@, i as int));
        let category = categorize_track(name.as_str(), project_path, overrides, lists);
        let ghost before = out@;
        out.push(TrackSummary { name, kind, category });
        assert forall|j: int| 0 <= j < i + 1 implies summary_is(
            #[trigger] out@[j],
            doc@.nodes,
            listed_tracks(doc@.nodes, tn)[j],
            project_path@,
            overrides_view(overrides@),
            tags_for(db_tags@, j),
        ) by {
            if j < i {
                assert(out@[j] == before[j]);
            }
        }
        i = i + 1;
    }
    Ok(out)
}


/// A track's summary is determined by the document and the inputs: two
/// summaries of the same listed track agree.
pub proof fn lemma_summary_determined(
    s1: TrackSummary,
    s2: TrackSummary,
    nodes: Seq<NodeV>,
    track: int,
    project: Seq<char>,
    ovs: Seq<(Seq<char>, TrackCategory)>,
    lists: Seq<Seq<String>>,
)
    requires
        summary_is(s1, nodes, track, project, ovs, lists),
        summary_is(s2, nodes, track, project, ovs, lists),
    ensures
        s1.name@ == s2.name@,
        s1.kind@ == s2.kind@,
        s1.category == s2.category,
{
}


// ---------------------------------------------------------------------------
// Laws of the track listing
// ---------------------------------------------------------------------------

/// A listed track's name is the `Value` of the `EffectiveName` child of its
/// `Name` child, whatever else `Name` holds; it is empty only when there is
/// no such `Name`, `EffectiveName` or `Value`.
pub proof fn lemma_track_name_is_effective_name(nodes: Seq<NodeV>, track: int)
    ensures
        forall|n: int, e: int|
            first_child_named(nodes, track, "Name"@) == Some(n) && first_child_named(nodes, n, "EffectiveName"@) == Some(e)
                ==> effective_name_spec(nodes, track) == match attr_value(nodes[e].attrs, "Value"@) {
                    Some(v) => v,
                    None => Seq::<char>::empty(),
                },
        first_child_named(nodes, track, "Name"@) is None ==> effective_name_spec(nodes, track) == Seq::<char>::empty(),
        forall|n: int|
            first_child_named(nodes, track, "Name"@) == Some(n) && first_child_named(nodes, n, "EffectiveName"@) is None
                ==> effective_name_spec(nodes, track) == Seq::<char>::empty(),
{
}

/// The file name a `SampleRef` node `r` names: the file name of the `Value`
/// of the `Path` child of its `FileRef` child.
pub open spec fn referenced_file(nodes: Seq<NodeV>, r: int) -> Option<Seq<char>> {
    match first_child_named(nodes, r, "FileRef"@) {
        Some(f) => match first_child_named(nodes, f, "Path"@) {
            Some(p) => match attr_value(nodes[p].attrs, "Value"@) {
                Some(v) => path_file_name(v),
                None => None,
            },
            None => None,
        },
        None => None,
    }
}

proof fn lemma_sample_names_filter(nodes: Seq<NodeV>, refs: Seq<int>)
    ensures
        sample_names(nodes, refs) == refs.filter(|r: int| referenced_file(nodes, r) is Some).map_values(
            |r: int| referenced_file(nodes, r)->0,
        ),
    decreases refs.len(),
{
    reveal(Seq::filter);
    let p = |r: int| referenced_file(nodes, r) is Some;
    let f = |r: int| referenced_file(nodes, r)->0;
    if refs.len() > 0 {
        lemma_sample_names_filter(nodes, refs.drop_last());
        let sub = refs.drop_last().filter(p);
        if p(refs.last()) {
            assert(refs.filter(p) == sub.push(refs.last()));
            assert(sub.push(refs.last()).map_values(f) =~= sub.map_values(f) + seq![f(refs.last())]);
        } else {
            assert(refs.filter(p) == sub);
            assert(sample_names(nodes, refs) =~= sample_names(nodes, refs.drop_last()));
        }
    } else {
        assert(refs.filter(p).map_values(f) =~= Seq::<Seq<char>>::empty());
    }
}

/// The Live Database lookup names of a track that is not a MIDI track are
/// the file names of all its `SampleRef`s, one per `SampleRef` that names a
/// file, in document order.
pub proof fn lemma_audio_lookup_names_cover_every_sample(nodes: Seq<NodeV>, track: int)
    requires
        nodes[track].name != "MidiTrack"@,
    ensures
        tag_filenames_spec(nodes, track) == crate::xml::desc_sel(nodes, track, Some("SampleRef"@), false).filter(
            |r: int| referenced_file(nodes, r) is Some,
        ).map_values(|r: int| referenced_file(nodes, r)->0),
{
    lemma_sample_names_filter(nodes, crate::xml::desc_sel(nodes, track, Some("SampleRef"@), false));
}

/// The category of the first override whose key is `key`.
proof fn lemma_override_first(ovs: Seq<(Seq<char>, TrackCategory)>, key: Seq<char>, i: int)
    requires
        0 <= i < ovs.len(),
        ovs[i].0 == key,
        forall|j: int| 0 <= j < i ==> (#[trigger] ovs[j]).0 != key,
    ensures
        override_lookup(ovs, key) == Some(ovs[i].1),
    decreases i,
{
    if i > 0 {
        let rest = ovs.drop_first();
        assert forall|j: int| 0 <= j < i - 1 implies (#[trigger] rest[j]).0 != key by {
            assert(rest[j] == ovs[j + 1]);
        }
        lemma_override_first(rest, key, i - 1);
    }
}

proof fn lemma_override_none(ovs: Seq<(Seq<char>, TrackCategory)>, key: Seq<char>)
    requires
        forall|j: int| 0 <= j < ovs.len() ==> (#[trigger] ovs[j]).0 != key,
    ensures
        override_lookup(ovs, key) is None,
    decreases ovs.len(),
{
    if ovs.len() > 0 {
        let rest = ovs.drop_first();
        assert forall|j: int| 0 <= j < rest.len() implies (#[trigger] rest[j]).0 != key by {
            assert(rest[j] == ovs[j + 1]);
        }
        lemma_override_none(rest, key);
    }
}

proof fn lemma_tags_first(lists: Seq<Seq<String>>, t: int)
    requires
        0 <= t < lists.len(),
        category_of_lowered_tags(lowered_tags(lists[t])) is Some,
        forall|u: int| 0 <= u < t ==> category_of_lowered_tags(lowered_tags(#[trigger] lists[u])) is None,
    ensures
        first_tag_category(lists) == category_of_lowered_tags(lowered_tags(lists[t])),
    decreases t,
{
    if t > 0 {
        let rest = lists.drop_first();
        assert forall|u: int| 0 <= u < t - 1 implies category_of_lowered_tags(lowered_tags(#[trigger] rest[u])) is None by {
            assert(rest[u] == lists[u + 1]);
        }
        assert(category_of_lowered_tags(lowered_tags(lists[0])) is None);
        lemma_tags_first(rest, t - 1);
    }
}

proof fn lemma_tags_none(lists: Seq<Seq<String>>)
    requires
        forall|u: int| 0 <= u < lists.len() ==> category_of_lowered_tags(lowered_tags(#[trigger] lists[u])) is None,
    ensures
        first_tag_category(lists) is None,
    decreases lists.len(),
{
    if lists.len() > 0 {
        let rest = lists.drop_first();
        assert forall|u: int| 0 <= u < rest.len() implies category_of_lowered_tags(lowered_tags(#[trigger] rest[u])) is None by {
            assert(rest[u] == lists[u + 1]);
        }
        assert(category_of_lowered_tags(lowered_tags(lists[0])) is None);
        lemma_tags_none(rest);
    }
}

/// How a track's category is decided: the first override whose key is
/// `"<project>::<name>"` wins; with none, the first tag list that names a
/// category decides, whatever the name says; the name decides only when no
/// tag list names one.
pub proof fn lemma_track_category_order(
    name: Seq<char>,
    project: Seq<char>,
    ovs: Seq<(Seq<char>, TrackCategory)>,
    lists: Seq<Seq<String>>,
)
    ensures
        forall|i: int|
            0 <= i < ovs.len() && (#[trigger] ovs[i]).0 == project + seq![':', ':'] + name && (forall|j: int|
                0 <= j < i ==> (#[trigger] ovs[j]).0 != project + seq![':', ':'] + name) ==> track_category_spec(
                name,
                project,
                ovs,
                lists,
            ) == ovs[i].1,
        (forall|j: int| 0 <= j < ovs.len() ==> (#[trigger] ovs[j]).0 != project + seq![':', ':'] + name) ==> forall|t: int|
            0 <= t < lists.len() && category_of_lowered_tags(lowered_tags(#[trigger] lists[t])) is Some && (forall|u: int|
                0 <= u < t ==> category_of_lowered_tags(lowered_tags(#[trigger] lists[u])) is None) ==> Some(
                track_category_spec(name, project, ovs, lists),
            ) == category_of_lowered_tags(lowered_tags(lists[t])),
        (forall|j: int| 0 <= j < ovs.len() ==> (#[trigger] ovs[j]).0 != project + seq![':', ':'] + name) && (forall|u: int|
            0 <= u < lists.len() ==> category_of_lowered_tags(lowered_tags(#[trigger] lists[u])) is None)
            ==> track_category_spec(name, project, ovs, lists) == category_of_lowered_name(lowercase(name)),
{
    let key = project + seq![':', ':'] + name;
    assert(override_key(project, name) == key);
    assert forall|i: int|
        0 <= i < ovs.len() && (#[trigger] ovs[i]).0 == key && (forall|j: int| 0 <= j < i ==> (#[trigger] ovs[j]).0 != key)
        implies track_category_spec(name, project, ovs, lists) == ovs[i].1 by {
        lemma_override_first(ovs, key, i);
    }
    if forall|j: int| 0 <= j < ovs.len() ==> (#[trigger] ovs[j]).0 != key {
        lemma_override_none(ovs, key);
        assert forall|t: int|
            0 <= t < lists.len() && category_of_lowered_tags(lowered_tags(#[trigger] lists[t])) is Some && (forall|u: int|
                0 <= u < t ==> category_of_lowered_tags(lowered_tags(#[trigger] lists[u])) is None) implies Some(
            track_category_spec(name, project, ovs, lists),
        ) == category_of_lowered_tags(lowered_tags(lists[t])) by {
            lemma_tags_first(lists, t);
        }
        if forall|u: int| 0 <= u < lists.len() ==> category_of_lowered_tags(lowered_tags(#[trigger] lists[u])) is None {
            lemma_tags_none(lists);
        }
    }
}

} // verus!
