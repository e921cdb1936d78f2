use vstd::prelude::*;
use vstd::utf8::encode_utf8;

use crate::error::AlsError;
use crate::scale_constants::{scale_intervals, scale_intervals_spec, SCALE_COUNT};
use crate::scale_candidates::{clip_pitch_classes, clip_pitch_classes_spec};
use crate::scale_info_schema::{
    ableton_major_version, ambiguous_root_tags_spec, detect_schema, detect_schema_spec,
    has_ambiguous_root_tags, major_version_spec, sniff_document_schema, sniff_schema_spec,
    read_root_value, read_root_value_spec, read_scale_index, read_scale_index_spec,
    scale_block_spec, scale_information_block, ScaleInfoSchema, ROOT_TAGS,
};
use crate::text::{push_bytes, push_range, push_str_bytes, str_eq};
use crate::text::string_from_utf8;
use crate::xml::{
    attr_value, child_pred, child_sel, desc_pred, desc_sel, first_child_named, first_child_named_exec, first_of, idx_view, lemma_select_props,
    xml_parsed, NodeV, XmlDoc,
};
use vstd::string::StringSliceAdditionalSpecFns;
use vstd::utf8::{decode_utf8, valid_utf8};

verus! {

// ---------------------------------------------------------------------------
// Scale fitting
// ---------------------------------------------------------------------------

/// Every pitch class present in `pcs` fits scale `scale_index` played from
/// `root_note`, and at least one is present (an unpitched clip fits no
/// scale). An index outside the scale table fits nothing.
pub open spec fn scale_fits_spec(pcs: Seq<bool>, root_note: int, scale_index: int) -> bool {
    &&& 0 <= scale_index < 35
    &&& exists|p: int| 0 <= p < 12 && #[trigger] pcs[p]
    &&& forall|p: int|
        0 <= p < 12 && #[trigger] pcs[p] ==> scale_intervals_spec(scale_index).contains(
            ((p - root_note) % 12) as u8,
        )
}

fn intervals_contain(intervals: &Vec<u8>, offset: u8) -> (r: bool)
    ensures
        r == intervals@.contains(offset),
{
    let mut i: usize = 0;
    while i < intervals.len()
        invariant
            0 <= i <= intervals@.len(),
            forall|k: int| 0 <= k < i ==> intervals@[k] != offset,
        decreases intervals@.len() - i,
    {
        if intervals[i] == offset {
            return true;
        }
        i = i + 1;
    }
    false
}

/// Whether every pitch class in `pitch_classes` fits `(root_note,
/// scale_index)`; an empty set fits nothing.
pub fn scale_fits(pitch_classes: &Vec<bool>, root_note: i32, scale_index: i32) -> (r: bool)
    requires
        pitch_classes@.len() == 12,
    ensures
        r == scale_fits_spec(pitch_classes@, root_note as int, scale_index as int),
{
    if scale_index < 0 || scale_index as usize >= SCALE_COUNT {
        return false;
    }
    let intervals = scale_intervals(scale_index as usize);
    let root: i64 = root_note as i64;
    let mut any = false;
    let mut p: usize = 0;
    while p < 12
        invariant
            0 <= p <= 12,
            pitch_classes@.len() == 12,
            0 <= scale_index < 35,
            root == root_note,
            intervals@ == scale_intervals_spec(scale_index as int),
            any == exists|q: int| 0 <= q < p && #[trigger] pitch_classes@[q],
            forall|q: int|
                0 <= q < p && #[trigger] pitch_classes@[q] ==> scale_intervals_spec(
                    scale_index as int,
                ).contains(((q - root_note) % 12) as u8),
        decreases 12 - p,
    {
        if pitch_classes[p] {
            any = true;
            let d: i64 = p as i64 - root;
            let off: i64 = if d >= 0 {
                d % 12
            } else {
                let m = (-d) % 12;
                if m == 0 {
                    0
                } else {
                    12 - m
                }
            };
            assert(off == (p - root_note) % 12);
            if !intervals_contain(&intervals, off as u8) {
                return false;
            }
        }
        p = p + 1;
    }
    any
}

// ---------------------------------------------------------------------------
// Edits
// ---------------------------------------------------------------------------

/// A byte range of the source text and the bytes that replace it (an empty
/// range is an insertion).
pub struct Edit {
    pub start: usize,
    pub end: usize,
    pub block: Vec<u8>,
}

pub struct EditV {
    pub start: int,
    pub end: int,
    pub block: Seq<u8>,
}

impl View for Edit {
    type V = EditV;

    open spec fn view(&self) -> EditV {
        EditV { start: self.start as int, end: self.end as int, block: self.block@ }
    }
}

pub open spec fn edits_view(edits: Seq<Edit>) -> Seq<EditV> {
    edits.map_values(|e: Edit| e@)
}

/// Where the line holding byte `pos` starts: just after the last newline
/// before `pos`, or at 0.
pub open spec fn line_start(text: Seq<u8>, pos: int) -> int
    decreases pos,
{
    if pos <= 0 {
        0
    } else if text[pos - 1] == 10 {
        pos
    } else {
        line_start(text, pos - 1)
    }
}

/// The run of spaces and tabs at the start of `text[from..to]`.
pub open spec fn blank_run(text: Seq<u8>, from: int, to: int) -> Seq<u8>
    decreases to - from,
{
    if from >= to || !(text[from] == 32 || text[from] == 9) {
        Seq::empty()
    } else {
        seq![text[from]] + blank_run(text, from + 1, to)
    }
}

/// The horizontal white space at the start of the line holding `pos`, up
/// to `pos`: the indentation a block inserted at `pos` should repeat.
pub open spec fn leading_indent_spec(text: Seq<u8>, pos: int) -> Seq<u8> {
    blank_run(text, line_start(text, pos), pos)
}

/// Captures the run of spaces and tabs at the start of the line holding
/// byte `pos`, up to `pos`, so an inserted block can match the file's
/// indentation.
pub fn leading_indent(text: &Vec<u8>, pos: usize) -> (r: Vec<u8>)
    requires
        pos <= text@.len(),
    ensures
        r@ == leading_indent_spec(text@, pos as int),
{
    let mut ls = pos;
    while ls > 0 && text[ls - 1] != 10
        invariant
            0 <= ls <= pos <= text@.len(),
            line_start(text@, pos as int) == line_start(text@, ls as int),
        decreases ls,
    {
        ls = ls - 1;
    }
    let mut out: Vec<u8> = Vec::new();
    let mut i = ls;
    while i < pos && (text[i] == 32 || text[i] == 9)
        invariant
            ls <= i <= pos <= text@.len(),
            line_start(text@, pos as int) == ls,
            blank_run(text@, ls as int, pos as int) == out@ + blank_run(text@, i as int, pos as int),
        decreases pos - i,
    {
        out.push(text[i]);
        i = i + 1;
    }
    assert(blank_run(text@, i as int, pos as int) == Seq::<u8>::empty());
    assert(out@ =~= out@ + Seq::<u8>::empty());
    out
}

/// The edit that makes clip `clip`'s `IsInKey` flag `true`: none when it
/// already is; a rewrite of an existing flag; or a new flag inserted at
/// `before`, followed by a newline and `indent`.
pub open spec fn in_key_edit_spec(nodes: Seq<NodeV>, clip: int, before: int, indent: Seq<u8>) -> Option<EditV> {
    match first_child_named(nodes, clip, "IsInKey"@) {
        Some(k) => if attr_value(nodes[k].attrs, "Value"@) == Some("true"@) {
            None
        } else {
            Some(EditV { start: nodes[k].start, end: nodes[k].end, block: encode_utf8("<IsInKey Value=\"true\" />"@) })
        },
        None => Some(EditV { start: before, end: before, block: encode_utf8("<IsInKey Value=\"true\" />\n"@) + indent }),
    }
}

pub open spec fn opt_edit_view(e: Option<Edit>) -> Option<EditV> {
    match e {
        Some(e) => Some(e@),
        None => None,
    }
}

/// Ensures a clip's `IsInKey` flag (Live's scale-awareness toggle, a
/// sibling of `ScaleInformation`) is `true`.
pub fn ensure_clip_in_key_edit(doc: &XmlDoc, clip: usize, before: usize, indent: &Vec<u8>) -> (r: Option<Edit>)
    requires
        clip < doc@.nodes.len(),
    ensures
        opt_edit_view(r) == in_key_edit_spec(doc@.nodes, clip as int, before as int, indent@),
{
    match first_child_named_exec(doc, clip, "IsInKey") {
        Some(k) => {
            let is_true = match doc.attribute(k, "Value") {
                Some(v) => str_eq(v.as_str(), "true"),
                None => false,
            };
            if is_true {
                None
            } else {
                let mut block: Vec<u8> = Vec::new();
                push_str_bytes(&mut block, "<IsInKey Value=\"true\" />");
                assert(block@ =~= encode_utf8("<IsInKey Value=\"true\" />"@));
                let node = doc.node(k);
                Some(Edit { start: node.start, end: node.end, block })
            }
        },
        None => {
            let mut block: Vec<u8> = Vec::new();
            push_str_bytes(&mut block, "<IsInKey Value=\"true\" />\n");
            push_bytes(&mut block, indent);
            Some(Edit { start: before, end: before, block })
        },
    }
}


/// A tag that a rebuilt `ScaleInformation` writes itself (either root tag,
/// or `Name`), so an old copy must not be kept.
pub open spec fn rebuilt_tag(name: Seq<char>) -> bool {
    name == ROOT_TAGS@[0]@ || name == ROOT_TAGS@[1]@ || name == "Name"@
}

/// The source text of every element child in `kids` that the rebuilt block
/// does not write itself, each on a new line indented one tab deeper than
/// `indent`.
pub open spec fn other_children_text(nodes: Seq<NodeV>, text: Seq<u8>, kids: Seq<int>, indent: Seq<u8>) -> Seq<u8>
    decreases kids.len(),
{
    if kids.len() == 0 {
        Seq::empty()
    } else {
        let prev = other_children_text(nodes, text, kids.drop_last(), indent);
        let k = kids.last();
        if rebuilt_tag(nodes[k].name) {
            prev
        } else {
            prev + encode_utf8("\n"@) + indent + encode_utf8("\t"@) + text.subrange(nodes[k].start, nodes[k].end)
        }
    }
}

/// The edit replacing `ScaleInformation` node `si` by a block in `schema`'s
/// shape carrying the target scale, keeping its other element children.
pub open spec fn rebuild_edit_spec(
    nodes: Seq<NodeV>,
    text: Seq<u8>,
    si: int,
    schema: ScaleInfoSchema,
    root_note: int,
    scale_index: int,
) -> EditV {
    let indent = leading_indent_spec(text, nodes[si].start);
    EditV {
        start: nodes[si].start,
        end: nodes[si].end,
        block: scale_block_spec(
            indent,
            schema,
            root_note,
            scale_index,
            other_children_text(nodes, text, child_sel(nodes, si, None, true), indent),
        ),
    }
}

fn is_rebuilt_tag(name: &str) -> (r: bool)
    ensures
        r == rebuilt_tag(name@),
{
    str_eq(name, ROOT_TAGS[0]) || str_eq(name, ROOT_TAGS[1]) || str_eq(name, "Name")
}

/// Replaces the whole `ScaleInformation` element `si` (self-closing or not)
/// by a rebuilt one in `schema`'s shape carrying the target root and
/// scale, keeping every other element child verbatim from the source, so
/// the old root tag is always replaced and never duplicated.
pub fn rebuild_scale_information_edit(
    doc: &XmlDoc,
    si: usize,
    schema: ScaleInfoSchema,
    target_root_note: i32,
    target_scale_index: i32,
) -> (r: Edit)
    requires
        si < doc@.nodes.len(),
        !schema.numeric_name ==> 0 <= target_scale_index < 35,
    ensures
        r@ == rebuild_edit_spec(doc@.nodes, doc@.text, si as int, schema, target_root_note as int, target_scale_index as int),
{
    let ghost nodes = doc@.nodes;
    let _ = doc.node_count();
    let text = doc.text();
    let node = doc.node(si);
    proof {
        crate::xml::lemma_wf_range(nodes, text@.len() as int, si as int);
    }
    let indent = leading_indent(text, node.start);
    let kids = doc.child_select(si, None, true);
    let ghost kv = idx_view(kids@);
    proof {
        lemma_select_props(0, nodes.len() as int, child_pred(nodes, si as int, None, true));
    }
    let mut other: Vec<u8> = Vec::new();
    let mut t: usize = 0;
    while t < kids.len()
        invariant
            0 <= t <= kids@.len(),
            nodes == doc@.nodes,
            text@ == doc@.text,
            kv == idx_view(kids@),
            kv == child_sel(nodes, si as int, None, true),
            forall|a: int| 0 <= a < kv.len() ==> 0 <= #[trigger] kv[a] < nodes.len(),
            crate::xml::tree_wf(nodes, text@.len() as int),
            other@ == other_children_text(nodes, text@, kv.take(t as int), indent@),
        decreases kids@.len() - t,
    {
        let k = kids[t];
        assert(kv[t as int] == k as int);
        let c = doc.node(k);
        assert(kv.take(t + 1).drop_last() =~= kv.take(t as int));
        assert(kv.take(t + 1).last() == k as int);
        if !is_rebuilt_tag(c.name.as_str()) {
            proof {
                crate::xml::lemma_wf_range(nodes, text@.len() as int, k as int);
            }
            push_str_bytes(&mut other, "\n");
            push_bytes(&mut other, &indent);
            push_str_bytes(&mut other, "\t");
            push_range(&mut other, text, c.start, c.end);
        }
        t = t + 1;
    }
    assert(kv.take(kids@.len() as int) =~= kv);
    let block = scale_information_block(&indent, schema, target_root_note, target_scale_index, &other);
    Edit { start: node.start, end: node.end, block }
}


/// What should happen to one `MidiClip` relative to the target scale.
pub enum ClipAction {
    /// The clip's notes do not fit the target scale: left untouched.
    Incompatible,
    /// The clip's existing label is a deliberate, valid one: left untouched.
    AlreadySet,
    /// No `ScaleInformation` existed: insert one.
    Insert(Vec<Edit>),
    /// The existing `ScaleInformation` was Live's default: rewrite it.
    Changed(Vec<Edit>),
    /// The existing `ScaleInformation` was a stale or corrupted label:
    /// rewrite it.
    Corrected(Vec<Edit>),
}

pub enum ActionV {
    Incompatible,
    AlreadySet,
    Insert(Seq<EditV>),
    Changed(Seq<EditV>),
    Corrected(Seq<EditV>),
}

impl View for ClipAction {
    type V = ActionV;

    open spec fn view(&self) -> ActionV {
        match self {
            ClipAction::Incompatible => ActionV::Incompatible,
            ClipAction::AlreadySet => ActionV::AlreadySet,
            ClipAction::Insert(e) => ActionV::Insert(edits_view(e@)),
            ClipAction::Changed(e) => ActionV::Changed(edits_view(e@)),
            ClipAction::Corrected(e) => ActionV::Corrected(edits_view(e@)),
        }
    }
}

pub open spec fn opt_seq(e: Option<EditV>) -> Seq<EditV> {
    match e {
        Some(x) => seq![x],
        None => Seq::empty(),
    }
}

/// The action for a clip with no `ScaleInformation`: a new block (and the
/// `IsInKey` flag) inserted before its `Notes` child when its notes fit the
/// target; `None` when they fit but it has no `Notes` child.
pub open spec fn insert_action_spec(
    nodes: Seq<NodeV>,
    text: Seq<u8>,
    clip: int,
    compatible: bool,
    schema: ScaleInfoSchema,
    root_note: int,
    scale_index: int,
) -> Option<ActionV> {
    if !compatible {
        Some(ActionV::Incompatible)
    } else {
        match first_child_named(nodes, clip, "Notes"@) {
            None => None,
            Some(notes) => {
                let at = nodes[notes].start;
                let indent = leading_indent_spec(text, at);
                let block = scale_block_spec(indent, schema, root_note, scale_index, Seq::empty()) + encode_utf8("\n"@) + indent;
                Some(ActionV::Insert(opt_seq(in_key_edit_spec(nodes, clip, at, indent)).push(EditV { start: at, end: at, block })))
            },
        }
    }
}

/// The action for a clip whose `ScaleInformation` is node `si`.
pub open spec fn rewrite_action_spec(
    nodes: Seq<NodeV>,
    text: Seq<u8>,
    clip: int,
    si: int,
    pcs: Seq<bool>,
    compatible: bool,
    default_schema: ScaleInfoSchema,
    root_note: int,
    scale_index: int,
) -> ActionV {
    let root_val = read_root_value_spec(nodes, si);
    let name_val = read_scale_index_spec(nodes, si);
    let is_default = root_val == Some(0int) && name_val == Some(0int);
    let is_corrupted = ambiguous_root_tags_spec(nodes, si);
    let label_valid = !is_default && !is_corrupted && match (root_val, name_val) {
        (Some(r), Some(n)) => scale_fits_spec(pcs, r, n),
        _ => false,
    };
    if label_valid {
        ActionV::AlreadySet
    } else if !compatible {
        ActionV::Incompatible
    } else {
        let schema = match detect_schema_spec(nodes, si) {
            Some(s) => s,
            None => default_schema,
        };
        let indent = leading_indent_spec(text, nodes[si].start);
        let edits = opt_seq(in_key_edit_spec(nodes, clip, nodes[si].start, indent)).push(
            rebuild_edit_spec(nodes, text, si, schema, root_note, scale_index),
        );
        if is_default {
            ActionV::Changed(edits)
        } else {
            ActionV::Corrected(edits)
        }
    }
}

/// The action for `MidiClip` node `clip`, or `None` when it needs a new
/// `ScaleInformation` but has no `Notes` child to place it before.
pub open spec fn clip_action_spec(
    nodes: Seq<NodeV>,
    text: Seq<u8>,
    clip: int,
    root_note: int,
    scale_index: int,
    default_schema: ScaleInfoSchema,
) -> Option<ActionV> {
    let pcs = clip_pitch_classes_spec(nodes, clip);
    let compatible = scale_fits_spec(pcs, root_note, scale_index);
    match first_child_named(nodes, clip, "ScaleInformation"@) {
        None => insert_action_spec(nodes, text, clip, compatible, default_schema, root_note, scale_index),
        Some(si) => Some(rewrite_action_spec(nodes, text, clip, si, pcs, compatible, default_schema, root_note, scale_index)),
    }
}

pub open spec fn opt_action_view(a: Option<ClipAction>) -> Option<ActionV> {
    match a {
        Some(a) => Some(a@),
        None => None,
    }
}

fn opt_edit_into_vec(e: Option<Edit>) -> (r: Vec<Edit>)
    ensures
        edits_view(r@) == opt_seq(opt_edit_view(e)),
{
    let mut v: Vec<Edit> = Vec::new();
    match e {
        Some(x) => {
            v.push(x);
            assert(edits_view(v@) =~= opt_seq(opt_edit_view(Some(x))));
        },
        None => {
            assert(edits_view(v@) =~= Seq::<EditV>::empty());
        },
    }
    v
}

/// A clip with no `ScaleInformation`: insert a new block (in
/// `default_schema`'s shape) if its notes fit the target scale, otherwise
/// leave it untouched. `None`: it fits but has no `Notes` child.
pub fn insert_action_for_missing_scale_info(
    doc: &XmlDoc,
    clip: usize,
    compatible_with_target: bool,
    default_schema: ScaleInfoSchema,
    target_root_note: i32,
    target_scale_index: i32,
) -> (r: Option<ClipAction>)
    requires
        clip < doc@.nodes.len(),
        0 <= target_scale_index < 35,
    ensures
        opt_action_view(r) == insert_action_spec(doc@.nodes, doc@.text, clip as int, compatible_with_target, default_schema, target_root_note as int, target_scale_index as int),
{
    if !compatible_with_target {
        return Some(ClipAction::Incompatible);
    }
    let notes = match first_child_named_exec(doc, clip, "Notes") {
        Some(n) => n,
        None => {
            return None;
        },
    };
    let _ = doc.node_count();
    let text = doc.text();
    let insert_at = doc.node(notes).start;
    proof {
        crate::xml::lemma_wf_range(doc@.nodes, text@.len() as int, notes as int);
    }
    let indent = leading_indent(text, insert_at);
    let mut edits = opt_edit_into_vec(ensure_clip_in_key_edit(doc, clip, insert_at, &indent));
    let empty: Vec<u8> = Vec::new();
    let mut block = scale_information_block(&indent, default_schema, target_root_note, target_scale_index, &empty);
    push_str_bytes(&mut block, "\n");
    push_bytes(&mut block, &indent);
    let ghost before = edits_view(edits@);
    edits.push(Edit { start: insert_at, end: insert_at, block });
    assert(edits_view(edits@) =~= before.push(edits@.last()@));
    Some(ClipAction::Insert(edits))
}

/// A clip that has a `ScaleInformation` node `si`: leave a valid,
/// deliberate label alone; otherwise rewrite it to the target scale when
/// the clip's notes fit it (also turning `IsInKey` on), or leave an
/// incompatible clip untouched. A block holding both root tags is never
/// trusted.
pub fn rewrite_action_for_existing_scale_info(
    doc: &XmlDoc,
    clip: usize,
    si: usize,
    pitch_classes: &Vec<bool>,
    compatible_with_target: bool,
    default_schema: ScaleInfoSchema,
    target_root_note: i32,
    target_scale_index: i32,
) -> (r: ClipAction)
    requires
        clip < doc@.nodes.len(),
        si < doc@.nodes.len(),
        pitch_classes@.len() == 12,
        0 <= target_scale_index < 35,
    ensures
        r@ == rewrite_action_spec(doc@.nodes, doc@.text, clip as int, si as int, pitch_classes@, compatible_with_target, default_schema, target_root_note as int, target_scale_index as int),
{
    let root_val = read_root_value(doc, si);
    let name_val = read_scale_index(doc, si);
    let is_default = match (root_val, name_val) {
        (Some(r), Some(n)) => r == 0 && n == 0,
        _ => false,
    };
    let is_corrupted = has_ambiguous_root_tags(doc, si);
    let label_fits = match (root_val, name_val) {
        (Some(r), Some(n)) => scale_fits(pitch_classes, r, n),
        _ => false,
    };
    if !is_default && !is_corrupted && label_fits {
        return ClipAction::AlreadySet;
    }
    if !compatible_with_target {
        return ClipAction::Incompatible;
    }
    let schema = match detect_schema(doc, si) {
        Some(s) => s,
        None => default_schema,
    };
    let scale_info_edit = rebuild_scale_information_edit(doc, si, schema, target_root_note, target_scale_index);
    let _ = doc.node_count();
    let text = doc.text();
    let start = doc.node(si).start;
    proof {
        crate::xml::lemma_wf_range(doc@.nodes, text@.len() as int, si as int);
    }
    let indent = leading_indent(text, start);
    let mut edits = opt_edit_into_vec(ensure_clip_in_key_edit(doc, clip, start, &indent));
    let ghost before = edits_view(edits@);
    edits.push(scale_info_edit);
    assert(edits_view(edits@) =~= before.push(edits@.last()@));
    if is_default {
        ClipAction::Changed(edits)
    } else {
        ClipAction::Corrected(edits)
    }
}

/// Decides what should happen to `MidiClip` node `clip` given the target
/// `(target_root_note, target_scale_index)`. `None`: the clip needs a new
/// `ScaleInformation` but has no `Notes` child.
pub fn decide_clip_action(
    doc: &XmlDoc,
    clip: usize,
    target_root_note: i32,
    target_scale_index: i32,
    default_schema: ScaleInfoSchema,
) -> (r: Option<ClipAction>)
    requires
        clip < doc@.nodes.len(),
        0 <= target_scale_index < 35,
    ensures
        opt_action_view(r) == clip_action_spec(doc@.nodes, doc@.text, clip as int, target_root_note as int, target_scale_index as int, default_schema),
{
    let pitch_classes = clip_pitch_classes(doc, clip);
    let compatible = scale_fits(&pitch_classes, target_root_note, target_scale_index);
    match first_child_named_exec(doc, clip, "ScaleInformation") {
        None => insert_action_for_missing_scale_info(doc, clip, compatible, default_schema, target_root_note, target_scale_index),
        Some(si) => Some(rewrite_action_for_existing_scale_info(doc, clip, si, &pitch_classes, compatible, default_schema, target_root_note, target_scale_index)),
    }
}


// ---------------------------------------------------------------------------
// Applying a scale to a whole document
// ---------------------------------------------------------------------------

/// Summary of what happened when a scale was applied to a project's clips.
#[derive(Debug, Clone, Copy, Default, PartialEq, Eq, Structural)]
pub struct ApplyScaleOutcome {
    /// Clips whose `ScaleInformation` was still at Live's default (C Major)
    /// and was rewritten to the target scale.
    pub clips_changed: u32,
    /// Clips with no `ScaleInformation` whose notes fit the target scale,
    /// so a new block was inserted.
    pub clips_created: u32,
    /// Clips whose `ScaleInformation` was set to another scale that fits
    /// their own notes: a deliberate choice, left untouched.
    pub clips_already_set: u32,
    /// Clips whose `ScaleInformation` was a stale label (it does not fit
    /// their notes) or a corrupted one, rewritten to the target scale.
    pub clips_corrected: u32,
    /// Clips whose notes do not fit the target scale: left untouched.
    pub clips_incompatible: u32,
    /// The document's declared format predates Live's per-clip scales
    /// (`MajorVersion` below 5), so created blocks may be ignored by Live
    /// until the project is saved there once.
    pub schema_predates_clip_scale: bool,
}

pub open spec fn action_edits(a: ActionV) -> Seq<EditV> {
    match a {
        ActionV::Insert(e) => e,
        ActionV::Changed(e) => e,
        ActionV::Corrected(e) => e,
        _ => Seq::empty(),
    }
}

/// The outcome with the counter for action `a` advanced by one, or `None`
/// when that counter would not fit in a `u32`.
pub open spec fn count_action(o: ApplyScaleOutcome, a: ActionV) -> Option<ApplyScaleOutcome> {
    match a {
        ActionV::Incompatible => if o.clips_incompatible < u32::MAX {
            Some(ApplyScaleOutcome { clips_incompatible: (o.clips_incompatible + 1) as u32, ..o })
        } else {
            None
        },
        ActionV::AlreadySet => if o.clips_already_set < u32::MAX {
            Some(ApplyScaleOutcome { clips_already_set: (o.clips_already_set + 1) as u32, ..o })
        } else {
            None
        },
        ActionV::Insert(_) => if o.clips_created < u32::MAX {
            Some(ApplyScaleOutcome { clips_created: (o.clips_created + 1) as u32, ..o })
        } else {
            None
        },
        ActionV::Changed(_) => if o.clips_changed < u32::MAX {
            Some(ApplyScaleOutcome { clips_changed: (o.clips_changed + 1) as u32, ..o })
        } else {
            None
        },
        ActionV::Corrected(_) => if o.clips_corrected < u32::MAX {
            Some(ApplyScaleOutcome { clips_corrected: (o.clips_corrected + 1) as u32, ..o })
        } else {
            None
        },
    }
}

/// Deciding each clip of `clips` in turn: all edits in clip order and the
/// tallies, or the first failure (a clip lacking `Notes`, or a counter
/// overflowing).
pub open spec fn fold_clips(
    nodes: Seq<NodeV>,
    text: Seq<u8>,
    clips: Seq<int>,
    root_note: int,
    scale_index: int,
    schema: ScaleInfoSchema,
    init: ApplyScaleOutcome,
) -> Result<(Seq<EditV>, ApplyScaleOutcome), AlsError>
    decreases clips.len(),
{
    if clips.len() == 0 {
        Ok((Seq::empty(), init))
    } else {
        match fold_clips(nodes, text, clips.drop_last(), root_note, scale_index, schema, init) {
            Err(e) => Err(e),
            Ok((edits, outcome)) => match clip_action_spec(nodes, text, clips.last(), root_note, scale_index, schema) {
                None => Err(AlsError::MissingNotes),
                Some(a) => match count_action(outcome, a) {
                    None => Err(AlsError::CountOverflow),
                    Some(o) => Ok((edits + action_edits(a), o)),
                },
            },
        }
    }
}

/// Inserts `j` into the index list `order` after every entry whose key is
/// at most `keys[j]`.
pub open spec fn insert_by_key(order: Seq<int>, keys: Seq<int>, j: int) -> Seq<int>
    decreases order.len(),
{
    if order.len() == 0 {
        seq![j]
    } else if keys[order.last()] <= keys[j] {
        order.push(j)
    } else {
        insert_by_key(order.drop_last(), keys, j).push(order.last())
    }
}

/// The indices of `keys` in increasing key order, equal keys kept in their
/// original order (a stable sort).
pub open spec fn stable_order(keys: Seq<int>, n: int) -> Seq<int>
    decreases n,
{
    if n <= 0 {
        Seq::empty()
    } else {
        insert_by_key(stable_order(keys, n - 1), keys, n - 1)
    }
}

pub open spec fn edit_starts(edits: Seq<EditV>) -> Seq<int> {
    edits.map_values(|e: EditV| e.start)
}

/// `edits` ordered by start position, equal starts kept in their original
/// order.
pub open spec fn sort_by_start(edits: Seq<EditV>) -> Seq<EditV> {
    stable_order(edit_starts(edits), edits.len() as int).map_values(|j: int| edits[j])
}

pub open spec fn prepend(p: Seq<u8>, o: Option<Seq<u8>>) -> Option<Seq<u8>> {
    match o {
        Some(r) => Some(p + r),
        None => None,
    }
}

/// `text` from `cursor` on with each edit's range replaced by its block, in
/// order; `None` when an edit starts before the previous one ended or lies
/// outside the text.
pub open spec fn splice(text: Seq<u8>, edits: Seq<EditV>, cursor: int) -> Option<Seq<u8>>
    decreases edits.len(),
{
    if edits.len() == 0 {
        if 0 <= cursor <= text.len() {
            Some(text.subrange(cursor, text.len() as int))
        } else {
            None
        }
    } else {
        let e = edits[0];
        if 0 <= cursor <= e.start && e.start <= e.end && e.end <= text.len() {
            prepend(text.subrange(cursor, e.start) + e.block, splice(text, edits.drop_first(), e.end))
        } else {
            None
        }
    }
}

/// The whole rewrite of a parsed document: the edited text as bytes and
/// the outcome, or why it fails.
pub open spec fn apply_doc_spec(nodes: Seq<NodeV>, text: Seq<u8>, root_note: int, scale_index: int) -> Result<(Seq<u8>, ApplyScaleOutcome), AlsError> {
    if !(0 <= scale_index < 35) {
        Err(AlsError::InvalidScaleIndex(scale_index as i32))
    } else {
        let init = ApplyScaleOutcome {
            clips_changed: 0,
            clips_created: 0,
            clips_already_set: 0,
            clips_corrected: 0,
            clips_incompatible: 0,
            schema_predates_clip_scale: match major_version_spec(nodes) {
                Some(v) => v < 5,
                None => false,
            },
        };
        let clips = desc_sel(nodes, 0, Some("MidiClip"@), false);
        match fold_clips(nodes, text, clips, root_note, scale_index, sniff_schema_spec(nodes), init) {
            Err(e) => Err(e),
            Ok((edits, outcome)) => match splice(text, sort_by_start(edits), 0) {
                None => Err(AlsError::EditConflict),
                Some(b) => Ok((b, outcome)),
            },
        }
    }
}


proof fn lemma_insert_by_key(order: Seq<int>, keys: Seq<int>, j: int, pos: int)
    requires
        0 <= pos <= order.len(),
        forall|m: int| pos <= m < order.len() ==> keys[#[trigger] order[m]] > keys[j],
        pos > 0 ==> keys[order[pos - 1]] <= keys[j],
    ensures
        insert_by_key(order, keys, j) == order.take(pos).push(j) + order.skip(pos),
    decreases order.len(),
{
    if order.len() == 0 {
        assert(order.take(pos).push(j) + order.skip(pos) =~= seq![j]);
    } else if keys[order.last()] <= keys[j] {
        assert(pos == order.len());
        assert(order.take(pos).push(j) + order.skip(pos) =~= order.push(j));
    } else {
        let d = order.drop_last();
        assert(pos < order.len());
        assert forall|m: int| pos <= m < d.len() implies keys[#[trigger] d[m]] > keys[j] by {
            assert(d[m] == order[m]);
        }
        if pos > 0 {
            assert(d[pos - 1] == order[pos - 1]);
        }
        lemma_insert_by_key(d, keys, j, pos);
        assert(d.take(pos).push(j) + d.skip(pos) + seq![order.last()] =~= order.take(pos).push(j) + order.skip(pos));
        assert(insert_by_key(order, keys, j) == insert_by_key(d, keys, j).push(order.last()));
        assert(insert_by_key(d, keys, j).push(order.last()) =~= (d.take(pos).push(j) + d.skip(pos)).push(order.last()));
    }
}

proof fn lemma_stable_order_range(keys: Seq<int>, n: int)
    requires
        n >= 0,
    ensures
        stable_order(keys, n).len() == n,
        forall|a: int| 0 <= a < n ==> 0 <= #[trigger] stable_order(keys, n)[a] < n,
    decreases n,
{
    if n > 0 {
        lemma_stable_order_range(keys, n - 1);
        lemma_insert_range(stable_order(keys, n - 1), keys, n - 1);
    }
}

proof fn lemma_insert_range(order: Seq<int>, keys: Seq<int>, j: int)
    requires
        j >= 0,
        forall|a: int| 0 <= a < order.len() ==> 0 <= #[trigger] order[a] < j,
    ensures
        insert_by_key(order, keys, j).len() == order.len() + 1,
        forall|a: int| 0 <= a < order.len() + 1 ==> 0 <= #[trigger] insert_by_key(order, keys, j)[a] <= j,
    decreases order.len(),
{
    if order.len() > 0 && !(keys[order.last()] <= keys[j]) {
        let d = order.drop_last();
        assert forall|a: int| 0 <= a < d.len() implies 0 <= #[trigger] d[a] < j by {
            assert(d[a] == order[a]);
        }
        lemma_insert_range(d, keys, j);
        let r = insert_by_key(d, keys, j);
        assert(insert_by_key(order, keys, j) == r.push(order.last()));
        assert forall|a: int| 0 <= a < order.len() + 1 implies 0 <= #[trigger] r.push(order.last())[a] <= j by {
            if a < r.len() {
                assert(r.push(order.last())[a] == r[a]);
            }
        }
    } else if order.len() == 0 {
        assert(insert_by_key(order, keys, j) == seq![j]);
        assert(seq![j][0] == j);
    } else {
        assert(insert_by_key(order, keys, j) == order.push(j));
        assert forall|a: int| 0 <= a < order.len() + 1 implies 0 <= #[trigger] order.push(j)[a] <= j by {
            if a < order.len() {
                assert(order.push(j)[a] == order[a]);
            }
        }
    }
}

/// The positions `0..starts.len()` ordered by `starts`, equal starts kept in
/// their original order.
fn stable_sort_positions(starts: &Vec<usize>) -> (r: Vec<usize>)
    ensures
        idx_view(r@) == stable_order(idx_view(starts@), starts@.len() as int),
{
    let ghost keys = idx_view(starts@);
    let n = starts.len();
    let mut order: Vec<usize> = Vec::new();
    let mut j: usize = 0;
    while j < n
        invariant
            0 <= j <= n,
            n == starts@.len(),
            keys == idx_view(starts@),
            idx_view(order@) == stable_order(keys, j as int),
            order@.len() == j,
            forall|a: int| 0 <= a < order@.len() ==> #[trigger] order@[a] < j,
        decreases n - j,
    {
        proof {
            lemma_stable_order_range(keys, j as int);
        }
        let mut pos = order.len();
        while pos > 0 && starts[order[pos - 1]] > starts[j]
            invariant
                0 <= pos <= order@.len(),
                order@.len() == j,
                j < n,
                n == starts@.len(),
                forall|a: int| 0 <= a < order@.len() ==> #[trigger] order@[a] < j,
                forall|m: int| pos <= m < order@.len() ==> starts@[#[trigger] order@[m] as int] > starts@[j as int],
            decreases pos,
        {
            pos = pos - 1;
        }
        proof {
            let ov = idx_view(order@);
            assert forall|m: int| pos <= m < ov.len() implies keys[#[trigger] ov[m]] > keys[j as int] by {
                assert(ov[m] == order@[m] as int);
            }
            if pos > 0 {
                assert(ov[pos - 1] == order@[pos - 1] as int);
            }
            lemma_insert_by_key(ov, keys, j as int, pos as int);
        }
        let ghost old_order = order@;
        order.insert(pos, j);
        proof {
            let ov = idx_view(old_order);
            assert(idx_view(order@) =~= ov.take(pos as int).push(j as int) + ov.skip(pos as int));
            assert forall|a: int| 0 <= a < order@.len() implies #[trigger] order@[a] < j + 1 by {
                if a < pos {
                    assert(order@[a] == old_order[a]);
                } else if a > pos {
                    assert(order@[a] == old_order[a - 1]);
                }
            }
        }
        j = j + 1;
    }
    order
}

/// Splices `edits` (taken in the order `order`) into `text`: the text
/// between edits is copied, each edit's range is replaced by its block.
/// `None` when an edit starts before the previous one ended.
pub fn apply_edits(text: &Vec<u8>, edits: &Vec<Edit>, order: &Vec<usize>) -> (r: Option<Vec<u8>>)
    requires
        forall|a: int| 0 <= a < order@.len() ==> #[trigger] order@[a] < edits@.len(),
    ensures
        match r {
            Some(b) => splice(text@, idx_view(order@).map_values(|j: int| edits@[j]@), 0) == Some(b@),
            None => splice(text@, idx_view(order@).map_values(|j: int| edits@[j]@), 0) is None,
        },
{
    let ghost es = idx_view(order@).map_values(|j: int| edits@[j]@);
    let mut out: Vec<u8> = Vec::with_capacity(text.len());
    let mut cursor: usize = 0;
    let mut i: usize = 0;
    assert(es.skip(0) =~= es);
    assert(out@ =~= Seq::<u8>::empty());
    while i < order.len()
        invariant
            0 <= i <= order@.len(),
            es.len() == order@.len(),
            es == idx_view(order@).map_values(|j: int| edits@[j]@),
            forall|a: int| 0 <= a < order@.len() ==> #[trigger] order@[a] < edits@.len(),
            cursor <= text@.len(),
            splice(text@, es, 0) == prepend(out@, splice(text@, es.skip(i as int), cursor as int)),
        decreases order@.len() - i,
    {
        let e = &edits[order[i]];
        let ghost rest = es.skip(i as int);
        assert(rest[0] == e@);
        assert(rest.drop_first() =~= es.skip(i + 1));
        if !(cursor <= e.start && e.start <= e.end && e.end <= text.len()) {
            return None;
        }
        let ghost before = out@;
        push_range(&mut out, text, cursor, e.start);
        push_bytes(&mut out, &e.block);
        proof {
            let x = text@.subrange(cursor as int, e.start as int) + e.block@;
            assert(out@ == before + x);
            match splice(text@, es.skip(i + 1), e.end as int) {
                Some(r) => {
                    assert(before + (x + r) =~= out@ + r);
                },
                None => {},
            }
        }
        cursor = e.end;
        i = i + 1;
    }
    assert(es.skip(i as int).len() == 0);
    push_range(&mut out, text, cursor, text.len());
    Some(out)
}


/// Tallies `action` in `outcome` and collects its edits; `false` (nothing
/// changed) when the tally would not fit in a `u32`.
fn record_action(edits: &mut Vec<Edit>, outcome: &mut ApplyScaleOutcome, action: ClipAction) -> (ok: bool)
    ensures
        match count_action(*old(outcome), action@) {
            None => !ok,
            Some(o) => ok && *final(outcome) == o && edits_view(final(edits)@) == edits_view(old(edits)@) + action_edits(action@),
        },
{
    let ghost av = action@;
    let ghost old_edits = edits_view(edits@);
    match action {
        ClipAction::Incompatible => {
            if outcome.clips_incompatible == u32::MAX {
                return false;
            }
            outcome.clips_incompatible = outcome.clips_incompatible + 1;
        },
        ClipAction::AlreadySet => {
            if outcome.clips_already_set == u32::MAX {
                return false;
            }
            outcome.clips_already_set = outcome.clips_already_set + 1;
        },
        ClipAction::Insert(mut clip_edits) => {
            if outcome.clips_created == u32::MAX {
                return false;
            }
            outcome.clips_created = outcome.clips_created + 1;
            edits.append(&mut clip_edits);
        },
        ClipAction::Changed(mut clip_edits) => {
            if outcome.clips_changed == u32::MAX {
                return false;
            }
            outcome.clips_changed = outcome.clips_changed + 1;
            edits.append(&mut clip_edits);
        },
        ClipAction::Corrected(mut clip_edits) => {
            if outcome.clips_corrected == u32::MAX {
                return false;
            }
            outcome.clips_corrected = outcome.clips_corrected + 1;
            edits.append(&mut clip_edits);
        },
    }
    assert(edits_view(edits@) =~= old_edits + action_edits(av));
    true
}

proof fn lemma_fold_errors(
    nodes: Seq<NodeV>,
    text: Seq<u8>,
    clips: Seq<int>,
    root_note: int,
    scale_index: int,
    schema: ScaleInfoSchema,
    init: ApplyScaleOutcome,
)
    ensures
        fold_clips(nodes, text, clips, root_note, scale_index, schema, init) matches Err(e) ==> (e == AlsError::MissingNotes || e == AlsError::CountOverflow),
    decreases clips.len(),
{
    if clips.len() > 0 {
        lemma_fold_errors(nodes, text, clips.drop_last(), root_note, scale_index, schema, init);
    }
}

proof fn lemma_fold_prefix_err(
    nodes: Seq<NodeV>,
    text: Seq<u8>,
    clips: Seq<int>,
    t: int,
    root_note: int,
    scale_index: int,
    schema: ScaleInfoSchema,
    init: ApplyScaleOutcome,
    e: AlsError,
)
    requires
        0 <= t <= clips.len(),
        fold_clips(nodes, text, clips.take(t), root_note, scale_index, schema, init) == Err::<(Seq<EditV>, ApplyScaleOutcome), AlsError>(e),
    ensures
        fold_clips(nodes, text, clips, root_note, scale_index, schema, init) == Err::<(Seq<EditV>, ApplyScaleOutcome), AlsError>(e),
    decreases clips.len() - t,
{
    if t == clips.len() {
        assert(clips.take(t) =~= clips);
    } else {
        assert(clips.take(t + 1).drop_last() =~= clips.take(t));
        lemma_fold_prefix_err(nodes, text, clips, t + 1, root_note, scale_index, schema, init, e);
    }
}

/// The rewrite of a parsed document never fails for a parse reason.
pub proof fn lemma_apply_doc_errors(nodes: Seq<NodeV>, text: Seq<u8>, root_note: int, scale_index: int)
    ensures
        apply_doc_spec(nodes, text, root_note, scale_index) matches Err(e) ==> !(e is XmlParse) && !(e is XmlStructure),
{
    if 0 <= scale_index < 35 {
        let init = ApplyScaleOutcome {
            clips_changed: 0,
            clips_created: 0,
            clips_already_set: 0,
            clips_corrected: 0,
            clips_incompatible: 0,
            schema_predates_clip_scale: match major_version_spec(nodes) {
                Some(v) => v < 5,
                None => false,
            },
        };
        lemma_fold_errors(nodes, text, desc_sel(nodes, 0, Some("MidiClip"@), false), root_note, scale_index, sniff_schema_spec(nodes), init);
    }
}

/// How many clips an outcome accounts for.
pub open spec fn clips_counted(o: ApplyScaleOutcome) -> int {
    o.clips_changed + o.clips_created + o.clips_already_set + o.clips_corrected + o.clips_incompatible
}

/// How many clips an outcome records as edited.
pub open spec fn clips_edited(o: ApplyScaleOutcome) -> int {
    o.clips_changed + o.clips_created + o.clips_corrected
}

proof fn lemma_fold_counts(
    nodes: Seq<NodeV>,
    text: Seq<u8>,
    clips: Seq<int>,
    root_note: int,
    scale_index: int,
    schema: ScaleInfoSchema,
    init: ApplyScaleOutcome,
)
    ensures
        fold_clips(nodes, text, clips, root_note, scale_index, schema, init) matches Ok((edits, o)) ==> {
            &&& clips_counted(o) == clips_counted(init) + clips.len()
            &&& clips_edited(o) >= clips_edited(init)
            &&& clips_edited(o) == clips_edited(init) ==> edits.len() == 0
        },
    decreases clips.len(),
{
    if clips.len() > 0 {
        lemma_fold_counts(nodes, text, clips.drop_last(), root_note, scale_index, schema, init);
    }
}

/// Every `MidiClip` of the document is counted exactly once in the outcome
/// of a successful apply.
pub proof fn lemma_every_clip_counted_once(nodes: Seq<NodeV>, text: Seq<u8>, root_note: int, scale_index: int)
    ensures
        apply_doc_spec(nodes, text, root_note, scale_index) matches Ok((_, o)) ==> clips_counted(o) == desc_sel(
            nodes,
            0,
            Some("MidiClip"@),
            false,
        ).len(),
{
    if 0 <= scale_index < 35 {
        let init = ApplyScaleOutcome {
            clips_changed: 0,
            clips_created: 0,
            clips_already_set: 0,
            clips_corrected: 0,
            clips_incompatible: 0,
            schema_predates_clip_scale: match major_version_spec(nodes) {
                Some(v) => v < 5,
                None => false,
            },
        };
        lemma_fold_counts(nodes, text, desc_sel(nodes, 0, Some("MidiClip"@), false), root_note, scale_index, sniff_schema_spec(nodes), init);
    }
}

/// When a successful apply edits no clip, the text comes back byte for
/// byte.
pub proof fn lemma_no_edit_keeps_text(nodes: Seq<NodeV>, text: Seq<u8>, root_note: int, scale_index: int)
    ensures
        apply_doc_spec(nodes, text, root_note, scale_index) matches Ok((b, o)) ==> (clips_edited(o) == 0 ==> b == text),
{
    if 0 <= scale_index < 35 {
        let init = ApplyScaleOutcome {
            clips_changed: 0,
            clips_created: 0,
            clips_already_set: 0,
            clips_corrected: 0,
            clips_incompatible: 0,
            schema_predates_clip_scale: match major_version_spec(nodes) {
                Some(v) => v < 5,
                None => false,
            },
        };
        let clips = desc_sel(nodes, 0, Some("MidiClip"@), false);
        lemma_fold_counts(nodes, text, clips, root_note, scale_index, sniff_schema_spec(nodes), init);
        match fold_clips(nodes, text, clips, root_note, scale_index, sniff_schema_spec(nodes), init) {
            Ok((edits, o)) => {
                if clips_edited(o) == 0 {
                    assert(edits.len() == 0);
                    assert(sort_by_start(edits) =~= Seq::<EditV>::empty());
                    assert(text.subrange(0, text.len() as int) =~= text);
                }
            },
            Err(_) => {},
        }
    }
}

/// Rewrites (or inserts) `ScaleInformation` on every `MidiClip` of `doc`
/// that fits `(target_root_note, target_scale_index)` and is not already
/// deliberately set to another fitting scale, leaving every other byte of
/// the source untouched. Returns the edited text as bytes and the outcome.
pub fn apply_scale_to_doc(doc: &XmlDoc, target_root_note: i32, target_scale_index: i32) -> (r: Result<(Vec<u8>, ApplyScaleOutcome), AlsError>)
    ensures
        match r {
            Ok((b, o)) => apply_doc_spec(doc@.nodes, doc@.text, target_root_note as int, target_scale_index as int) == Ok::<(Seq<u8>, ApplyScaleOutcome), AlsError>((b@, o)),
            Err(e) => apply_doc_spec(doc@.nodes, doc@.text, target_root_note as int, target_scale_index as int) == Err::<(Seq<u8>, ApplyScaleOutcome), AlsError>(e),
        },
{
    let ghost nodes = doc@.nodes;
    let ghost text = doc@.text;
    if target_scale_index < 0 || target_scale_index as usize >= SCALE_COUNT {
        return Err(AlsError::InvalidScaleIndex(target_scale_index));
    }
    let _ = doc.node_count();
    let predates = match ableton_major_version(doc) {
        Some(v) => v < 5,
        None => false,
    };
    let mut outcome = ApplyScaleOutcome {
        clips_changed: 0,
        clips_created: 0,
        clips_already_set: 0,
        clips_corrected: 0,
        clips_incompatible: 0,
        schema_predates_clip_scale: predates,
    };
    let ghost init = outcome;
    let default_schema = sniff_document_schema(doc);
    let clips = doc.desc_select(0, Some("MidiClip"), false);
    let ghost cv = idx_view(clips@);
    proof {
        lemma_select_props(0, nodes.len() as int, desc_pred(nodes, 0, Some("MidiClip"@), false));
        assert(cv.take(0) =~= Seq::<int>::empty());
    }
    let mut edits: Vec<Edit> = Vec::new();
    assert(edits_view(edits@) =~= Seq::<EditV>::empty());
    let mut t: usize = 0;
    while t < clips.len()
        invariant
            0 <= t <= clips@.len(),
            nodes == doc@.nodes,
            text == doc@.text,
            0 <= target_scale_index < 35,
            cv == idx_view(clips@),
            cv == desc_sel(nodes, 0, Some("MidiClip"@), false),
            forall|a: int| 0 <= a < cv.len() ==> 0 <= #[trigger] cv[a] < nodes.len(),
            default_schema == sniff_schema_spec(nodes),
            init == (ApplyScaleOutcome {
                clips_changed: 0,
                clips_created: 0,
                clips_already_set: 0,
                clips_corrected: 0,
                clips_incompatible: 0,
                schema_predates_clip_scale: match major_version_spec(nodes) {
                    Some(v) => v < 5,
                    None => false,
                },
            }),
            fold_clips(nodes, text, cv.take(t as int), target_root_note as int, target_scale_index as int, default_schema, init)
                == Ok::<(Seq<EditV>, ApplyScaleOutcome), AlsError>((edits_view(edits@), outcome)),
        decreases clips@.len() - t,
    {
        let c = clips[t];
        assert(cv[t as int] == c as int);
        assert(cv.take(t + 1).drop_last() =~= cv.take(t as int));
        assert(cv.take(t + 1).last() == c as int);
        let action = match decide_clip_action(doc, c, target_root_note, target_scale_index, default_schema) {
            Some(a) => a,
            None => {
                proof {
                    assert(fold_clips(nodes, text, cv.take(t + 1), target_root_note as int, target_scale_index as int, default_schema, init)
                        == Err::<(Seq<EditV>, ApplyScaleOutcome), AlsError>(AlsError::MissingNotes));
                    lemma_fold_prefix_err(nodes, text, cv, t + 1, target_root_note as int, target_scale_index as int, default_schema, init, AlsError::MissingNotes);
                }
                return Err(AlsError::MissingNotes);
            },
        };
        if !record_action(&mut edits, &mut outcome, action) {
            proof {
                lemma_fold_prefix_err(nodes, text, cv, t + 1, target_root_note as int, target_scale_index as int, default_schema, init, AlsError::CountOverflow);
            }
            return Err(AlsError::CountOverflow);
        }
        t = t + 1;
    }
    assert(cv.take(clips@.len() as int) =~= cv);
    let mut starts: Vec<usize> = Vec::new();
    let mut k: usize = 0;
    while k < edits.len()
        invariant
            0 <= k <= edits@.len(),
            starts@.len() == k,
            forall|a: int| 0 <= a < k ==> #[trigger] starts@[a] == edits@[a].start,
        decreases edits@.len() - k,
    {
        starts.push(edits[k].start);
        k = k + 1;
    }
    let order = stable_sort_positions(&starts);
    proof {
        let ev = edits_view(edits@);
        assert(idx_view(starts@) =~= edit_starts(ev));
        lemma_stable_order_range(edit_starts(ev), ev.len() as int);
        assert(idx_view(order@).map_values(|j: int| edits@[j]@) =~= sort_by_start(ev));
        assert forall|a: int| 0 <= a < order@.len() implies #[trigger] order@[a] < edits@.len() by {
            assert(idx_view(order@)[a] == order@[a] as int);
        }
    }
    let text_bytes = doc.text();
    match apply_edits(text_bytes, &edits, &order) {
        Some(b) => Ok((b, outcome)),
        None => Err(AlsError::EditConflict),
    }
}

/// `r` is what applying root `root` and scale `scale` to the Live Set XML
/// `xml` gives: the parser's and the structure check's errors; the first
/// error of the edit (see [`apply_doc_spec`]); `InvalidUtf8` or `Reparse`
/// when the edited bytes are not UTF-8 or no longer parse; else the edited
/// text and the outcome.
pub open spec fn apply_xml_result(xml: Seq<char>, root: int, scale: int, r: Result<(String, ApplyScaleOutcome), AlsError>) -> bool {
    let bytes = encode_utf8(xml);
    &&& (xml_parsed(xml) is None <==> (r matches Err(AlsError::XmlParse(_))))
    &&& ((r matches Err(AlsError::XmlStructure)) <==> (xml_parsed(xml) matches Some(ns) && !crate::xml::tree_wf(ns, bytes.len() as int)))
    &&& match xml_parsed(xml) {
        Some(ns) => crate::xml::tree_wf(ns, bytes.len() as int) ==> match apply_doc_spec(ns, bytes, root, scale) {
            Err(e) => r == Err::<(String, ApplyScaleOutcome), AlsError>(e),
            Ok((b, o)) => if !valid_utf8(b) {
                r == Err::<(String, ApplyScaleOutcome), AlsError>(AlsError::InvalidUtf8)
            } else if xml_parsed(decode_utf8(b)) is None {
                r matches Err(AlsError::Reparse(_))
            } else {
                r matches Ok((s, o2)) && s@ == decode_utf8(b) && o2 == o
            },
        },
        None => true,
    }
}

/// Applies `(target_root_note, target_scale_index)` to every eligible clip
/// of the Live Set XML `xml` and returns the edited XML and a summary. The
/// edits are byte-range splices, so the result is parsed again before it
/// is returned: an edit that broke the document is refused.
pub fn apply_scale_to_xml(xml: &str, target_root_note: i32, target_scale_index: i32) -> (r: Result<(String, ApplyScaleOutcome), AlsError>)
    ensures
        apply_xml_result(xml@, target_root_note as int, target_scale_index as int, r),
{
    let doc = XmlDoc::from_text(xml)?;
    proof {
        lemma_apply_doc_errors(doc@.nodes, doc@.text, target_root_note as int, target_scale_index as int);
    }
    let (bytes, outcome) = apply_scale_to_doc(&doc, target_root_note, target_scale_index)?;
    let ghost b = bytes@;
    let new_xml = match string_from_utf8(bytes) {
        Some(s) => s,
        None => {
            return Err(AlsError::InvalidUtf8);
        },
    };
    match crate::xml::parse_xml_nodes(new_xml.as_str()) {
        Err(msg) => Err(AlsError::Reparse(msg)),
        Ok(_) => Ok((new_xml, outcome)),
    }
}


/// Two failures that differ at most in the text of a message.
pub open spec fn same_failure(e1: AlsError, e2: AlsError) -> bool {
    match (e1, e2) {
        (AlsError::XmlParse(_), AlsError::XmlParse(_)) => true,
        (AlsError::Reparse(_), AlsError::Reparse(_)) => true,
        _ => e1 == e2,
    }
}

/// Applying a scale to the same text gives the same result every time: the
/// same edited text and outcome, or the same failure (up to the wording of
/// the parser's message).
pub proof fn lemma_apply_result_determined(
    xml: Seq<char>,
    root: int,
    scale: int,
    r1: Result<(String, ApplyScaleOutcome), AlsError>,
    r2: Result<(String, ApplyScaleOutcome), AlsError>,
)
    requires
        apply_xml_result(xml, root, scale, r1),
        apply_xml_result(xml, root, scale, r2),
    ensures
        r1 is Ok <==> r2 is Ok,
        r1 matches Ok((s1, o1)) ==> (r2 matches Ok((s2, o2)) && s1@ == s2@ && o1 == o2),
        r1 matches Err(e1) ==> (r2 matches Err(e2) && same_failure(e1, e2)),
{
}


/// An edit that leaves clip `clip` with `IsInKey` on: the clip's `IsInKey`
/// child already reads `true`, or one edit rewrites that child's whole
/// range to `<IsInKey Value="true" />`; when the clip has no `IsInKey`, one
/// edit inserts, at `at`, a block that starts with that element.
pub open spec fn turns_in_key_on(nodes: Seq<NodeV>, clip: int, at: int, edits: Seq<EditV>) -> bool {
    let flag = encode_utf8("<IsInKey Value=\"true\" />"@);
    let flag_line = encode_utf8("<IsInKey Value=\"true\" />\n"@);
    match first_child_named(nodes, clip, "IsInKey"@) {
        Some(k) => attr_value(nodes[k].attrs, "Value"@) == Some("true"@) || exists|i: int|
            0 <= i < edits.len() && (#[trigger] edits[i]).start == nodes[k].start && edits[i].end == nodes[k].end
                && edits[i].block == flag,
        None => exists|i: int|
            0 <= i < edits.len() && (#[trigger] edits[i]).start == at && edits[i].end == at && edits[i].block.len()
                >= flag_line.len() && edits[i].block.take(flag_line.len() as int) == flag_line,
    }
}

/// Every clip whose `ScaleInformation` is written (inserted, changed or
/// corrected) ends up in key: its edits turn `IsInKey` on, inserting the
/// flag right before the rewritten `ScaleInformation`, or right before
/// `Notes` where a new block is inserted, when the clip has none.
pub proof fn lemma_written_clip_is_in_key(
    nodes: Seq<NodeV>,
    text: Seq<u8>,
    clip: int,
    root_note: int,
    scale_index: int,
    schema: ScaleInfoSchema,
)
    ensures
        match clip_action_spec(nodes, text, clip, root_note, scale_index, schema) {
            Some(ActionV::Insert(e)) => first_child_named(nodes, clip, "Notes"@) matches Some(n) && turns_in_key_on(
                nodes,
                clip,
                nodes[n].start,
                e,
            ),
            Some(ActionV::Changed(e)) => first_child_named(nodes, clip, "ScaleInformation"@) matches Some(si)
                && turns_in_key_on(nodes, clip, nodes[si].start, e),
            Some(ActionV::Corrected(e)) => first_child_named(nodes, clip, "ScaleInformation"@) matches Some(si)
                && turns_in_key_on(nodes, clip, nodes[si].start, e),
            _ => true,
        },
{
    let flag_line = encode_utf8("<IsInKey Value=\"true\" />\n"@);
    match clip_action_spec(nodes, text, clip, root_note, scale_index, schema) {
        Some(ActionV::Insert(e)) => {
            let n = first_child_named(nodes, clip, "Notes"@)->0;
            let indent = leading_indent_spec(text, nodes[n].start);
            if let Some(x) = in_key_edit_spec(nodes, clip, nodes[n].start, indent) {
                assert(e[0] == x);
                assert((flag_line + indent).take(flag_line.len() as int) =~= flag_line);
            }
        },
        Some(ActionV::Changed(e)) => {
            let si = first_child_named(nodes, clip, "ScaleInformation"@)->0;
            let indent = leading_indent_spec(text, nodes[si].start);
            if let Some(x) = in_key_edit_spec(nodes, clip, nodes[si].start, indent) {
                assert(e[0] == x);
                assert((flag_line + indent).take(flag_line.len() as int) =~= flag_line);
            }
        },
        Some(ActionV::Corrected(e)) => {
            let si = first_child_named(nodes, clip, "ScaleInformation"@)->0;
            let indent = leading_indent_spec(text, nodes[si].start);
            if let Some(x) = in_key_edit_spec(nodes, clip, nodes[si].start, indent) {
                assert(e[0] == x);
                assert((flag_line + indent).take(flag_line.len() as int) =~= flag_line);
            }
        },
        _ => {},
    }
}

} // verus!
