use vstd::prelude::*;

use crate::scale_constants::SCALE_NAMES;
use crate::text::{decimal_bytes, parse_i32, parse_i32_str, push_bytes, push_decimal_bytes, push_str_bytes, str_eq};
use vstd::utf8::encode_utf8;
use crate::xml::{
    attr_value, child_pred, child_sel, child_value, desc_pred, desc_sel, first_of, idx_view,
    lemma_select_prefix_first, lemma_select_props, select, NodeV, XmlDoc,
};

verus! {

/// The two tag names Live has used for a `ScaleInformation` root note:
/// `Root` (Live 12.x) and `RootNote` (Live 11.x).
pub const ROOT_TAGS: [&'static str; 2] = ["Root", "RootNote"];

/// Which tag carries the root note in a `ScaleInformation` block.
#[derive(Debug, Clone, Copy, PartialEq, Eq, Structural)]
pub enum RootTag {
    /// `<Root Value="N" />` (Live 12.x).
    Root,
    /// `<RootNote Value="N" />` (Live 11.x).
    RootNote,
}

/// Which `ScaleInformation` shape a node uses: the tag carrying the root
/// note, and whether `Name`'s value is a numeric scale index (Live 12.x)
/// rather than a literal scale name (Live 11.x).
#[derive(Debug, Clone, Copy, PartialEq, Eq, Structural)]
pub struct ScaleInfoSchema {
    pub root_tag: RootTag,
    pub numeric_name: bool,
}

/// The shape used when nothing in a document shows another one.
pub open spec fn default_schema() -> ScaleInfoSchema {
    ScaleInfoSchema { root_tag: RootTag::Root, numeric_name: true }
}

pub open spec fn root_tag_name(t: RootTag) -> Seq<char> {
    match t {
        RootTag::Root => ROOT_TAGS@[0]@,
        RootTag::RootNote => ROOT_TAGS@[1]@,
    }
}

impl RootTag {
    /// The tag name, `"Root"` or `"RootNote"`.
    pub fn name(&self) -> (r: &'static str)
        ensures
            r@ == root_tag_name(*self),
    {
        match self {
            RootTag::Root => ROOT_TAGS[0],
            RootTag::RootNote => ROOT_TAGS[1],
        }
    }
}

/// The document's own file-format major version: the `MajorVersion`
/// attribute of the root element, as an `i32`.
pub open spec fn major_version_spec(nodes: Seq<NodeV>) -> Option<int> {
    match first_of(child_sel(nodes, 0, None, true)) {
        Some(e) => match attr_value(nodes[e].attrs, "MajorVersion"@) {
            Some(v) => parse_i32(v),
            None => None,
        },
        None => None,
    }
}

/// Node `i` has a child (of any kind) named `tag`.
pub open spec fn has_child_named_spec(nodes: Seq<NodeV>, i: int, tag: Seq<char>) -> bool {
    child_sel(nodes, i, Some(tag), false).len() > 0
}

/// Both root tags are present under node `i` at once: a corrupted block.
pub open spec fn ambiguous_root_tags_spec(nodes: Seq<NodeV>, i: int) -> bool {
    has_child_named_spec(nodes, i, ROOT_TAGS@[0]@) && has_child_named_spec(nodes, i, ROOT_TAGS@[1]@)
}

/// The shape of the `ScaleInformation` node `i`: the root tag present
/// (none or both: no shape), and whether its `Name` value, when it has one,
/// parses as an `i32`.
pub open spec fn detect_schema_spec(nodes: Seq<NodeV>, i: int) -> Option<ScaleInfoSchema> {
    if ambiguous_root_tags_spec(nodes, i) {
        None
    } else {
        let numeric_name = match child_value(nodes, i, "Name"@) {
            Some(v) => parse_i32(v) is Some,
            None => true,
        };
        if has_child_named_spec(nodes, i, ROOT_TAGS@[0]@) {
            Some(ScaleInfoSchema { root_tag: RootTag::Root, numeric_name })
        } else if has_child_named_spec(nodes, i, ROOT_TAGS@[1]@) {
            Some(ScaleInfoSchema { root_tag: RootTag::RootNote, numeric_name })
        } else {
            None
        }
    }
}

/// The root note value of node `i`: the `Value` of the first root tag that
/// has one, as an `i32`.
pub open spec fn read_root_value_spec(nodes: Seq<NodeV>, i: int) -> Option<int> {
    match child_value(nodes, i, ROOT_TAGS@[0]@) {
        Some(v) => parse_i32(v),
        None => match child_value(nodes, i, ROOT_TAGS@[1]@) {
            Some(v) => parse_i32(v),
            None => None,
        },
    }
}

/// The position of the first scale named `name`.
pub open spec fn scale_position(name: Seq<char>) -> Option<int> {
    first_of(select(0, 35, |k: int| SCALE_NAMES@[k]@ == name))
}

/// The scale index of node `i`: its `Name` value, read as a number or else
/// looked up as a scale name.
pub open spec fn read_scale_index_spec(nodes: Seq<NodeV>, i: int) -> Option<int> {
    match child_value(nodes, i, "Name"@) {
        Some(raw) => match parse_i32(raw) {
            Some(v) => Some(v),
            None => scale_position(raw),
        },
        None => None,
    }
}

/// The shape of the first `ScaleInformation` node (in document order) whose
/// shape can be told, among `cands`.
pub open spec fn first_schema(nodes: Seq<NodeV>, cands: Seq<int>) -> Option<ScaleInfoSchema>
    decreases cands.len(),
{
    if cands.len() == 0 {
        None
    } else {
        match detect_schema_spec(nodes, cands[0]) {
            Some(s) => Some(s),
            None => first_schema(nodes, cands.drop_first()),
        }
    }
}

/// The document's `ScaleInformation` shape: that of the first node whose
/// shape can be told, else the default.
pub open spec fn sniff_schema_spec(nodes: Seq<NodeV>) -> ScaleInfoSchema {
    match first_schema(nodes, desc_sel(nodes, 0, Some("ScaleInformation"@), false)) {
        Some(s) => s,
        None => default_schema(),
    }
}

/// The bytes of a `ScaleInformation` element in the given shape.
pub open spec fn scale_block_spec(
    indent: Seq<u8>,
    schema: ScaleInfoSchema,
    root_note: int,
    scale_index: int,
    other_children: Seq<u8>,
) -> Seq<u8> {
    let name_value = if schema.numeric_name {
        decimal_bytes(scale_index)
    } else {
        encode_utf8(SCALE_NAMES@[scale_index]@)
    };
    encode_utf8("<ScaleInformation>\n"@) + indent + encode_utf8("\t<"@) + encode_utf8(
        root_tag_name(schema.root_tag),
    ) + encode_utf8(" Value=\""@) + decimal_bytes(root_note) + encode_utf8("\" />\n"@) + indent
        + encode_utf8("\t<Name Value=\""@) + name_value + encode_utf8("\" />"@) + other_children
        + encode_utf8("\n"@) + indent + encode_utf8("</ScaleInformation>"@)
}

/// The document's `MajorVersion`, when present and numeric.
pub fn ableton_major_version(doc: &XmlDoc) -> (r: Option<i32>)
    ensures
        match r {
            Some(v) => major_version_spec(doc@.nodes) == Some(v as int),
            None => major_version_spec(doc@.nodes) is None,
        },
{
    let _ = doc.node_count();
    let elems = doc.child_select(0, None, true);
    if elems.len() == 0 {
        return None;
    }
    proof {
        assert(idx_view(elems@)[0] == elems@[0] as int);
        lemma_select_props(0, doc@.nodes.len() as int, child_pred(doc@.nodes, 0, None, true));
    }
    match doc.attribute(elems[0], "MajorVersion") {
        Some(v) => parse_i32_str(v.as_str()),
        None => None,
    }
}

/// Whether node `i` has a child named `tag`.
pub fn has_child_named(doc: &XmlDoc, i: usize, tag: &str) -> (r: bool)
    requires
        i < doc@.nodes.len(),
    ensures
        r == has_child_named_spec(doc@.nodes, i as int, tag@),
{
    doc.child_select(i, Some(tag), false).len() > 0
}

/// Whether node `i` has both root tags at once: a corrupted block that
/// must always be rewritten, never trusted.
pub fn has_ambiguous_root_tags(doc: &XmlDoc, i: usize) -> (r: bool)
    requires
        i < doc@.nodes.len(),
    ensures
        r == ambiguous_root_tags_spec(doc@.nodes, i as int),
{
    has_child_named(doc, i, ROOT_TAGS[0]) && has_child_named(doc, i, ROOT_TAGS[1])
}

/// The shape of the `ScaleInformation` node `i`, if it can be told.
pub fn detect_schema(doc: &XmlDoc, i: usize) -> (r: Option<ScaleInfoSchema>)
    requires
        i < doc@.nodes.len(),
    ensures
        r == detect_schema_spec(doc@.nodes, i as int),
{
    if has_ambiguous_root_tags(doc, i) {
        return None;
    }
    let numeric_name = match doc.child_value(i, "Name") {
        Some(v) => parse_i32_str(v.as_str()).is_some(),
        None => true,
    };
    if has_child_named(doc, i, ROOT_TAGS[0]) {
        Some(ScaleInfoSchema { root_tag: RootTag::Root, numeric_name })
    } else if has_child_named(doc, i, ROOT_TAGS[1]) {
        Some(ScaleInfoSchema { root_tag: RootTag::RootNote, numeric_name })
    } else {
        None
    }
}

/// The root note value of node `i`, checking both root tags.
pub fn read_root_value(doc: &XmlDoc, i: usize) -> (r: Option<i32>)
    requires
        i < doc@.nodes.len(),
    ensures
        match r {
            Some(v) => read_root_value_spec(doc@.nodes, i as int) == Some(v as int),
            None => read_root_value_spec(doc@.nodes, i as int) is None,
        },
{
    let raw = match doc.child_value(i, ROOT_TAGS[0]) {
        Some(v) => v,
        None => match doc.child_value(i, ROOT_TAGS[1]) {
            Some(v) => v,
            None => {
                return None;
            },
        },
    };
    parse_i32_str(raw.as_str())
}

/// The index of the first scale named `name`.
pub fn scale_position_of(name: &str) -> (r: Option<usize>)
    ensures
        match r {
            Some(k) => scale_position(name@) == Some(k as int) && k < 35,
            None => scale_position(name@) is None,
        },
{
    let ghost pred = |k: int| SCALE_NAMES@[k]@ == name@;
    let mut k: usize = 0;
    while k < 35
        invariant
            0 <= k <= 35,
            pred == (|k: int| SCALE_NAMES@[k]@ == name@),
            select(0, k as int, pred) == Seq::<int>::empty(),
        decreases 35 - k,
    {
        if str_eq(SCALE_NAMES[k], name) {
            proof {
                assert(select(0, k + 1, pred) == Seq::<int>::empty().push(k as int));
                lemma_select_props(0, 35, pred);
                lemma_select_prefix_first(0, k as int, 35, pred);
            }
            return Some(k);
        }
        k = k + 1;
    }
    None
}

/// The scale index of node `i`, stored as a number (Live 12.x) or as a
/// scale name (Live 11.x).
pub fn read_scale_index(doc: &XmlDoc, i: usize) -> (r: Option<i32>)
    requires
        i < doc@.nodes.len(),
    ensures
        match r {
            Some(v) => read_scale_index_spec(doc@.nodes, i as int) == Some(v as int),
            None => read_scale_index_spec(doc@.nodes, i as int) is None,
        },
{
    let raw = match doc.child_value(i, "Name") {
        Some(v) => v,
        None => {
            return None;
        },
    };
    match parse_i32_str(raw.as_str()) {
        Some(v) => Some(v),
        None => match scale_position_of(raw.as_str()) {
            Some(k) => Some(k as i32),
            None => None,
        },
    }
}

/// The shape used by the document's `ScaleInformation` nodes: that of the
/// first one whose shape can be told, else the default (`Root`, numeric).
pub fn sniff_document_schema(doc: &XmlDoc) -> (r: ScaleInfoSchema)
    ensures
        r == sniff_schema_spec(doc@.nodes),
{
    let _ = doc.node_count();
    let cands = doc.desc_select(0, Some("ScaleInformation"), false);
    let ghost cv = idx_view(cands@);
    let mut k: usize = 0;
    proof {
        lemma_select_props(0, doc@.nodes.len() as int, desc_pred(doc@.nodes, 0, Some("ScaleInformation"@), false));
        assert(cv.skip(0) =~= cv);
    }
    while k < cands.len()
        invariant
            0 <= k <= cands@.len(),
            cv == idx_view(cands@),
            cv == desc_sel(doc@.nodes, 0, Some("ScaleInformation"@), false),
            forall|a: int| 0 <= a < cv.len() ==> 0 <= #[trigger] cv[a] < doc@.nodes.len(),
            first_schema(doc@.nodes, cv) == first_schema(doc@.nodes, cv.skip(k as int)),
        decreases cands@.len() - k,
    {
        assert(cv[k as int] == cands@[k as int] as int);
        let ghost rest = cv.skip(k as int);
        assert(rest[0] == cv[k as int]);
        match detect_schema(doc, cands[k]) {
            Some(s) => {
                return s;
            },
            None => {},
        }
        assert(rest.drop_first() =~= cv.skip(k + 1));
        k = k + 1;
    }
    ScaleInfoSchema { root_tag: RootTag::Root, numeric_name: true }
}

/// The bytes of a `ScaleInformation` element in `schema`'s shape carrying
/// `root_note` and `scale_index`, indented by `indent`, with
/// `other_children` (already indented source text) kept after `Name`.
pub fn scale_information_block(
    indent: &Vec<u8>,
    schema: ScaleInfoSchema,
    root_note: i32,
    scale_index: i32,
    other_children: &Vec<u8>,
) -> (r: Vec<u8>)
    requires
        !schema.numeric_name ==> 0 <= scale_index < 35,
    ensures
        r@ == scale_block_spec(indent@, schema, root_note as int, scale_index as int, other_children@),
{
    let mut out: Vec<u8> = Vec::new();
    push_str_bytes(&mut out, "<ScaleInformation>\n");
    push_bytes(&mut out, indent);
    push_str_bytes(&mut out, "\t<");
    push_str_bytes(&mut out, schema.root_tag.name());
    push_str_bytes(&mut out, " Value=\"");
    push_decimal_bytes(&mut out, root_note as i64);
    push_str_bytes(&mut out, "\" />\n");
    push_bytes(&mut out, indent);
    push_str_bytes(&mut out, "\t<Name Value=\"");
    if schema.numeric_name {
        push_decimal_bytes(&mut out, scale_index as i64);
    } else {
        push_str_bytes(&mut out, SCALE_NAMES[scale_index as usize]);
    }
    push_str_bytes(&mut out, "\" />");
    push_bytes(&mut out, other_children);
    push_str_bytes(&mut out, "\n");
    push_bytes(&mut out, indent);
    push_str_bytes(&mut out, "</ScaleInformation>");
    assert(out@ =~= scale_block_spec(indent@, schema, root_note as int, scale_index as int, other_children@));
    out
}

} // verus!
