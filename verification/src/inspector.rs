use vstd::prelude::*;

use std::io::Read;
use std::io::Write;

use crate::categorize::{
    list_tracks, lookup_filenames, listed_tracks, overrides_view, strings_view, summary_is,
    tag_filenames_spec, tags_for, tracks_node, TrackCategory, TrackSummary,
};
use crate::error::AlsError;
use crate::scale_apply::{apply_scale_to_xml, apply_xml_result, ApplyScaleOutcome};
use crate::scale_candidates::{doc_clips, extract_tallies, tallies_are, tallies_fit, ScaleTallies};
use crate::xml::{tree_wf, xml_parsed, NodeV, XmlDoc};
use vstd::utf8::encode_utf8;

verus! {

/// The text that gzip-compressed `data` decompresses to, when it is a gzip
/// stream of UTF-8 text.
pub uninterp spec fn gzip_text(data: Seq<u8>) -> Option<Seq<char>>;

/// `flate2::read::GzDecoder` read to a string. Trusted: `Ok` exactly when
/// `gzip_text(data@)` is some text, and then that text; the decompression
/// itself is not stated.
#[verifier::external_body]
fn gunzip_text(data: &[u8]) -> (r: Result<String, String>)
    ensures
        r is Ok <==> gzip_text(data@) is Some,
        r matches Ok(s) ==> gzip_text(data@) == Some(s@),
{
    let mut decoder = flate2::read::GzDecoder::new(data);
    let mut text = String::new();
    match decoder.read_to_string(&mut text) {
        Ok(_) => Ok(text),
        Err(e) => Err(e.to_string()),
    }
}

/// `flate2::write::GzEncoder` over a byte buffer at the default level.
/// Trusted: it succeeds (writing into a `Vec` cannot fail, and a fresh
/// default-level compressor reports no error), and what it produces
/// decompresses back to `text`; the compressed bytes themselves are not
/// stated.
#[verifier::external_body]
fn gzip_bytes(text: &str) -> (r: Result<Vec<u8>, String>)
    ensures
        r is Ok,
        r matches Ok(b) ==> gzip_text(b@) == Some(text@),
{
    let mut encoder = flate2::write::GzEncoder::new(Vec::new(), flate2::Compression::default());
    match encoder.write_all(text.as_bytes()) {
        Ok(()) => {},
        Err(e) => return Err(e.to_string()),
    }
    match encoder.finish() {
        Ok(bytes) => Ok(bytes),
        Err(e) => Err(e.to_string()),
    }
}

/// Gzip-compresses a Live Set's XML, as `.als` files are stored. What it
/// produces, [`AlsInspector::from_gzip`] opens back to the same XML.
pub fn encode_als(xml: &str) -> (r: Vec<u8>)
    ensures
        gzip_text(r@) == Some(xml@),
{
    match gzip_bytes(xml) {
        Ok(b) => b,
        Err(_) => {
            assert(false);
            Vec::new()
        },
    }
}

/// The parsed node list of `xml` when it parses into a tree listed in
/// document order (see [`XmlDoc::from_text`]).
pub open spec fn parsed_tree(xml: Seq<char>) -> Option<Seq<NodeV>> {
    match xml_parsed(xml) {
        Some(ns) => if tree_wf(ns, encode_utf8(xml).len() as int) {
            Some(ns)
        } else {
            None
        },
        None => None,
    }
}

/// `e` is the error that parsing `xml` fails with: `XmlParse` when the
/// parser rejects it, else `XmlStructure`.
pub open spec fn parse_error(xml: Seq<char>, e: AlsError) -> bool {
    match xml_parsed(xml) {
        None => e is XmlParse,
        Some(_) => e == AlsError::XmlStructure,
    }
}

/// A Live Set's XML, held so several extractions can run against it
/// without decompressing the `.als` file again.
pub struct AlsInspector {
    xml: String,
}

impl View for AlsInspector {
    type V = Seq<char>;

    closed spec fn view(&self) -> Seq<char> {
        self.xml@
    }
}

impl AlsInspector {
    /// Wraps already decompressed Live Set XML.
    pub fn from_xml(xml: String) -> (r: Self)
        ensures
            r@ == xml@,
    {
        AlsInspector { xml }
    }

    /// Decompresses the bytes of a `.als` file. Fails with `Decompress`
    /// exactly when they are not a gzip stream of UTF-8 text.
    pub fn from_gzip(data: &[u8]) -> (r: Result<Self, AlsError>)
        ensures
            r is Ok <==> gzip_text(data@) is Some,
            r matches Ok(i) ==> gzip_text(data@) == Some(i@),
            r matches Err(e) ==> e is Decompress,
    {
        match gunzip_text(data) {
            Ok(xml) => Ok(AlsInspector { xml }),
            Err(msg) => Err(AlsError::Decompress(msg)),
        }
    }

    /// The XML text.
    pub fn xml(&self) -> (r: &str)
        ensures
            r@ == self@,
    {
        self.xml.as_str()
    }

    /// Parses the XML (see [`XmlDoc::from_text`]).
    pub fn parse(&self) -> (r: Result<XmlDoc, AlsError>)
        ensures
            match parsed_tree(self@) {
                Some(ns) => r matches Ok(d) && d@.nodes == ns && d@.text == encode_utf8(self@),
                None => r matches Err(e) && parse_error(self@, e),
            },
    {
        XmlDoc::from_text(self.xml.as_str())
    }

    /// Tallies every MIDI clip of the project against every (root, scale)
    /// pair (see [`extract_tallies`]); rank them with
    /// [`crate::scale_ranking::rank_candidates`].
    pub fn scale_tallies(&self) -> (r: Result<ScaleTallies, AlsError>)
        ensures
            match parsed_tree(self@) {
                Some(ns) => if tallies_fit(ns, doc_clips(ns)) {
                    r matches Ok(t) && tallies_are(t, ns, doc_clips(ns))
                } else {
                    r == Err::<ScaleTallies, AlsError>(AlsError::CountOverflow)
                },
                None => r matches Err(e) && parse_error(self@, e),
            },
    {
        let doc = self.parse()?;
        extract_tallies(&doc)
    }

    /// Applies a (root, scale) pair to every eligible clip and returns the
    /// edited XML and a summary (see [`apply_scale_to_xml`]). Writes
    /// nothing.
    pub fn apply_scale(&self, root_note: i32, scale_index: i32) -> (r: Result<(String, ApplyScaleOutcome), AlsError>)
        ensures
            apply_xml_result(self@, root_note as int, scale_index as int, r),
    {
        apply_scale_to_xml(self.xml.as_str(), root_note, scale_index)
    }

    /// The file names to look each listed track up by in the Live Database,
    /// in the order [`AlsInspector::extract_tracks`] lists the tracks (see
    /// [`lookup_filenames`]).
    pub fn track_lookup_filenames(&self) -> (r: Result<Vec<Vec<String>>, AlsError>)
        ensures
            match parsed_tree(self@) {
                Some(ns) => match tracks_node(ns) {
                    Some(tn) => r matches Ok(v) && v@.len() == listed_tracks(ns, tn).len()
                        && forall|i: int| 0 <= i < v@.len() ==> #[trigger] strings_view(v@[i]@) == tag_filenames_spec(
                            ns,
                            listed_tracks(ns, tn)[i],
                        ),
                    None => r == Err::<Vec<Vec<String>>, AlsError>(AlsError::NoTracks),
                },
                None => r matches Err(e) && parse_error(self@, e),
            },
    {
        let doc = self.parse()?;
        lookup_filenames(&doc)
    }

    /// Lists every track with its category (see [`list_tracks`]).
    /// `db_tags[i]` holds the Live Database tags found for the `i`-th listed
    /// track, one list per successful lookup.
    pub fn extract_tracks(
        &self,
        project_path: &str,
        overrides: &Vec<(String, TrackCategory)>,
        db_tags: &Vec<Vec<Vec<String>>>,
    ) -> (r: Result<Vec<TrackSummary>, AlsError>)
        ensures
            match parsed_tree(self@) {
                Some(ns) => match tracks_node(ns) {
                    Some(tn) => r matches Ok(v) && v@.len() == listed_tracks(ns, tn).len()
                        && forall|i: int| 0 <= i < v@.len() ==> summary_is(
                            #[trigger] v@[i],
                            ns,
                            listed_tracks(ns, tn)[i],
                            project_path@,
                            overrides_view(overrides@),
                            tags_for(db_tags@, i),
                        ),
                    None => r == Err::<Vec<TrackSummary>, AlsError>(AlsError::NoTracks),
                },
                None => r matches Err(e) && parse_error(self@, e),
            },
    {
        let doc = self.parse()?;
        list_tracks(&doc, project_path, overrides, db_tags)
    }
}

} // verus!
