use vstd::prelude::*;

verus! {

/// Which lookup table an out-of-range index was checked against.
#[derive(Debug, Clone, Copy, PartialEq, Eq)]
pub enum NameTable {
    RootNote,
    Scale,
}

/// Every way an operation of this library can fail.
#[derive(Debug, Clone, PartialEq, Eq)]
pub enum AlsError {
    /// The XML parser rejected the text; carries its message.
    XmlParse(String),
    /// The parser's node list is not a tree listed in document order.
    XmlStructure,
    /// A root-note or scale index outside its table.
    InvalidName(NameTable, i32),
    /// `apply_scale` was given a scale index outside the scale table.
    InvalidScaleIndex(i32),
    /// A `MidiClip` that needs a new `ScaleInformation` has no `Notes` child.
    MissingNotes,
    /// Two computed edits overlap, so they cannot be spliced in order.
    EditConflict,
    /// The spliced bytes are not valid UTF-8.
    InvalidUtf8,
    /// The edited document no longer parses; carries the parser's message.
    Reparse(String),
    /// A note or clip tally does not fit in 32 bits.
    CountOverflow,
    /// The document has no `Tracks` element.
    NoTracks,
    /// No free output file name among the candidates tried.
    NoFreeName,
    /// The gzip stream could not be decompressed into UTF-8 text.
    Decompress(String),
    /// Writing the edited project would overwrite the file it was read
    /// from, though overwriting was not asked for.
    WouldOverwriteOriginal,
}

} // verus!
