use vstd::prelude::*;

verus! {

/// The twelve chromatic pitch names, indexed by pitch class (0 = C).
pub const NOTE_NAMES: [&'static str; 12] = [
    "C", "C#", "D", "D#", "E", "F", "F#", "G", "G#", "A", "A#", "B",
];

/// The number of scale types Live knows, in Live's own index order.
pub const SCALE_COUNT: usize = 35;

/// Live's scale names, in Live's own index order (the index stored in
/// `.als` files).
pub const SCALE_NAMES: [&'static str; 35] = [
    "Major",
    "Minor",
    "Dorian",
    "Mixolydian",
    "Lydian",
    "Phrygian",
    "Locrian",
    "Whole Tone",
    "Half-whole Dim.",
    "Whole-half Dim.",
    "Minor Blues",
    "Minor Pentatonic",
    "Major Pentatonic",
    "Harmonic Minor",
    "Harmonic Major",
    "Dorian #4",
    "Phrygian Dominant",
    "Melodic Minor",
    "Lydian Augmented",
    "Lydian Dominant",
    "Super Locrian",
    "8-Tone Spanish",
    "Bhairav",
    "Hungarian Minor",
    "Hirajoshi",
    "In-Sen",
    "Iwato",
    "Kumoi",
    "Pelog Selisir",
    "Pelog Tembung",
    "Messiaen 3",
    "Messiaen 4",
    "Messiaen 5",
    "Messiaen 6",
    "Messiaen 7",
];

/// Scales offered as "common" by default; every other scale is "exotic".
/// Chosen by name, since the order of `SCALE_NAMES` is fixed by Live.
pub const COMMON_SCALE_NAMES: [&'static str; 10] = [
    "Major",
    "Minor",
    "Dorian",
    "Mixolydian",
    "Lydian",
    "Phrygian",
    "Locrian",
    "Minor Blues",
    "Minor Pentatonic",
    "Major Pentatonic",
];

/// Semitone offsets from the root for scale `index`, in the order of
/// `SCALE_NAMES`.
pub open spec fn scale_intervals_spec(index: int) -> Seq<u8> {
    if index == 0 {
        seq![0u8, 2, 4, 5, 7, 9, 11]  // Major
    } else if index == 1 {
        seq![0u8, 2, 3, 5, 7, 8, 10]  // Minor
    } else if index == 2 {
        seq![0u8, 2, 3, 5, 7, 9, 10]  // Dorian
    } else if index == 3 {
        seq![0u8, 2, 4, 5, 7, 9, 10]  // Mixolydian
    } else if index == 4 {
        seq![0u8, 2, 4, 6, 7, 9, 11]  // Lydian
    } else if index == 5 {
        seq![0u8, 1, 3, 5, 7, 8, 10]  // Phrygian
    } else if index == 6 {
        seq![0u8, 1, 3, 5, 6, 8, 10]  // Locrian
    } else if index == 7 {
        seq![0u8, 2, 4, 6, 8, 10]  // Whole Tone
    } else if index == 8 {
        seq![0u8, 1, 3, 4, 6, 7, 9, 10]  // Half-whole Dim.
    } else if index == 9 {
        seq![0u8, 2, 3, 5, 6, 8, 9, 11]  // Whole-half Dim.
    } else if index == 10 {
        seq![0u8, 3, 5, 6, 7, 10]  // Minor Blues
    } else if index == 11 {
        seq![0u8, 3, 5, 7, 10]  // Minor Pentatonic
    } else if index == 12 {
        seq![0u8, 2, 4, 7, 9]  // Major Pentatonic
    } else if index == 13 {
        seq![0u8, 2, 3, 5, 7, 8, 11]  // Harmonic Minor
    } else if index == 14 {
        seq![0u8, 2, 4, 5, 7, 8, 11]  // Harmonic Major
    } else if index == 15 {
        seq![0u8, 2, 3, 6, 7, 9, 11]  // Dorian #4
    } else if index == 16 {
        seq![0u8, 1, 4, 5, 7, 8, 10]  // Phrygian Dominant
    } else if index == 17 {
        seq![0u8, 2, 3, 5, 7, 9, 11]  // Melodic Minor
    } else if index == 18 {
        seq![0u8, 2, 4, 6, 8, 9, 11]  // Lydian Augmented
    } else if index == 19 {
        seq![0u8, 2, 4, 6, 7, 9, 10]  // Lydian Dominant
    } else if index == 20 {
        seq![0u8, 1, 3, 4, 6, 8, 10]  // Super Locrian
    } else if index == 21 {
        seq![0u8, 1, 4, 5, 7, 8, 10, 11]  // 8-Tone Spanish
    } else if index == 22 {
        seq![0u8, 1, 4, 5, 7, 8, 11]  // Bhairav
    } else if index == 23 {
        seq![0u8, 2, 3, 6, 7, 8, 11]  // Hungarian Minor
    } else if index == 24 {
        seq![0u8, 2, 3, 7, 8]  // Hirajoshi
    } else if index == 25 {
        seq![0u8, 1, 5, 7, 10]  // In-Sen
    } else if index == 26 {
        seq![0u8, 1, 5, 6, 10]  // Iwato
    } else if index == 27 {
        seq![0u8, 2, 3, 7, 9]  // Kumoi
    } else if index == 28 {
        seq![0u8, 1, 3, 7, 8]  // Pelog Selisir
    } else if index == 29 {
        seq![0u8, 1, 5, 7, 8]  // Pelog Tembung
    } else if index == 30 {
        seq![0u8, 2, 3, 4, 6, 7, 8, 10, 11]  // Messiaen 3
    } else if index == 31 {
        seq![0u8, 1, 2, 5, 6, 7, 8, 11]  // Messiaen 4
    } else if index == 32 {
        seq![0u8, 1, 5, 6, 7, 11]  // Messiaen 5
    } else if index == 33 {
        seq![0u8, 2, 4, 5, 6, 8, 10, 11]  // Messiaen 6
    } else {
        seq![0u8, 1, 2, 3, 5, 6, 7, 8, 9, 11]  // Messiaen 7
    }
}

/// The semitone offsets of scale `index` (see [`scale_intervals_spec`]).
pub fn scale_intervals(index: usize) -> (r: Vec<u8>)
    requires
        index < SCALE_COUNT,
    ensures
        r@ == scale_intervals_spec(index as int),
{
    match index {
        0 => vec![0, 2, 4, 5, 7, 9, 11],
        1 => vec![0, 2, 3, 5, 7, 8, 10],
        2 => vec![0, 2, 3, 5, 7, 9, 10],
        3 => vec![0, 2, 4, 5, 7, 9, 10],
        4 => vec![0, 2, 4, 6, 7, 9, 11],
        5 => vec![0, 1, 3, 5, 7, 8, 10],
        6 => vec![0, 1, 3, 5, 6, 8, 10],
        7 => vec![0, 2, 4, 6, 8, 10],
        8 => vec![0, 1, 3, 4, 6, 7, 9, 10],
        9 => vec![0, 2, 3, 5, 6, 8, 9, 11],
        10 => vec![0, 3, 5, 6, 7, 10],
        11 => vec![0, 3, 5, 7, 10],
        12 => vec![0, 2, 4, 7, 9],
        13 => vec![0, 2, 3, 5, 7, 8, 11],
        14 => vec![0, 2, 4, 5, 7, 8, 11],
        15 => vec![0, 2, 3, 6, 7, 9, 11],
        16 => vec![0, 1, 4, 5, 7, 8, 10],
        17 => vec![0, 2, 3, 5, 7, 9, 11],
        18 => vec![0, 2, 4, 6, 8, 9, 11],
        19 => vec![0, 2, 4, 6, 7, 9, 10],
        20 => vec![0, 1, 3, 4, 6, 8, 10],
        21 => vec![0, 1, 4, 5, 7, 8, 10, 11],
        22 => vec![0, 1, 4, 5, 7, 8, 11],
        23 => vec![0, 2, 3, 6, 7, 8, 11],
        24 => vec![0, 2, 3, 7, 8],
        25 => vec![0, 1, 5, 7, 10],
        26 => vec![0, 1, 5, 6, 10],
        27 => vec![0, 2, 3, 7, 9],
        28 => vec![0, 1, 3, 7, 8],
        29 => vec![0, 1, 5, 7, 8],
        30 => vec![0, 2, 3, 4, 6, 7, 8, 10, 11],
        31 => vec![0, 1, 2, 5, 6, 7, 8, 11],
        32 => vec![0, 1, 5, 6, 7, 11],
        33 => vec![0, 2, 4, 5, 6, 8, 10, 11],
        _ => vec![0, 1, 2, 3, 5, 6, 7, 8, 9, 11],
    }
}

} // verus!
