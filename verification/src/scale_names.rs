use vstd::prelude::*;

use crate::error::{AlsError, NameTable};
use crate::scale_constants::{NOTE_NAMES, SCALE_NAMES};
use crate::text::str_eq;
use crate::xml::{first_of, lemma_select_prefix_first, lemma_select_props, select};

verus! {

/// The name at `index` in `names`, or `InvalidName(table, index)` when the
/// index is outside the table.
pub fn name_at_index(names: &[&str], index: i32, table: NameTable) -> (r: Result<String, AlsError>)
    ensures
        0 <= index < names@.len() ==> (r matches Ok(s) && s@ == names@[index as int]@),
        !(0 <= index < names@.len()) ==> r == Err::<String, AlsError>(AlsError::InvalidName(table, index)),
{
    if index < 0 || index as usize >= names.len() {
        return Err(AlsError::InvalidName(table, index));
    }
    Ok(names[index as usize].to_owned())
}

/// The note name of pitch class `root_note` (0 = C), e.g. `2` -> `"D"`.
pub fn root_note_name(root_note: i32) -> (r: Result<String, AlsError>)
    ensures
        0 <= root_note < 12 ==> (r matches Ok(s) && s@ == NOTE_NAMES@[root_note as int]@),
        !(0 <= root_note < 12) ==> r == Err::<String, AlsError>(AlsError::InvalidName(NameTable::RootNote, root_note)),
{
    name_at_index(&NOTE_NAMES, root_note, NameTable::RootNote)
}

/// The name of Live's scale number `scale_index`, e.g. `1` -> `"Minor"`.
pub fn validate_scale_name(scale_index: i32) -> (r: Result<String, AlsError>)
    ensures
        0 <= scale_index < 35 ==> (r matches Ok(s) && s@ == SCALE_NAMES@[scale_index as int]@),
        !(0 <= scale_index < 35) ==> r == Err::<String, AlsError>(AlsError::InvalidName(NameTable::Scale, scale_index)),
{
    name_at_index(&SCALE_NAMES, scale_index, NameTable::Scale)
}

/// The position of the first note named `name`.
pub open spec fn note_position(name: Seq<char>) -> Option<int> {
    first_of(select(0, 12, |k: int| NOTE_NAMES@[k]@ == name))
}

/// The pitch class (0 = C) of the note named `name`, e.g. `"D"` -> `2`.
pub fn note_position_of(name: &str) -> (r: Option<usize>)
    ensures
        match r {
            Some(k) => note_position(name@) == Some(k as int) && k < 12,
            None => note_position(name@) is None,
        },
{
    let ghost pred = |k: int| NOTE_NAMES@[k]@ == name@;
    let mut k: usize = 0;
    while k < 12
        invariant
            0 <= k <= 12,
            pred == (|k: int| NOTE_NAMES@[k]@ == name@),
            select(0, k as int, pred) == Seq::<int>::empty(),
        decreases 12 - k,
    {
        if str_eq(NOTE_NAMES[k], name) {
            proof {
                assert(select(0, k + 1, pred) == Seq::<int>::empty().push(k as int));
                lemma_select_props(0, 12, pred);
                lemma_select_prefix_first(0, k as int, 12, pred);
            }
            return Some(k);
        }
        k = k + 1;
    }
    None
}

} // verus!
