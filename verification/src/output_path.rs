use vstd::prelude::*;

use crate::error::AlsError;
use crate::paths::{
    extension_of, file_stem_of, join_path, parent_of, path_exists, path_extension, path_file_stem,
    path_joined, path_parent, paths_equal, same_path,
};
use crate::scale_apply::{clips_edited, ApplyScaleOutcome};
use crate::xml::opt_str_view;
use crate::text::{
    is_blank, starts_with, starts_with_chars,
    decimal, ends_with, ends_with_chars, lowercase, push_decimal, push_str, str_chars, str_eq,
    string_from_chars, to_lowercase, trim, trimmed,
};

verus! {

/// Characters that cannot stand in a file name on some platform.
pub const UNSAFE_FILENAME_CHARS: [char; 9] = ['/', '\\', ':', '*', '?', '"', '<', '>', '|'];

pub open spec fn is_unsafe_char(c: char) -> bool {
    exists|i: int| 0 <= i < 9 && #[trigger] UNSAFE_FILENAME_CHARS@[i] == c
}

/// `s` with every unsafe character replaced by `-`.
pub open spec fn sanitized(s: Seq<char>) -> Seq<char> {
    s.map_values(|c: char| if is_unsafe_char(c) { '-' } else { c })
}

/// Sanitizing keeps the length and leaves no unsafe character behind.
pub proof fn lemma_sanitized_is_safe(s: Seq<char>)
    ensures
        sanitized(s).len() == s.len(),
        forall|i: int| 0 <= i < s.len() ==> !is_unsafe_char(#[trigger] sanitized(s)[i]),
        forall|i: int| 0 <= i < s.len() && !is_unsafe_char(s[i]) ==> #[trigger] sanitized(s)[i] == s[i],
{
    assert forall|i: int| 0 <= i < s.len() implies !is_unsafe_char(#[trigger] sanitized(s)[i]) by {
        if is_unsafe_char(s[i]) {
            assert(sanitized(s)[i] == '-');
            if is_unsafe_char('-') {
                let k = choose|k: int| 0 <= k < 9 && #[trigger] UNSAFE_FILENAME_CHARS@[k] == '-';
                assert(false);
            }
        }
    }
}

/// Replaces every character that cannot stand in a file name with `-`.
pub fn sanitize_for_filename(s: &str) -> (r: String)
    ensures
        r@ == sanitized(s@),
{
    let chars = str_chars(s);
    let mut out: Vec<char> = Vec::new();
    let mut i: usize = 0;
    while i < chars.len()
        invariant
            0 <= i <= chars@.len(),
            chars@ == s@,
            out@ == sanitized(s@.take(i as int)),
        decreases chars@.len() - i,
    {
        let c = chars[i];
        let mut bad = false;
        let mut j: usize = 0;
        while j < 9
            invariant
                0 <= j <= 9,
                bad == exists|k: int| 0 <= k < j && #[trigger] UNSAFE_FILENAME_CHARS@[k] == c,
            decreases 9 - j,
        {
            if UNSAFE_FILENAME_CHARS[j] == c {
                bad = true;
            }
            j = j + 1;
        }
        if bad {
            out.push('-');
        } else {
            out.push(c);
        }
        assert(s@.take(i + 1) =~= s@.take(i as int).push(c));
        assert(out@ =~= sanitized(s@.take(i + 1)));
        i = i + 1;
    }
    assert(s@.take(chars@.len() as int) =~= s@);
    string_from_chars(&out)
}

/// The directory an output file goes in: `original`'s parent, else `.`.
pub open spec fn output_dir(original: Seq<char>) -> Seq<char> {
    match path_parent(original) {
        Some(d) => d,
        None => seq!['.'],
    }
}

/// `original`'s extension, else `als`.
pub open spec fn output_ext(original: Seq<char>) -> Seq<char> {
    match path_extension(original) {
        Some(e) => e,
        None => seq!['a', 'l', 's'],
    }
}

/// `original`'s file stem, else `project`.
pub open spec fn output_stem(original: Seq<char>) -> Seq<char> {
    match path_file_stem(original) {
        Some(s) => s,
        None => seq!['p', 'r', 'o', 'j', 'e', 'c', 't'],
    }
}

/// The file name tried in attempt `n` (from 0): `{stem} ({label}).{ext}`,
/// then `{stem} ({label}) (2).{ext}`, `(3)`, ...
pub open spec fn candidate_name(stem: Seq<char>, label: Seq<char>, ext: Seq<char>, n: int) -> Seq<char> {
    if n == 0 {
        stem + seq![' ', '('] + label + seq![')', '.'] + ext
    } else {
        stem + seq![' ', '('] + label + seq![')', ' ', '('] + decimal(n + 1) + seq![')', '.'] + ext
    }
}

/// The path tried in attempt `n` for a file derived from `original`, named
/// after root `root` and scale `scale`.
pub open spec fn candidate_path(original: Seq<char>, root: Seq<char>, scale: Seq<char>, n: int) -> Seq<char> {
    path_joined(
        output_dir(original),
        candidate_name(output_stem(original), sanitized(root + seq![' '] + scale), output_ext(original), n),
    )
}

/// The number of attempts made before giving up.
pub const MAX_ATTEMPTS: usize = 1000;

struct OutputParts {
    dir: String,
    stem: String,
    ext: String,
    label: String,
}

fn output_parts(original: &str, root_name: &str, scale_name: &str) -> (r: OutputParts)
    ensures
        r.dir@ == output_dir(original@),
        r.stem@ == output_stem(original@),
        r.ext@ == output_ext(original@),
        r.label@ == sanitized(root_name@ + seq![' '] + scale_name@),
{
    let dir = match parent_of(original) {
        Some(d) => d,
        None => {
            let mut v: Vec<char> = Vec::new();
            v.push('.');
            string_from_chars(&v)
        },
    };
    let stem = match file_stem_of(original) {
        Some(s) => s,
        None => {
            let v = str_chars("project");
            proof {
                reveal_strlit("project");
            }
            assert(v@ =~= seq!['p', 'r', 'o', 'j', 'e', 'c', 't']);
            string_from_chars(&v)
        },
    };
    let ext = match extension_of(original) {
        Some(e) => e,
        None => {
            let v = str_chars("als");
            proof {
                reveal_strlit("als");
            }
            assert(v@ =~= seq!['a', 'l', 's']);
            string_from_chars(&v)
        },
    };
    let mut raw: Vec<char> = Vec::new();
    push_str(&mut raw, root_name);
    raw.push(' ');
    push_str(&mut raw, scale_name);
    assert(raw@ =~= root_name@ + seq![' '] + scale_name@);
    let raw = string_from_chars(&raw);
    let label = sanitize_for_filename(raw.as_str());
    OutputParts { dir, stem, ext, label }
}

fn candidate_at(parts: &OutputParts, n: usize) -> (r: String)
    requires
        n < 1000,
    ensures
        r@ == path_joined(parts.dir@, candidate_name(parts.stem@, parts.label@, parts.ext@, n as int)),
{
    let mut name: Vec<char> = Vec::new();
    push_str(&mut name, parts.stem.as_str());
    name.push(' ');
    name.push('(');
    push_str(&mut name, parts.label.as_str());
    name.push(')');
    if n > 0 {
        name.push(' ');
        name.push('(');
        push_decimal(&mut name, (n + 1) as i64);
        name.push(')');
    }
    name.push('.');
    push_str(&mut name, parts.ext.as_str());
    assert(name@ =~= candidate_name(parts.stem@, parts.label@, parts.ext@, n as int));
    let name = string_from_chars(&name);
    join_path(parts.dir.as_str(), name.as_str())
}

/// The first free output path, given whether each candidate path is
/// taken (`taken[n]` for attempt `n`; attempts past the end of `taken`
/// count as taken): the candidate of the least attempt below
/// `MAX_ATTEMPTS` that is not taken, or `NoFreeName` when there is none.
pub fn pick_free_output_path(
    original: &str,
    root_name: &str,
    scale_name: &str,
    taken: &Vec<bool>,
) -> (r: Result<String, AlsError>)
    ensures
        match r {
            Ok(p) => exists|n: int|
                0 <= n < 1000 && n < taken@.len() && !taken@[n] && p@ == #[trigger] candidate_path(
                    original@,
                    root_name@,
                    scale_name@,
                    n,
                ) && forall|m: int| 0 <= m < n ==> #[trigger] taken@[m],
            Err(e) => e == AlsError::NoFreeName && forall|m: int| 0 <= m < 1000 && m < taken@.len() ==> #[trigger] taken@[m],
        },
{
    let parts = output_parts(original, root_name, scale_name);
    let mut n: usize = 0;
    while n < MAX_ATTEMPTS && n < taken.len()
        invariant
            0 <= n <= 1000,
            n <= taken@.len(),
            parts.dir@ == output_dir(original@),
            parts.stem@ == output_stem(original@),
            parts.ext@ == output_ext(original@),
            parts.label@ == sanitized(root_name@ + seq![' '] + scale_name@),
            forall|m: int| 0 <= m < n ==> #[trigger] taken@[m],
        decreases 1000 - n,
    {
        if !taken[n] {
            let candidate = candidate_at(&parts, n);
            assert(candidate@ == candidate_path(original@, root_name@, scale_name@, n as int));
            return Ok(candidate);
        }
        n = n + 1;
    }
    Err(AlsError::NoFreeName)
}

/// A new output path alongside `original`, named after the applied scale
/// (`MyProject (D Minor).als`, then `MyProject (D Minor) (2).als`, ...):
/// asks the disk whether each candidate exists, in attempt order, until one
/// does not, and returns what [`pick_free_output_path`] picks from those
/// answers. What exists on disk is not known here, so the contract says
/// only that the result is one of the candidates.
pub fn derive_output_path(original: &str, root_name: &str, scale_name: &str) -> (r: Result<String, AlsError>)
    ensures
        match r {
            Ok(p) => exists|n: int| 0 <= n < 1000 && p@ == #[trigger] candidate_path(original@, root_name@, scale_name@, n),
            Err(e) => e == AlsError::NoFreeName,
        },
{
    let parts = output_parts(original, root_name, scale_name);
    let mut taken: Vec<bool> = Vec::new();
    let mut n: usize = 0;
    while n < MAX_ATTEMPTS
        invariant_except_break
            0 <= n <= 1000,
            taken@.len() == n,
        decreases 1000 - n,
    {
        let candidate = candidate_at(&parts, n);
        let exists_now = path_exists(candidate.as_str());
        taken.push(exists_now);
        if !exists_now {
            break;
        }
        n = n + 1;
    }
    pick_free_output_path(original, root_name, scale_name, &taken)
}

/// The file name a user-chosen name becomes: trimmed and sanitized, with
/// `ext` appended unless it already ends (ignoring case) in `.{ext}`.
pub open spec fn named_file(file_name: Seq<char>, ext: Seq<char>) -> Seq<char> {
    let s = sanitized(trimmed(file_name));
    if ends_with(lowercase(s), seq!['.'] + lowercase(ext)) {
        s
    } else {
        s + seq!['.'] + ext
    }
}

/// An output path alongside `original` with a user-chosen file name,
/// sanitized, with `original`'s extension appended when the name does not
/// already end with it. Never suffixed to avoid a collision.
pub fn named_output_path(original: &str, file_name: &str) -> (r: String)
    ensures
        r@ == path_joined(output_dir(original@), named_file(file_name@, output_ext(original@))),
{
    let parts = output_parts(original, "", "");
    let clean = sanitize_for_filename(trim(file_name));
    let lower_clean = str_chars(to_lowercase(clean.as_str()).as_str());
    let mut dot_ext: Vec<char> = Vec::new();
    dot_ext.push('.');
    let lower_ext = to_lowercase(parts.ext.as_str());
    push_str(&mut dot_ext, lower_ext.as_str());
    let named = if ends_with_chars(&lower_clean, &dot_ext) {
        clean
    } else {
        let mut v = str_chars(clean.as_str());
        v.push('.');
        push_str(&mut v, parts.ext.as_str());
        string_from_chars(&v)
    };
    assert(named@ =~= named_file(file_name@, output_ext(original@)));
    join_path(parts.dir.as_str(), named.as_str())
}

/// Where (if anywhere) an applied scale is written: nowhere when no clip
/// changed; `src_path` itself when overwriting; else a path alongside it,
/// named `custom_file_name` when given, or derived from the scale.
pub fn resolve_output_path(
    src_path: &str,
    root_name: &str,
    scale_name: &str,
    overwrite: bool,
    total_touched: u32,
    custom_file_name: Option<&str>,
) -> (r: Result<Option<String>, AlsError>)
    ensures
        total_touched == 0 ==> r == Ok::<Option<String>, AlsError>(None),
        total_touched != 0 && overwrite ==> (r matches Ok(Some(p)) && p@ == src_path@),
        total_touched != 0 && !overwrite && custom_file_name is Some ==> (r matches Ok(Some(p)) && p@ == path_joined(
            output_dir(src_path@),
            named_file(custom_file_name->0@, output_ext(src_path@)),
        )),
        total_touched != 0 && !overwrite && custom_file_name is None ==> match r {
            Ok(Some(p)) => exists|n: int| 0 <= n < 1000 && p@ == #[trigger] candidate_path(src_path@, root_name@, scale_name@, n),
            Ok(None) => false,
            Err(e) => e == AlsError::NoFreeName,
        },
{
    if total_touched == 0 {
        return Ok(None);
    }
    if overwrite {
        return Ok(Some(src_path.to_owned()));
    }
    match custom_file_name {
        Some(file_name) => Ok(Some(named_output_path(src_path, file_name))),
        None => match derive_output_path(src_path, root_name, scale_name) {
            Ok(p) => Ok(Some(p)),
            Err(e) => Err(e),
        },
    }
}

/// The name chosen for a new file: a name of only white space counts as
/// none.
pub open spec fn chosen_name(new_file_name: Option<Seq<char>>) -> Option<Seq<char>> {
    match new_file_name {
        Some(n) => if trimmed(n).len() == 0 {
            None
        } else {
            Some(n)
        },
        None => None,
    }
}

/// Decides where an applied scale is written, given the apply outcome:
/// nowhere when no clip was edited; else where [`resolve_output_path`]
/// puts it (a blank `new_file_name` counting as none), except that without
/// `overwrite` a destination that is the source file itself is refused with
/// `WouldOverwriteOriginal`, so the source is never written over.
pub fn plan_apply_output(
    src_path: &str,
    root_name: &str,
    scale_name: &str,
    overwrite: bool,
    outcome: &ApplyScaleOutcome,
    new_file_name: Option<&str>,
) -> (r: Result<Option<String>, AlsError>)
    ensures
        clips_edited(*outcome) == 0 ==> r == Ok::<Option<String>, AlsError>(None),
        clips_edited(*outcome) != 0 && overwrite ==> (r matches Ok(Some(p)) && p@ == src_path@),
        clips_edited(*outcome) != 0 && !overwrite && chosen_name(opt_str_view(new_file_name)) is Some ==> {
            let dest = path_joined(
                output_dir(src_path@),
                named_file(chosen_name(opt_str_view(new_file_name))->0, output_ext(src_path@)),
            );
            if paths_equal(dest, src_path@) {
                r == Err::<Option<String>, AlsError>(AlsError::WouldOverwriteOriginal)
            } else {
                r matches Ok(Some(p)) && p@ == dest
            }
        },
        clips_edited(*outcome) != 0 && !overwrite && chosen_name(opt_str_view(new_file_name)) is None ==> match r {
            Ok(Some(p)) => exists|n: int|
                0 <= n < 1000 && p@ == #[trigger] candidate_path(src_path@, root_name@, scale_name@, n),
            Ok(None) => false,
            Err(e) => e == AlsError::NoFreeName || e == AlsError::WouldOverwriteOriginal,
        },
        !overwrite ==> !(r matches Ok(Some(p)) && paths_equal(p@, src_path@)),
        !overwrite ==> !(r matches Ok(Some(p)) && p@ == src_path@),
{
    let name = match new_file_name {
        Some(n) => if is_blank(n) {
            None
        } else {
            Some(n)
        },
        None => None,
    };
    assert(opt_str_view(name) == chosen_name(opt_str_view(new_file_name)));
    let edited: u64 = outcome.clips_changed as u64 + outcome.clips_created as u64 + outcome.clips_corrected as u64;
    let touched: u32 = if edited > u32::MAX as u64 {
        u32::MAX
    } else {
        edited as u32
    };
    let dest = resolve_output_path(src_path, root_name, scale_name, overwrite, touched, name)?;
    match dest {
        Some(p) => {
            if !overwrite && same_path(p.as_str(), src_path) {
                Err(AlsError::WouldOverwriteOriginal)
            } else {
                Ok(Some(p))
            }
        },
        None => Ok(None),
    }
}

/// Whether `path` names a Live Set (its extension is `als`).
pub fn is_als_file(path: &str) -> (r: bool)
    ensures
        r == (path_extension(path@) == Some(seq!['a', 'l', 's'])),
{
    match extension_of(path) {
        Some(e) => {
            proof {
                reveal_strlit("als");
                assert("als"@ =~= seq!['a', 'l', 's']);
            }
            let r = str_eq(e.as_str(), "als");
            assert(r == (e@ == seq!['a', 'l', 's']));
            r
        },
        None => false,
    }
}


// ---------------------------------------------------------------------------
// Backups and the Live Database's files
// ---------------------------------------------------------------------------

pub open spec fn backup_word() -> Seq<char> {
    seq!['B', 'a', 'c', 'k', 'u', 'p']
}

/// The folder a project's backups go in: `Backup` beside the project file.
pub open spec fn backup_dir_spec(src: Seq<char>) -> Seq<char> {
    path_joined(output_dir(src), backup_word())
}

/// The backup file name for a copy taken at `stamp`:
/// `{stem} [{stamp}].{ext}`.
pub open spec fn backup_name(src: Seq<char>, stamp: Seq<char>) -> Seq<char> {
    output_stem(src) + seq![' ', '['] + stamp + seq![']', '.'] + output_ext(src)
}

/// The `Backup` folder beside project file `src_path`.
pub fn backup_dir_for(src_path: &str) -> (r: String)
    ensures
        r@ == backup_dir_spec(src_path@),
{
    let parts = output_parts(src_path, "", "");
    let word = str_chars("Backup");
    proof {
        reveal_strlit("Backup");
        assert(word@ =~= backup_word());
    }
    let word = string_from_chars(&word);
    join_path(parts.dir.as_str(), word.as_str())
}

/// Where a backup of `src_path` taken at `timestamp` is written, as Live
/// names its own backups: `Backup/{stem} [{timestamp}].{ext}`.
pub fn backup_path_for(src_path: &str, timestamp: &str) -> (r: String)
    ensures
        r@ == path_joined(backup_dir_spec(src_path@), backup_name(src_path@, timestamp@)),
{
    let parts = output_parts(src_path, "", "");
    let dir = backup_dir_for(src_path);
    let mut name: Vec<char> = Vec::new();
    push_str(&mut name, parts.stem.as_str());
    name.push(' ');
    name.push('[');
    push_str(&mut name, timestamp);
    name.push(']');
    name.push('.');
    push_str(&mut name, parts.ext.as_str());
    assert(name@ =~= backup_name(src_path@, timestamp@));
    let name = string_from_chars(&name);
    join_path(dir.as_str(), name.as_str())
}

/// `name` is the file name of a Live Database: `Live-files-*.db`.
pub open spec fn is_live_db_name(name: Seq<char>) -> bool {
    starts_with(name, seq!['L', 'i', 'v', 'e', '-', 'f', 'i', 'l', 'e', 's', '-']) && ends_with(name, seq!['.', 'd', 'b'])
}

/// Whether file name `name` names a Live Database (`Live-files-*.db`).
pub fn is_live_db_file_name(name: &str) -> (r: bool)
    ensures
        r == is_live_db_name(name@),
{
    let chars = str_chars(name);
    let prefix = str_chars("Live-files-");
    let suffix = str_chars(".db");
    proof {
        reveal_strlit("Live-files-");
        reveal_strlit(".db");
        assert(prefix@ =~= seq!['L', 'i', 'v', 'e', '-', 'f', 'i', 'l', 'e', 's', '-']);
        assert(suffix@ =~= seq!['.', 'd', 'b']);
    }
    starts_with_chars(&chars, &prefix) && ends_with_chars(&chars, &suffix)
}

} // verus!
