use malstrom_lib::error::{AlsError, NameTable};
use malstrom_lib::scale_info_schema::scale_position_of;
use malstrom_lib::scale_names::{note_position_of, root_note_name, validate_scale_name};
use malstrom_lib::output_path::{
    backup_dir_for, backup_path_for, is_als_file, is_live_db_file_name, named_output_path,
    pick_free_output_path, sanitize_for_filename,
};

#[test]
fn sanitize_replaces_every_unsafe_character() {
    assert_eq!(sanitize_for_filename(r#"a/b\c:d*e?f"g<h>i|j"#), "a-b-c-d-e-f-g-h-i-j");
    assert_eq!(sanitize_for_filename("D# Minor"), "D# Minor");
    assert_eq!(sanitize_for_filename(""), "");
}

#[test]
fn named_output_path_keeps_an_extension_in_any_case() {
    assert_eq!(named_output_path("/p/Song.als", "  Take 2.ALS "), "/p/Take 2.ALS");
    assert_eq!(named_output_path("/p/Song.als", "Take 2"), "/p/Take 2.als");
    assert_eq!(named_output_path("Song.als", "x"), "x.als");
}

#[test]
fn pick_free_counts_up_past_taken_names() {
    let original = "/p/Song.als";
    let path = pick_free_output_path(original, "C#", "Minor Blues", &vec![true, true, true, false, false]).unwrap();
    assert_eq!(path, "/p/Song (C# Minor Blues) (4).als");
}

#[test]
fn pick_free_gives_up_when_every_attempt_is_taken() {
    let original = "/p/Song.als";
    let result = pick_free_output_path(original, "D", "Minor", &vec![true; 1000]);
    assert_eq!(result, Err(AlsError::NoFreeName));
    // Beyond the last attempt nothing more is tried.
    let mut taken = vec![true; 1000];
    taken.push(false);
    assert_eq!(pick_free_output_path(original, "D", "Minor", &taken), Err(AlsError::NoFreeName));
}

#[test]
fn pick_free_defaults_missing_parts() {
    let path = pick_free_output_path("Song", "D", "Half-whole Dim.", &vec![false]).unwrap();
    assert_eq!(path, "Song (D Half-whole Dim.).als");
}

#[test]
fn recognizes_live_sets_by_extension() {
    assert!(is_als_file("/p/Song.als"));
    assert!(!is_als_file("/p/notes.txt"));
    assert!(!is_als_file("/p/Song.ALS"));
    assert!(!is_als_file("/p/als"));
}

#[test]
fn names_out_of_range_are_refused() {
    assert_eq!(root_note_name(2), Ok("D".to_string()));
    assert_eq!(root_note_name(12), Err(AlsError::InvalidName(NameTable::RootNote, 12)));
    assert_eq!(validate_scale_name(1), Ok("Minor".to_string()));
    assert_eq!(validate_scale_name(-3), Err(AlsError::InvalidName(NameTable::Scale, -3)));
}

#[test]
fn names_are_found_back_by_position() {
    assert_eq!(note_position_of("C"), Some(0));
    assert_eq!(note_position_of("A#"), Some(10));
    assert_eq!(note_position_of("H"), None);
    assert_eq!(scale_position_of("Dorian"), Some(2));
    assert_eq!(scale_position_of("Messiaen 7"), Some(34));
    assert_eq!(scale_position_of("dorian"), None);
}

#[test]
fn backups_go_beside_the_project_under_live_naming() {
    assert_eq!(backup_dir_for("/p/Project.als"), "/p/Backup");
    assert_eq!(
        backup_path_for("/p/Project.als", "2024-05-01 101500"),
        "/p/Backup/Project [2024-05-01 101500].als"
    );
    assert_eq!(backup_path_for("Project", "t"), "Backup/Project [t].als");
}

#[test]
fn recognizes_live_database_file_names() {
    assert!(is_live_db_file_name("Live-files-12.db"));
    assert!(is_live_db_file_name("Live-files-.db"));
    assert!(!is_live_db_file_name("Live-files-12.db-journal"));
    assert!(!is_live_db_file_name("live-files-12.db"));
    assert!(!is_live_db_file_name("Live-files"));
}
