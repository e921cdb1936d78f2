use malstrom_lib::categorize::{
    categorize_by_db_tags, categorize_by_name, categorize_lowered_name, categorize_track, TrackCategory,
};

#[test]
fn categorizes_by_name() {
    assert_eq!(categorize_by_name("Drums 2"), TrackCategory::Drums);
    assert_eq!(categorize_by_name("drum_bounce"), TrackCategory::Drums);
    assert_eq!(categorize_by_name("Lead Vocal"), TrackCategory::Vocals);
    assert_eq!(categorize_by_name("Synth 3"), TrackCategory::Other);
}

#[test]
fn categorizes_by_db_tags() {
    assert_eq!(
        categorize_by_db_tags(&["Kick".to_string()]),
        Some(TrackCategory::Drums)
    );
    assert_eq!(
        categorize_by_db_tags(&["Loop".to_string(), "Drum Loop".to_string()]),
        Some(TrackCategory::Drums)
    );
    assert_eq!(categorize_by_db_tags(&[]), None);
    assert_eq!(categorize_by_db_tags(&["Loop".to_string()]), None);
}

#[test]
fn earlier_category_wins_over_keyword_position() {
    // "Bass Drums" holds a Bass keyword first, but Drums is checked first.
    assert_eq!(categorize_by_name("Bass Drums"), TrackCategory::Drums);
    assert_eq!(categorize_lowered_name("sub bass"), TrackCategory::Bass);
    assert_eq!(categorize_by_name("Perc Loop"), TrackCategory::Percussion);
    assert_eq!(categorize_by_name("Warm PADS"), TrackCategory::Pads);
    assert_eq!(categorize_by_name("Riser FX"), TrackCategory::Fx);
    assert_eq!(categorize_by_name("Main Melody"), TrackCategory::Lead);
    assert_eq!(categorize_by_name(""), TrackCategory::Other);
}

#[test]
fn db_tags_match_whole_tags_only() {
    // Tags match a keyword exactly, not as a substring.
    assert_eq!(categorize_by_db_tags(&["Kicks".to_string()]), None);
    assert_eq!(categorize_by_db_tags(&["SUB".to_string()]), Some(TrackCategory::Bass));
    assert_eq!(
        categorize_by_db_tags(&["Riser".to_string(), "Kick".to_string()]),
        Some(TrackCategory::Drums)
    );
}

#[test]
fn override_wins_over_tags_and_name() {
    let overrides = vec![("/p/Song.als::Kick".to_string(), TrackCategory::Pads)];
    let tags = vec![vec!["Kick".to_string()]];
    assert_eq!(categorize_track("Kick", "/p/Song.als", &overrides, &tags), TrackCategory::Pads);
    // Another project's override does not apply.
    assert_eq!(categorize_track("Kick", "/q/Other.als", &overrides, &tags), TrackCategory::Drums);
}

#[test]
fn first_tag_list_that_names_a_category_wins() {
    let tags = vec![vec!["Loop".to_string()], vec!["Vocal".to_string()], vec!["Kick".to_string()]];
    assert_eq!(categorize_track("Untitled", "/p.als", &Vec::new(), &tags), TrackCategory::Vocals);
    // No tag names a category: the name decides.
    let tags = vec![vec!["Loop".to_string()]];
    assert_eq!(categorize_track("Lead Synth", "/p.als", &Vec::new(), &tags), TrackCategory::Lead);
}
