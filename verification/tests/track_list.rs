use malstrom_lib::categorize::{TrackCategory, TrackSummary};
use malstrom_lib::error::AlsError;
use malstrom_lib::inspector::AlsInspector;

fn project_xml(tracks: &str) -> String {
    format!(r#"<Ableton><LiveSet><Tracks>{tracks}</Tracks></LiveSet></Ableton>"#)
}

fn midi_track(name: &str) -> String {
    format!(r#"<MidiTrack Id="1"><Name><EffectiveName Value="{name}" /></Name></MidiTrack>"#)
}

fn audio_track_with_sample(name: &str, sample_path: &str) -> String {
    format!(
        r#"<AudioTrack Id="2">
            <Name><EffectiveName Value="{name}" /></Name>
            <DeviceChain><MainSequencer><ClipSlotList><ClipSlot><ClipSlot><Value>
                <AudioClip Id="1"><SampleRef><FileRef><Path Value="{sample_path}" /></FileRef></SampleRef></AudioClip>
            </Value></ClipSlot></ClipSlot></ClipSlotList></MainSequencer></DeviceChain>
        </AudioTrack>"#
    )
}

fn return_track(name: &str) -> String {
    format!(r#"<ReturnTrack Id="3"><Name><EffectiveName Value="{name}" /></Name></ReturnTrack>"#)
}

fn midi_track_with_devices(name: &str, devices: &str) -> String {
    format!(
        r#"<MidiTrack Id="4">
            <Name><EffectiveName Value="{name}" /></Name>
            <DeviceChain><Devices>{devices}</Devices></DeviceChain>
        </MidiTrack>"#
    )
}

/// A rack-style instrument device (Drum Rack, Sampler, ...) identified by
/// its own saved preset file, not any sample nested inside it.
fn rack_device_with_preset(tag: &str, preset_path: &str) -> String {
    format!(
        r#"<{tag} Id="1">
            <LastPresetRef><Value><FilePresetRef Id="1"><FileRef><Path Value="{preset_path}" /></FileRef></FilePresetRef></Value></LastPresetRef>
        </{tag}>"#
    )
}

/// A `Simpler` device identified by the one sample it wraps.
fn simpler_device_with_sample(sample_path: &str) -> String {
    format!(
        r#"<OriginalSimpler Id="1">
            <SampleRef><FileRef><Path Value="{sample_path}" /></FileRef></SampleRef>
        </OriginalSimpler>"#
    )
}

/// Lists the tracks of `xml`, with `db` standing for the Live Database:
/// (file name, tag) pairs, each file name's tags found in lookup order.
fn list_with_db(xml: String, db: &[(&str, &str)]) -> Result<Vec<TrackSummary>, AlsError> {
    let inspector = AlsInspector::from_xml(xml);
    let filenames = inspector.track_lookup_filenames()?;
    let db_tags: Vec<Vec<Vec<String>>> = filenames
        .iter()
        .map(|names| {
            names
                .iter()
                .map(|name| {
                    db.iter()
                        .filter(|(file, _)| file == name)
                        .map(|(_, tag)| tag.to_string())
                        .collect()
                })
                .collect()
        })
        .collect();
    inspector.extract_tracks("/projects/Song.als", &Vec::new(), &db_tags)
}

fn list_without_db(xml: String) -> Result<Vec<TrackSummary>, AlsError> {
    AlsInspector::from_xml(xml).extract_tracks("/projects/Song.als", &Vec::new(), &Vec::new())
}

#[test]
fn excludes_return_tracks() {
    let xml = project_xml(&format!(
        "{}{}",
        midi_track("Lead Vocal"),
        return_track("A-Reverb")
    ));
    let tracks = list_without_db(xml).unwrap();

    assert_eq!(tracks.len(), 1);
    assert_eq!(tracks[0].name, "Lead Vocal");
}

#[test]
fn falls_back_to_name_when_no_db_path_given() {
    let xml = project_xml(&midi_track("Lead Vocal"));
    let tracks = list_without_db(xml).unwrap();

    assert_eq!(tracks.len(), 1);
    assert_eq!(tracks[0].name, "Lead Vocal");
    assert_eq!(tracks[0].kind, "Midi");
    assert!(matches!(tracks[0].category, TrackCategory::Vocals));
}

#[test]
fn resolves_sample_filename_from_audio_track() {
    let xml = project_xml(&audio_track_with_sample(
        "Untitled",
        "/Users/me/Samples/Kick.wav",
    ));
    let inspector = AlsInspector::from_xml(xml.clone());
    assert_eq!(inspector.track_lookup_filenames().unwrap(), vec![vec!["Kick.wav".to_string()]]);
    let tracks = list_without_db(xml).unwrap();

    assert_eq!(tracks.len(), 1);
    assert_eq!(tracks[0].kind, "Audio");
    assert!(matches!(tracks[0].category, TrackCategory::Other));
}

#[test]
fn db_tag_wins_over_an_unrelated_track_name() {
    let xml = project_xml(&audio_track_with_sample("Untitled", "/tmp/track-list-db/Kick.wav"));
    let tracks = list_with_db(xml, &[("Kick.wav", "Kick")]).unwrap();

    assert_eq!(tracks.len(), 1);
    assert!(matches!(tracks[0].category, TrackCategory::Drums));
}

#[test]
fn categorizes_rack_instrument_by_its_own_preset_not_a_nested_sample() {
    let xml = project_xml(&midi_track_with_devices(
        "Untitled",
        &rack_device_with_preset("DrumGroupDevice", "Drums/Abyss Kit.adg"),
    ));
    let tracks = list_with_db(xml, &[("Abyss Kit.adg", "drum loop")]).unwrap();

    assert_eq!(tracks.len(), 1);
    assert!(matches!(tracks[0].category, TrackCategory::Drums));
}

#[test]
fn categorizes_simpler_by_its_wrapped_sample() {
    let xml = project_xml(&midi_track_with_devices(
        "Untitled",
        &simpler_device_with_sample("/tmp/track-list-simpler-sample/Kick.wav"),
    ));
    let tracks = list_with_db(xml, &[("Kick.wav", "kick")]).unwrap();

    assert_eq!(tracks.len(), 1);
    assert!(matches!(tracks[0].category, TrackCategory::Drums));
}

#[test]
fn skips_leading_midi_effect_to_find_the_instrument() {
    let devices = format!(
        r#"<MidiArpeggiator Id="0" />{}"#,
        rack_device_with_preset("DrumGroupDevice", "Drums/Abyss Kit.adg")
    );
    let xml = project_xml(&midi_track_with_devices("Untitled", &devices));
    let tracks = list_with_db(xml, &[("Abyss Kit.adg", "drum loop")]).unwrap();

    assert_eq!(tracks.len(), 1);
    assert!(matches!(tracks[0].category, TrackCategory::Drums));
}

#[test]
fn factory_default_preset_falls_back_to_name() {
    let xml = project_xml(&midi_track_with_devices(
        "Lead Synth",
        r#"<InstrumentVector Id="1">
            <LastPresetRef><Value><AbletonDefaultPresetRef Id="1"><FileRef><Path Value="/Applications/Ableton Live 12 Suite.app/.../Wavetable" /></FileRef></AbletonDefaultPresetRef></Value></LastPresetRef>
        </InstrumentVector>"#,
    ));
    let inspector = AlsInspector::from_xml(xml.clone());
    assert_eq!(inspector.track_lookup_filenames().unwrap(), vec![Vec::<String>::new()]);
    let tracks = list_with_db(xml, &[("Abyss Kit.adg", "drum loop")]).unwrap();

    assert_eq!(tracks.len(), 1);
    assert!(matches!(tracks[0].category, TrackCategory::Lead));
}

#[test]
fn missing_tracks_element_is_an_error() {
    let result = list_without_db("<Ableton><LiveSet /></Ableton>".to_string());
    assert!(matches!(result, Err(AlsError::NoTracks)));
}

#[test]
fn track_kind_strips_every_trailing_track_suffix() {
    let xml = project_xml(r#"<GroupTrack Id="5"><Name><EffectiveName Value="Bus" /></Name></GroupTrack><TrackTrack Id="6" />"#);
    let tracks = list_without_db(xml).unwrap();
    assert_eq!(tracks.len(), 2);
    assert_eq!(tracks[0].kind, "Group");
    assert_eq!(tracks[1].kind, "");
    assert_eq!(tracks[1].name, "");
}
