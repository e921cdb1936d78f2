use malstrom_lib::error::AlsError;
use malstrom_lib::inspector::{encode_als, AlsInspector};
use malstrom_lib::scale_candidates::{ScaleCandidates, ScaleTallies};
use malstrom_lib::scale_ranking::rank_candidates;

/// Coverage of each (root, scale) pair, as the app computes it.
fn coverage_table(t: &ScaleTallies) -> Vec<u32> {
    (0..t.clip_count.len())
        .map(|k| {
            if t.total_pitched_clips == 0 {
                0
            } else {
                ((t.clip_count[k] as f64 / t.total_pitched_clips as f64) * 100.0).round() as u32
            }
        })
        .collect()
}

fn candidates_of(inspector: &AlsInspector) -> Result<ScaleCandidates, AlsError> {
    let tallies = inspector.scale_tallies()?;
    let coverage = coverage_table(&tallies);
    Ok(rank_candidates(&tallies, &coverage))
}

/// Live 12.x-shaped synthetic Live Set: `MajorVersion="5"`, numeric
/// `Root`/`Name`, one MIDI clip with a C Major triad and an explicit
/// `ScaleInformation`.
const LIVE_12_STYLE_XML: &str = r#"<?xml version="1.0" encoding="UTF-8"?>
<Ableton MajorVersion="5" MinorVersion="12.0_12203" SchemaChangeCount="3" Creator="Ableton Live 12.2.7 (synthetic fixture)" Revision="0000000000000000000000000000000000000000">
	<LiveSet>
		<Tracks>
			<MidiTrack Id="1">
				<DeviceChain>
					<MainSequencer>
						<ClipSlotList>
							<ClipSlot>
								<ClipSlot>
									<Value>
										<MidiClip Id="1" Time="0">
											<Notes>
												<KeyTracks>
													<KeyTrack Id="0">
														<Notes>
															<MidiNoteEvent Time="0" Duration="1" Velocity="100" OffVelocity="0" NoteId="0" />
														</Notes>
														<MidiKey Value="60" />
													</KeyTrack>
													<KeyTrack Id="1">
														<Notes>
															<MidiNoteEvent Time="1" Duration="1" Velocity="100" OffVelocity="0" NoteId="1" />
														</Notes>
														<MidiKey Value="64" />
													</KeyTrack>
													<KeyTrack Id="2">
														<Notes>
															<MidiNoteEvent Time="2" Duration="1" Velocity="100" OffVelocity="0" NoteId="2" />
														</Notes>
														<MidiKey Value="67" />
													</KeyTrack>
												</KeyTracks>
											</Notes>
											<IsInKey Value="true" />
											<ScaleInformation>
												<Root Value="0" />
												<Name Value="0" />
											</ScaleInformation>
										</MidiClip>
									</Value>
								</ClipSlot>
							</ClipSlot>
						</ClipSlotList>
					</MainSequencer>
				</DeviceChain>
			</MidiTrack>
		</Tracks>
	</LiveSet>
</Ableton>
"#;

/// Live 9.x-shaped synthetic Live Set: `MajorVersion="4"`, predating the
/// per-clip Scale feature, so no `ScaleInformation` node exists anywhere --
/// one MIDI clip with a D Minor/Dorian-compatible triad (D F A).
const LIVE_9_STYLE_XML: &str = r#"<?xml version="1.0" encoding="UTF-8"?>
<Ableton MajorVersion="4" MinorVersion="9.5_327" Creator="Ableton Live 9.7.7 (synthetic fixture)" Revision="0000000000000000000000000000000000000000">
	<LiveSet>
		<Tracks>
			<MidiTrack Id="1">
				<DeviceChain>
					<MainSequencer>
						<ClipSlotList>
							<ClipSlot>
								<ClipSlot>
									<Value>
										<MidiClip Id="1" Time="0">
											<Notes>
												<KeyTracks>
													<KeyTrack Id="0">
														<Notes>
															<MidiNoteEvent Time="0" Duration="1" Velocity="100" OffVelocity="0" NoteId="0" />
														</Notes>
														<MidiKey Value="62" />
													</KeyTrack>
													<KeyTrack Id="1">
														<Notes>
															<MidiNoteEvent Time="1" Duration="1" Velocity="100" OffVelocity="0" NoteId="1" />
														</Notes>
														<MidiKey Value="65" />
													</KeyTrack>
													<KeyTrack Id="2">
														<Notes>
															<MidiNoteEvent Time="2" Duration="1" Velocity="100" OffVelocity="0" NoteId="2" />
														</Notes>
														<MidiKey Value="69" />
													</KeyTrack>
												</KeyTracks>
											</Notes>
										</MidiClip>
									</Value>
								</ClipSlot>
							</ClipSlot>
						</ClipSlotList>
					</MainSequencer>
				</DeviceChain>
			</MidiTrack>
		</Tracks>
	</LiveSet>
</Ableton>
"#;

/// Trivial Live Set with no clips at all -- used where a test only needs
/// *a* well-formed, openable `.als` file on disk and doesn't care about its
/// content (e.g. proving a nested file is excluded by directory scanning).
#[test]
fn open_reads_fixture_file() {
    // Live 12.x-shaped fixture: MajorVersion="5", numeric Root/Name.
    let bytes = encode_als(LIVE_12_STYLE_XML);
    let inspector = AlsInspector::from_gzip(&bytes).unwrap();
    let candidates = candidates_of(&inspector).unwrap();

    assert!(!candidates.scales.is_empty());
}

#[test]
fn open_reads_pre_scale_schema_fixture_file() {
    // Live 9.x-shaped fixture: MajorVersion="4", no ScaleInformation at all.
    // Candidates still come purely from note content.
    let bytes = encode_als(LIVE_9_STYLE_XML);
    let inspector = AlsInspector::from_gzip(&bytes).unwrap();
    let candidates = candidates_of(&inspector).unwrap();

    assert!(!candidates.scales.is_empty());
}

#[test]
fn encoded_als_opens_back_to_the_same_xml() {
    let bytes = encode_als(LIVE_9_STYLE_XML);
    assert!(bytes.len() > 2 && bytes[0] == 0x1f && bytes[1] == 0x8b);
    let inspector = AlsInspector::from_gzip(&bytes).unwrap();
    assert_eq!(inspector.xml(), LIVE_9_STYLE_XML);
}

#[test]
fn from_gzip_rejects_bytes_that_are_not_gzip() {
    let result = AlsInspector::from_gzip(b"fake gzip bytes");
    assert!(matches!(result, Err(AlsError::Decompress(_))));
}
