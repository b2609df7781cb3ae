use tab_engine::pipeline::{
    classify_reply, closed_message, error_message, next_stage, path_from_reply, stage_finished,
    stage_started, PipelineProgress, PipelineStage, SidecarReply, SidecarStep,
};
use tab_engine::segment::{is_slide_transition, predominant_pitch, segment_frames, window_pitch, NoteSegment};
use tab_engine::sheet::{regenerate_tab, toggle_optimization};
use tab_engine::time::{iso8601, iso8601_from_unix, utc_from_unix, UtcDateTime};
use tab_engine::{optimize, transpose, NoteEvent, NoteOrigin, Tuning};

fn make_note(pitch: u8) -> NoteEvent {
    NoteEvent { pitch, technique: None }
}

#[test]
fn iso_timestamps() {
    assert_eq!(iso8601_from_unix(0), "1970-01-01T00:00:00Z");
    assert_eq!(iso8601_from_unix(86_399), "1970-01-01T23:59:59Z");
    assert_eq!(iso8601_from_unix(951_782_400), "2000-02-29T00:00:00Z");
    assert_eq!(iso8601_from_unix(1_775_986_200), "2026-04-12T09:30:00Z");
    assert_eq!(iso8601_from_unix(4_102_444_800), "2100-01-01T00:00:00Z");
    assert_eq!(iso8601_from_unix(253_402_300_799), "9999-12-31T23:59:59Z");
    assert_eq!(iso8601_from_unix(253_402_300_800), "10000-01-01T00:00:00Z");
    assert_eq!(iso8601_from_unix(u64::MAX), "584554051223-11-09T07:00:15Z");
}

#[test]
fn utc_fields_of_a_timestamp() {
    let dt = utc_from_unix(1_775_986_200);
    assert_eq!(dt, UtcDateTime { year: 2026, month: 4, day: 12, hour: 9, minute: 30, second: 0 });
    assert_eq!(iso8601(&dt), "2026-04-12T09:30:00Z");
    let leap_end = utc_from_unix(1_704_067_199);
    assert_eq!(leap_end, UtcDateTime { year: 2023, month: 12, day: 31, hour: 23, minute: 59, second: 59 });
}

#[test]
fn segments_are_maximal_runs() {
    let frames = [None, Some(45), Some(45), Some(40), None, None, Some(40), Some(40)];
    let segs = segment_frames(&frames);
    assert_eq!(segs, vec![
        NoteSegment { pitch: 45, start: 1, end: 3 },
        NoteSegment { pitch: 40, start: 3, end: 4 },
        NoteSegment { pitch: 40, start: 6, end: 8 },
    ]);
    assert!(segment_frames(&[None, None]).is_empty());
    assert!(segment_frames(&[]).is_empty());
}

#[test]
fn toggle_off_uses_first_positions() {
    let notes = vec![make_note(33), make_note(43)];
    let sheet = toggle_optimization(&notes, false);
    assert_eq!((sheet.notes[0].string, sheet.notes[0].fret), (0, 5));
    assert_eq!((sheet.notes[1].string, sheet.notes[1].fret), (0, 15));
    assert!(sheet.notes.iter().all(|n| n.origin == NoteOrigin::Normal));
    let on = toggle_optimization(&notes, true);
    assert_eq!(on.notes, optimize(&notes, Tuning::Standard4, (4, 4)).notes);
}

#[test]
fn regenerate_matches_transpose_and_toggle() {
    let notes = vec![make_note(30), make_note(60), make_note(45)];
    let regen = regenerate_tab(&notes, 9, true);
    let t = transpose(&notes, 9, Tuning::Standard4, (4, 4));
    assert_eq!(regen.notes, t.notes);
    assert_eq!(regen.key_transpose, 9);
    let plain = regenerate_tab(&notes, 0, false);
    assert_eq!(plain.notes, toggle_optimization(&notes, false).notes);
    assert_eq!(plain.key_transpose, 0);
    let shifted = regenerate_tab(&notes, 9, false);
    assert_eq!(shifted.notes[1].origin, NoteOrigin::OctaveShifted(-1));
    assert_eq!(shifted.notes[1].midi_pitch, 57);
    assert_eq!(shifted.notes[0].origin, NoteOrigin::Normal);
}

#[test]
fn sidecar_replies() {
    assert_eq!(classify_reply(&"progress".to_string()), SidecarReply::Progress);
    assert_eq!(classify_reply(&"result".to_string()), SidecarReply::Result);
    assert_eq!(classify_reply(&"error".to_string()), SidecarReply::Error);
    assert_eq!(classify_reply(&"log".to_string()), SidecarReply::Other);
    assert_eq!(error_message(None), "Unknown error");
    assert_eq!(error_message(Some("Video unavailable".to_string())), "Video unavailable");
    assert_eq!(closed_message(), "Sidecar closed unexpectedly");
}

#[test]
fn pipeline_reports() {
    let p = PipelineProgress::from_sidecar(&"extract".to_string(), None, &None);
    assert_eq!((p.step.as_str(), p.percent, p.message.as_str()), ("extract", 0, ""));
    let p = PipelineProgress::from_sidecar(&"separate".to_string(), Some(45), &Some("half".to_string()));
    assert_eq!((p.step.as_str(), p.percent, p.message.as_str()), ("separate", 45, "half"));
    let s = stage_started(PipelineStage::Separate);
    assert_eq!((s.step.as_str(), s.percent, s.message.as_str()), ("separate", 0, "Starting source separation..."));
    let f = stage_finished(PipelineStage::Convert).unwrap();
    assert_eq!((f.step.as_str(), f.percent, f.message.as_str()), ("convert", 100, "Tab generation complete!"));
    assert!(stage_finished(PipelineStage::Extract).is_none());
    assert_eq!(next_stage(PipelineStage::Transcribe), Some(PipelineStage::Convert));
    assert_eq!(next_stage(PipelineStage::Convert), None);
}

#[test]
fn missing_paths_are_errors() {
    assert_eq!(path_from_reply(SidecarStep::Extract, Some("/a.wav".to_string())), Ok("/a.wav".to_string()));
    assert_eq!(
        path_from_reply(SidecarStep::Extract, None),
        Err("Missing audio_path in extract result".to_string())
    );
    assert_eq!(
        path_from_reply(SidecarStep::Separate, None),
        Err("Missing bass_path in separate result".to_string())
    );
}

#[test]
fn predominant_pitch_is_the_mode() {
    assert_eq!(predominant_pitch(&[45]), 45);
    assert_eq!(predominant_pitch(&[45, 47, 47, 45, 47]), 47);
    // A tie goes to the lowest pitch.
    assert_eq!(predominant_pitch(&[50, 40, 50, 40]), 40);
    assert_eq!(predominant_pitch(&[255, 0, 255]), 255);
}

#[test]
fn onset_windows_split_repeated_notes() {
    // Two plucks of the same pitch with an onset between them: each window
    // is its own note, though the pitch never changes.
    let frames = [Some(45), Some(45), Some(46), Some(45), None, Some(45), Some(45)];
    assert_eq!(window_pitch(&frames, 0, 4), Some(45));
    assert_eq!(window_pitch(&frames, 4, 7), Some(45));
    assert_eq!(window_pitch(&frames, 2, 3), Some(46));
    assert_eq!(window_pitch(&frames, 4, 5), None);
    assert_eq!(window_pitch(&frames, 3, 3), None);
    // Pitch changes alone would give one run here.
    assert_eq!(segment_frames(&frames[5..]), vec![NoteSegment { pitch: 45, start: 0, end: 2 }]);
}

#[test]
fn slide_contours() {
    // Rising from A (45) through B (47) to D (50), no step down.
    assert!(is_slide_transition(45, 50, &[45, 47, 48, 50]));
    // Falling.
    assert!(is_slide_transition(50, 45, &[50, 48, 46, 45]));
    // Same pitch, too few frames, a step against the direction, or no
    // intermediate pitch: no slide.
    assert!(!is_slide_transition(45, 45, &[45, 46, 45]));
    assert!(!is_slide_transition(45, 50, &[46, 48]));
    assert!(!is_slide_transition(45, 50, &[45, 48, 47, 50]));
    assert!(!is_slide_transition(45, 50, &[45, 45, 50, 50]));
}
