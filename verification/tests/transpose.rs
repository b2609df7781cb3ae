use tab_engine::transpose::{clamp_to_bass_range, transpose_notes};
use tab_engine::{optimize, transpose, NoteEvent, NoteOrigin, Technique, Tuning};

fn make_note(pitch: u8) -> NoteEvent {
    NoteEvent { pitch, technique: None }
}

#[test]
fn transpose_within_range_no_octave_shift() {
    let notes = vec![make_note(33)];
    let sheet = transpose(&notes, 2, Tuning::Standard4, (4, 4));
    assert_eq!(sheet.notes[0].midi_pitch, 35);
    assert_eq!(sheet.key_transpose, 2);
    assert!(matches!(sheet.notes[0].origin, NoteOrigin::Optimized));
}

#[test]
fn transpose_down_below_range_gets_octave_shifted_up() {
    let notes = vec![make_note(28)];
    let sheet = transpose(&notes, -1, Tuning::Standard4, (4, 4));
    assert_eq!(sheet.notes[0].midi_pitch, 39);
    assert!(matches!(sheet.notes[0].origin, NoteOrigin::OctaveShifted(1)));
}

#[test]
fn transpose_up_above_range_gets_octave_shifted_down() {
    let notes = vec![make_note(67)];
    let sheet = transpose(&notes, 1, Tuning::Standard4, (4, 4));
    assert_eq!(sheet.notes[0].midi_pitch, 56);
    assert!(matches!(sheet.notes[0].origin, NoteOrigin::OctaveShifted(-1)));
}

#[test]
fn transpose_zero_preserves_notes() {
    let notes = vec![make_note(40), make_note(45)];
    let sheet = transpose(&notes, 0, Tuning::Standard4, (4, 4));
    assert_eq!(sheet.notes[0].midi_pitch, 40);
    assert_eq!(sheet.notes[1].midi_pitch, 45);
    assert_eq!(sheet.key_transpose, 0);
}

#[test]
fn clamp_handles_extreme_shift() {
    let (pitch, shift) = clamp_to_bass_range(10);
    assert_eq!(pitch, 28);
    assert_eq!(shift, Some(1));
}

#[test]
fn clamp_edges_and_octaves() {
    assert_eq!(clamp_to_bass_range(28), (28, None));
    assert_eq!(clamp_to_bass_range(67), (67, None));
    assert_eq!(clamp_to_bass_range(27), (39, Some(1)));
    assert_eq!(clamp_to_bass_range(16), (28, Some(1)));
    assert_eq!(clamp_to_bass_range(15), (28, Some(1)));
    assert_eq!(clamp_to_bass_range(68), (56, Some(-1)));
    assert_eq!(clamp_to_bass_range(79), (67, Some(-1)));
    assert_eq!(clamp_to_bass_range(80), (67, Some(-1)));
    assert_eq!(clamp_to_bass_range(-300), (28, Some(1)));
}

#[test]
fn transpose_by_zero_matches_optimize() {
    let notes = vec![make_note(33), make_note(38), make_note(43), make_note(36)];
    let t = transpose(&notes, 0, Tuning::Standard4, (3, 4));
    let o = optimize(&notes, Tuning::Standard4, (3, 4));
    assert_eq!(t.notes, o.notes);
    assert_eq!(t.time_signature, (3, 4));
}

#[test]
fn transpose_keeps_technique_and_marks_each_shift() {
    let notes = vec![
        NoteEvent { pitch: 62, technique: None },
        NoteEvent { pitch: 60, technique: Some(Technique::Slide) },
        NoteEvent { pitch: 30, technique: None },
    ];
    let sheet = transpose(&notes, 7, Tuning::Standard4, (4, 4));
    assert_eq!(sheet.notes.len(), 3);
    assert_eq!(sheet.notes[0].midi_pitch, 57);
    assert_eq!(sheet.notes[0].origin, NoteOrigin::OctaveShifted(-1));
    assert_eq!(sheet.notes[1].midi_pitch, 67);
    assert_eq!(sheet.notes[1].origin, NoteOrigin::Optimized);
    assert_eq!(sheet.notes[1].technique, Some(Technique::Slide));
    assert_eq!(sheet.notes[2].midi_pitch, 37);
    assert_eq!(sheet.notes[2].origin, NoteOrigin::Optimized);
}

#[test]
fn transpose_notes_reports_shifts() {
    let notes = vec![make_note(28), make_note(50)];
    let shifted = transpose_notes(&notes, -3);
    assert_eq!(shifted[0], (make_note(37), Some(1)));
    assert_eq!(shifted[1], (make_note(47), None));
}
