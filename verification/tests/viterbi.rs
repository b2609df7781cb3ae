use tab_engine::viterbi::optimal_fingering;
use tab_engine::{optimize, Candidate, NoteEvent, NoteOrigin, Technique, Tuning};

fn make_note(pitch: u8) -> NoteEvent {
    NoteEvent { pitch, technique: None }
}

#[test]
fn open_e_string_preferred_over_nothing() {
    let notes = vec![make_note(28)];
    let sheet = optimize(&notes, Tuning::Standard4, (4, 4));
    assert_eq!(sheet.notes.len(), 1);
    assert_eq!(sheet.notes[0].string, 0);
    assert_eq!(sheet.notes[0].fret, 0);
}

#[test]
fn avoids_adg_open_strings() {
    let notes = vec![make_note(33)];
    let sheet = optimize(&notes, Tuning::Standard4, (4, 4));
    assert_eq!(sheet.notes[0].string, 0);
    assert_eq!(sheet.notes[0].fret, 5);
}

#[test]
fn prefers_nearby_frets_for_sequence() {
    let notes = vec![make_note(33), make_note(34), make_note(36)];
    let sheet = optimize(&notes, Tuning::Standard4, (4, 4));
    assert!(sheet.notes.iter().all(|n| n.string == 0));
}

#[test]
fn comfort_zone_preference() {
    let notes = vec![make_note(43)];
    let sheet = optimize(&notes, Tuning::Standard4, (4, 4));
    assert_eq!(sheet.notes[0].string, 2);
    assert_eq!(sheet.notes[0].fret, 5);
}

#[test]
fn slide_notes_use_same_string() {
    let notes = vec![
        NoteEvent { pitch: 33, technique: None },
        NoteEvent { pitch: 35, technique: Some(Technique::Slide) },
    ];
    let sheet = optimize(&notes, Tuning::Standard4, (4, 4));
    assert_eq!(
        sheet.notes[0].string, sheet.notes[1].string,
        "slide notes must be on the same string"
    );
}

#[test]
fn empty_notes_returns_empty_sheet() {
    let sheet = optimize(&[], Tuning::Standard4, (4, 4));
    assert!(sheet.notes.is_empty());
}

#[test]
fn handles_notes_with_single_candidate() {
    let notes = vec![make_note(28), make_note(67)];
    let sheet = optimize(&notes, Tuning::Standard4, (4, 4));
    assert_eq!(sheet.notes[0].fret, 0);
    assert_eq!(sheet.notes[1].string, 3);
    assert_eq!(sheet.notes[1].fret, 24);
}

#[test]
fn optimized_sheet_carries_notes_through() {
    let notes = vec![
        NoteEvent { pitch: 40, technique: None },
        NoteEvent { pitch: 42, technique: Some(Technique::Slide) },
    ];
    let sheet = optimize(&notes, Tuning::Standard4, (6, 8));
    assert_eq!(sheet.time_signature, (6, 8));
    assert_eq!(sheet.key_transpose, 0);
    assert_eq!(sheet.tuning, Tuning::Standard4);
    for (n, p) in notes.iter().zip(sheet.notes.iter()) {
        assert_eq!(p.midi_pitch, n.pitch);
        assert_eq!(p.technique, n.technique);
        assert_eq!(p.origin, NoteOrigin::Optimized);
        assert_eq!(Tuning::Standard4.open_pitches()[p.string as usize] + p.fret, n.pitch);
    }
}

#[test]
fn slide_without_shared_string_may_cross() {
    // 28 is only on the E string and 67 only on the G string: the slide cannot
    // stay on one string, so any move is allowed.
    let notes = vec![make_note(28), NoteEvent { pitch: 67, technique: Some(Technique::Slide) }];
    let path = optimal_fingering(&notes, Tuning::Standard4);
    assert_eq!(path, vec![Candidate { string: 0, fret: 0 }, Candidate { string: 3, fret: 24 }]);
}

#[test]
fn exact_path_for_a_walking_line() {
    // A-B-C#-D: every note stays on the E string; moving the D to the A
    // string would cost a string crossing and a four-fret jump back.
    let notes = vec![make_note(33), make_note(35), make_note(37), make_note(38)];
    let path = optimal_fingering(&notes, Tuning::Standard4);
    assert_eq!(path[0], Candidate { string: 0, fret: 5 });
    assert_eq!(path[1], Candidate { string: 0, fret: 7 });
    assert_eq!(path[2], Candidate { string: 0, fret: 9 });
    assert_eq!(path[3], Candidate { string: 0, fret: 10 });
}

#[test]
fn slide_keeps_string_when_a_pair_exists() {
    // 67 is only on the G string (fret 24); the slide down to 60 can stay there
    // (G17), so it does, though D22 alone would be reachable too.
    let notes = vec![make_note(67), NoteEvent { pitch: 60, technique: Some(Technique::Slide) }];
    let sheet = optimize(&notes, Tuning::Standard4, (4, 4));
    assert_eq!((sheet.notes[0].string, sheet.notes[0].fret), (3, 24));
    assert_eq!((sheet.notes[1].string, sheet.notes[1].fret), (3, 17));
}

#[test]
fn slide_chain_binds_only_where_it_can() {
    // E0, slide to A (bound: E5), then a slide to 53, which has no position
    // on the E string and so may cross.
    let notes = vec![
        make_note(28),
        NoteEvent { pitch: 33, technique: Some(Technique::Slide) },
        NoteEvent { pitch: 53, technique: Some(Technique::Slide) },
    ];
    let path = optimal_fingering(&notes, Tuning::Standard4);
    assert_eq!(
        path,
        vec![Candidate { string: 0, fret: 0 }, Candidate { string: 0, fret: 5 }, Candidate { string: 3, fret: 10 }]
    );
}

#[test]
fn reversed_line_mirrors_its_fingering() {
    // Moves cost the same in both directions.
    let forward = optimal_fingering(&[make_note(33), make_note(35)], Tuning::Standard4);
    let backward = optimal_fingering(&[make_note(35), make_note(33)], Tuning::Standard4);
    assert_eq!(forward, vec![Candidate { string: 0, fret: 5 }, Candidate { string: 0, fret: 7 }]);
    assert_eq!(backward, vec![Candidate { string: 0, fret: 7 }, Candidate { string: 0, fret: 5 }]);
}
