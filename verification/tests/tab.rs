use tab_engine::tab::MAX_FRET;
use tab_engine::{pitch_to_candidates, Candidate, Tuning};

#[test]
fn e_open_string_has_one_candidate() {
    let candidates = pitch_to_candidates(28, Tuning::Standard4);
    assert_eq!(candidates, vec![Candidate { string: 0, fret: 0 }]);
}

#[test]
fn a_open_has_two_candidates() {
    let candidates = pitch_to_candidates(33, Tuning::Standard4);
    assert_eq!(candidates, vec![
        Candidate { string: 0, fret: 5 },
        Candidate { string: 1, fret: 0 },
    ]);
}

#[test]
fn middle_note_has_multiple_candidates() {
    let candidates = pitch_to_candidates(38, Tuning::Standard4);
    assert_eq!(candidates, vec![
        Candidate { string: 0, fret: 10 },
        Candidate { string: 1, fret: 5 },
        Candidate { string: 2, fret: 0 },
    ]);
}

#[test]
fn high_note_on_g_string_only() {
    let candidates = pitch_to_candidates(67, Tuning::Standard4);
    assert_eq!(candidates.len(), 1);
    assert_eq!(candidates[0], Candidate { string: 3, fret: 24 });
}

#[test]
fn out_of_range_returns_empty() {
    let candidates = pitch_to_candidates(27, Tuning::Standard4);
    assert!(candidates.is_empty());
    let candidates = pitch_to_candidates(68, Tuning::Standard4);
    assert!(candidates.is_empty());
}

#[test]
fn open_pitches_of_standard_tuning() {
    assert_eq!(Tuning::Standard4.open_pitches(), &[28, 33, 38, 43]);
    assert_eq!(Tuning::Standard4.num_strings(), 4);
}

#[test]
fn every_candidate_sounds_its_pitch() {
    let opens = Tuning::Standard4.open_pitches();
    for pitch in 0u8..=255 {
        let candidates = pitch_to_candidates(pitch, Tuning::Standard4);
        for c in &candidates {
            assert!(c.fret <= MAX_FRET);
            assert_eq!(opens[c.string as usize] + c.fret, pitch);
        }
        for w in candidates.windows(2) {
            assert!(w[0].string < w[1].string);
        }
        assert_eq!(candidates.is_empty(), !(28..=67).contains(&pitch));
    }
}

#[test]
fn highest_fret_on_each_string() {
    assert_eq!(pitch_to_candidates(52, Tuning::Standard4)[0], Candidate { string: 0, fret: 24 });
    assert_eq!(pitch_to_candidates(53, Tuning::Standard4)[0], Candidate { string: 1, fret: 20 });
}
