//! Assembling tab layouts for the editor: plain (first position) or optimized
//! fingering, with or without transposition.

use vstd::prelude::*;
use crate::midi::NoteEvent;
use crate::tab::{
    NoteOrigin, TabLayout, TabPosition, Tuning, candidates_spec, pitch_to_candidates, sounds_pitch,
    lemma_candidates,
};
use crate::transpose::{mark_shifts, shifts_of, transpose_notes, transposed_notes};
use crate::viterbi::{all_playable, optimize, optimized_positions};

verus! {

/// Each note on its first (lowest-string) position, marked as a normal note.
pub open spec fn first_positions(notes: Seq<NoteEvent>, tuning: Tuning) -> Seq<TabPosition> {
    Seq::new(
        notes.len(),
        |i: int|
            TabPosition {
                string: candidates_spec(notes[i].pitch, tuning)[0].string,
                fret: candidates_spec(notes[i].pitch, tuning)[0].fret,
                midi_pitch: notes[i].pitch,
                origin: NoteOrigin::Normal,
                technique: notes[i].technique,
            },
    )
}

/// Places each note on its first (lowest-string) position.
pub fn first_candidate_positions(notes: &[NoteEvent], tuning: Tuning) -> (res: Vec<TabPosition>)
    requires
        all_playable(notes@, tuning),
    ensures
        res@ == first_positions(notes@, tuning),
        forall|i: int|
            0 <= i < notes.len() ==> sounds_pitch(
                crate::tab::Candidate { string: (#[trigger] res@[i]).string, fret: res@[i].fret },
                notes[i].pitch,
                tuning,
            ),
{
    let mut res: Vec<TabPosition> = Vec::new();
    let n = notes.len();
    let mut i: usize = 0;
    while i < n
        invariant
            n == notes.len(),
            all_playable(notes@, tuning),
            i <= n,
            res.len() == i,
            forall|q: int| 0 <= q < i ==> res@[q] == first_positions(notes@, tuning)[q],
            forall|q: int|
                0 <= q < i ==> sounds_pitch(
                    crate::tab::Candidate { string: (#[trigger] res@[q]).string, fret: res@[q].fret },
                    notes[q].pitch,
                    tuning,
                ),
        decreases n - i,
    {
        let note = notes[i];
        let candidates = pitch_to_candidates(note.pitch, tuning);
        assert(candidates_spec(notes@[i as int].pitch, tuning).len() > 0);
        let c = candidates[0];
        proof {
            lemma_candidates(note.pitch, tuning);
        }
        res.push(
            TabPosition {
                string: c.string,
                fret: c.fret,
                midi_pitch: note.pitch,
                origin: NoteOrigin::Normal,
                technique: note.technique,
            },
        );
        i = i + 1;
    }
    assert(res@ =~= first_positions(notes@, tuning));
    res
}

/// The layout shown when optimization is switched on or off: the optimized
/// fingering, or every note on its first position.
pub open spec fn toggled_positions(notes: Seq<NoteEvent>, enabled: bool) -> Seq<TabPosition> {
    if enabled {
        optimized_positions(notes, Tuning::Standard4)
    } else {
        first_positions(notes, Tuning::Standard4)
    }
}

/// Lays out the notes in standard tuning and 4/4, with or without fingering
/// optimization.
pub fn toggle_optimization(notes: &[NoteEvent], enabled: bool) -> (sheet: TabLayout)
    requires
        all_playable(notes@, Tuning::Standard4),
    ensures
        sheet.notes@ == toggled_positions(notes@, enabled),
        sheet.time_signature == (4u8, 4u8),
        sheet.tuning == Tuning::Standard4,
        sheet.key_transpose == 0,
{
    if enabled {
        optimize(notes, Tuning::Standard4, (4, 4))
    } else {
        let positions = first_candidate_positions(notes, Tuning::Standard4);
        TabLayout { notes: positions, time_signature: (4, 4), tuning: Tuning::Standard4, key_transpose: 0 }
    }
}

/// The notes that a regeneration works on: transposed when `semitones` is not zero.
pub open spec fn working_notes(notes: Seq<NoteEvent>, semitones: i8) -> Seq<NoteEvent> {
    if semitones != 0 {
        transposed_notes(notes, semitones)
    } else {
        notes
    }
}

/// The octave markers of a regeneration: none when nothing is transposed.
pub open spec fn working_shifts(notes: Seq<NoteEvent>, semitones: i8) -> Seq<Option<i8>> {
    if semitones != 0 {
        shifts_of(notes, semitones)
    } else {
        Seq::new(notes.len(), |i: int| None)
    }
}

/// The tab positions of a regenerated sheet.
pub open spec fn regenerated_positions(notes: Seq<NoteEvent>, semitones: i8, optimized: bool) -> Seq<TabPosition> {
    mark_shifts(toggled_positions(working_notes(notes, semitones), optimized), working_shifts(notes, semitones))
}

/// Rebuilds the sheet from the detected notes: transposes them when
/// `semitones` is not zero, lays them out with or without fingering
/// optimization, records the transposition and marks octave-corrected notes.
pub fn regenerate_tab(notes: &[NoteEvent], semitones: i8, optimized: bool) -> (sheet: TabLayout)
    requires
        semitones != 0 || all_playable(notes@, Tuning::Standard4),
    ensures
        sheet.notes@ == regenerated_positions(notes@, semitones, optimized),
        sheet.key_transpose == semitones,
        sheet.time_signature == (4u8, 4u8),
        sheet.tuning == Tuning::Standard4,
{
    let transposed: Vec<(NoteEvent, Option<i8>)> = if semitones != 0 {
        transpose_notes(notes, semitones)
    } else {
        let mut plain: Vec<(NoteEvent, Option<i8>)> = Vec::new();
        let mut i: usize = 0;
        while i < notes.len()
            invariant
                i <= notes.len(),
                plain.len() == i,
                forall|q: int| 0 <= q < i ==> (#[trigger] plain@[q]) == (notes@[q], None::<i8>),
            decreases notes.len() - i,
        {
            plain.push((notes[i], None));
            i = i + 1;
        }
        plain
    };
    assert(transposed.len() == notes.len());
    assert forall|q: int| 0 <= q < notes.len() implies (#[trigger] transposed@[q]).0 == working_notes(
        notes@,
        semitones,
    )[q] && transposed@[q].1 == working_shifts(notes@, semitones)[q] by {}
    let mut midi_notes: Vec<NoteEvent> = Vec::new();
    let mut shifts: Vec<Option<i8>> = Vec::new();
    let n = transposed.len();
    let mut i: usize = 0;
    while i < n
        invariant
            n == transposed.len(),
            n == notes.len(),
            forall|q: int| 0 <= q < n ==> (#[trigger] transposed@[q]).0 == working_notes(notes@, semitones)[q]
                && transposed@[q].1 == working_shifts(notes@, semitones)[q],
            i <= n,
            midi_notes.len() == i,
            shifts.len() == i,
            forall|q: int| 0 <= q < i ==> midi_notes@[q] == (#[trigger] transposed@[q]).0,
            forall|q: int| 0 <= q < i ==> shifts@[q] == (#[trigger] transposed@[q]).1,
        decreases n - i,
    {
        midi_notes.push(transposed[i].0);
        shifts.push(transposed[i].1);
        i = i + 1;
    }
    proof {
        assert(working_notes(notes@, semitones).len() == n);
        assert(working_shifts(notes@, semitones).len() == n);
        assert forall|q: int| 0 <= q < n implies midi_notes@[q] == working_notes(notes@, semitones)[q]
            && shifts@[q] == working_shifts(notes@, semitones)[q] by {
            assert(midi_notes@[q] == transposed@[q].0);
        }
        assert(midi_notes@ =~= working_notes(notes@, semitones));
        assert(shifts@ =~= working_shifts(notes@, semitones));
        if semitones != 0 {
            assert forall|q: int| 0 <= q < midi_notes@.len() implies candidates_spec(
                #[trigger] midi_notes@[q].pitch,
                Tuning::Standard4,
            ).len() > 0 by {
                assert(crate::transpose::BASS_MIN <= transposed@[q].0.pitch <= crate::transpose::BASS_MAX);
                crate::transpose::lemma_bass_range_playable(midi_notes@[q].pitch, Tuning::Standard4);
            }
        }
    }
    let layout = toggle_optimization(midi_notes.as_slice(), optimized);
    let mut marked: Vec<TabPosition> = Vec::new();
    let mut i: usize = 0;
    while i < n
        invariant
            n == shifts.len(),
            n == layout.notes.len(),
            i <= n,
            marked.len() == i,
            forall|q: int| 0 <= q < i ==> marked@[q] == mark_shifts(layout.notes@, shifts@)[q],
        decreases n - i,
    {
        let p = layout.notes[i];
        let m = match shifts[i] {
            Some(s) => TabPosition { origin: NoteOrigin::OctaveShifted(s), ..p },
            None => p,
        };
        marked.push(m);
        i = i + 1;
    }
    assert(marked@ =~= mark_shifts(layout.notes@, shifts@));
    TabLayout { notes: marked, time_signature: (4, 4), tuning: Tuning::Standard4, key_transpose: semitones }
}

/// Without transposition, regenerating a sheet gives the same layout as
/// toggling optimization on the notes.
pub proof fn lemma_regenerate_without_transpose(notes: Seq<NoteEvent>, optimized: bool)
    ensures
        regenerated_positions(notes, 0, optimized) == toggled_positions(notes, optimized),
{
    let positions = toggled_positions(notes, optimized);
    assert(positions.len() == notes.len());
    assert(mark_shifts(positions, working_shifts(notes, 0)) =~= positions);
}

/// With a transposition, regenerating an optimized sheet gives the same
/// layout as transposing in standard tuning.
pub proof fn lemma_regenerate_matches_transpose(notes: Seq<NoteEvent>, semitones: i8)
    requires
        semitones != 0,
    ensures
        regenerated_positions(notes, semitones, true) == mark_shifts(
            optimized_positions(transposed_notes(notes, semitones), Tuning::Standard4),
            shifts_of(notes, semitones),
        ),
{
}

} // verus!
