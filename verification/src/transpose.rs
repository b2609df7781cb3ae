//! Transposition with octave correction into the bass range.

use vstd::prelude::*;
use crate::midi::NoteEvent;
use crate::tab::{
    Candidate, NoteOrigin, TabLayout, TabPosition, Tuning, candidates_spec, lemma_candidates, sounds_pitch,
};
use crate::viterbi::{optimize, optimized_positions};

verus! {

/// Lowest pitch of the bass range (open E string, E1).
pub const BASS_MIN: u8 = 28;

/// Highest pitch of the bass range (24th fret of the G string).
pub const BASS_MAX: u8 = 67;

/// The pitch that a raw transposed pitch is corrected to: one octave up when
/// below the range, one octave down when above it, and the range's edge when
/// an octave is not enough.
pub open spec fn clamped_pitch(raw: int) -> int {
    if raw < BASS_MIN {
        if BASS_MIN <= raw + 12 <= BASS_MAX {
            raw + 12
        } else {
            BASS_MIN as int
        }
    } else if raw > BASS_MAX {
        if BASS_MIN <= raw - 12 <= BASS_MAX {
            raw - 12
        } else {
            BASS_MAX as int
        }
    } else {
        raw
    }
}

/// The octave marker of a raw transposed pitch: +1 when it was raised,
/// -1 when it was lowered, none when it was already in range.
pub open spec fn octave_shift(raw: int) -> Option<i8> {
    if raw < BASS_MIN {
        Some(1i8)
    } else if raw > BASS_MAX {
        Some(-1i8)
    } else {
        None
    }
}

/// Brings a raw pitch into the bass range, reporting the octave shift applied.
pub fn clamp_to_bass_range(raw: i16) -> (res: (u8, Option<i8>))
    ensures
        res.0 as int == clamped_pitch(raw as int),
        res.1 == octave_shift(raw as int),
        BASS_MIN <= res.0 <= BASS_MAX,
        BASS_MIN <= raw <= BASS_MAX ==> res.0 == raw && res.1 is None,
        16 <= raw <= 79 ==> (res.0 as int - raw) % 12 == 0,
{
    if raw < BASS_MIN as i16 {
        let corrected = raw + 12;
        if corrected >= BASS_MIN as i16 && corrected <= BASS_MAX as i16 {
            (corrected as u8, Some(1))
        } else {
            (BASS_MIN, Some(1))
        }
    } else if raw > BASS_MAX as i16 {
        let corrected = raw - 12;
        if corrected >= BASS_MIN as i16 && corrected <= BASS_MAX as i16 {
            (corrected as u8, Some(-1))
        } else {
            (BASS_MAX, Some(-1))
        }
    } else {
        (raw as u8, None)
    }
}

/// A note shifted by `semitones` and corrected into the bass range.
pub open spec fn transposed_note(note: NoteEvent, semitones: i8) -> NoteEvent {
    NoteEvent {
        pitch: clamped_pitch(note.pitch + semitones) as u8,
        technique: note.technique,
    }
}

/// Shifts every note by `semitones`, correcting pitches that leave the bass
/// range by an octave, and reports each note's octave shift.
pub fn transpose_notes(notes: &[NoteEvent], semitones: i8) -> (res: Vec<(NoteEvent, Option<i8>)>)
    ensures
        res.len() == notes.len(),
        forall|i: int|
            0 <= i < notes.len() ==> (#[trigger] res@[i]).0 == transposed_note(notes[i], semitones)
                && res@[i].1 == octave_shift(notes[i].pitch + semitones),
        forall|i: int| 0 <= i < notes.len() ==> BASS_MIN <= (#[trigger] res@[i]).0.pitch <= BASS_MAX,
        forall|i: int| 0 <= i < notes.len() ==> (#[trigger] res@[i]).0.technique == notes[i].technique,
{
    let mut res: Vec<(NoteEvent, Option<i8>)> = Vec::new();
    let n = notes.len();
    let mut i: usize = 0;
    while i < n
        invariant
            n == notes.len(),
            i <= n,
            res.len() == i,
            forall|q: int|
                0 <= q < i ==> (#[trigger] res@[q]).0 == transposed_note(notes[q], semitones)
                    && res@[q].1 == octave_shift(notes[q].pitch + semitones),
            forall|q: int| 0 <= q < i ==> BASS_MIN <= (#[trigger] res@[q]).0.pitch <= BASS_MAX,
            forall|q: int| 0 <= q < i ==> (#[trigger] res@[q]).0.technique == notes[q].technique,
        decreases n - i,
    {
        let note = notes[i];
        let raw = note.pitch as i16 + semitones as i16;
        let (pitch, shift) = clamp_to_bass_range(raw);
        res.push((NoteEvent { pitch, technique: note.technique }, shift));
        i = i + 1;
    }
    res
}

/// Every pitch of the bass range can be played on a 4-string bass.
pub proof fn lemma_bass_range_playable(pitch: u8, tuning: Tuning)
    requires
        BASS_MIN <= pitch <= BASS_MAX,
    ensures
        candidates_spec(pitch, tuning).len() > 0,
{
    lemma_candidates(pitch, tuning);
    let c = if pitch <= 52 {
        Candidate { string: 0, fret: (pitch - 28) as u8 }
    } else {
        Candidate { string: 3, fret: (pitch - 43) as u8 }
    };
    assert(sounds_pitch(c, pitch, tuning));
    assert(candidates_spec(pitch, tuning).contains(c));
}

/// The notes after transposition.
pub open spec fn transposed_notes(notes: Seq<NoteEvent>, semitones: i8) -> Seq<NoteEvent> {
    Seq::new(notes.len(), |i: int| transposed_note(notes[i], semitones))
}

/// Marks the notes whose pitch was octave-corrected.
pub open spec fn mark_shifts(positions: Seq<TabPosition>, shifts: Seq<Option<i8>>) -> Seq<TabPosition> {
    Seq::new(
        positions.len(),
        |i: int|
            match shifts[i] {
                Some(s) => TabPosition { origin: NoteOrigin::OctaveShifted(s), ..positions[i] },
                None => positions[i],
            },
    )
}

/// The octave shifts of a transposition.
pub open spec fn shifts_of(notes: Seq<NoteEvent>, semitones: i8) -> Seq<Option<i8>> {
    Seq::new(notes.len(), |i: int| octave_shift(notes[i].pitch + semitones))
}

/// Replaces the origin of every octave-corrected note by its shift marker.
fn apply_octave_markers(
    positions: &Vec<TabPosition>,
    shifted: &Vec<(NoteEvent, Option<i8>)>,
) -> (res: Vec<TabPosition>)
    requires
        positions.len() == shifted.len(),
    ensures
        res@ == mark_shifts(positions@, shifted@.map_values(|p: (NoteEvent, Option<i8>)| p.1)),
{
    let ghost shifts = shifted@.map_values(|p: (NoteEvent, Option<i8>)| p.1);
    let mut res: Vec<TabPosition> = Vec::new();
    let n = positions.len();
    let mut i: usize = 0;
    while i < n
        invariant
            n == positions.len(),
            n == shifted.len(),
            shifts == shifted@.map_values(|p: (NoteEvent, Option<i8>)| p.1),
            i <= n,
            res.len() == i,
            forall|q: int| 0 <= q < i ==> res@[q] == mark_shifts(positions@, shifts)[q],
        decreases n - i,
    {
        let p = positions[i];
        let marked = match shifted[i].1 {
            Some(s) => TabPosition { origin: NoteOrigin::OctaveShifted(s), ..p },
            None => p,
        };
        res.push(marked);
        i = i + 1;
    }
    assert(res@ =~= mark_shifts(positions@, shifts));
    res
}

/// Transposes the notes by `semitones` (octave-correcting notes that leave the
/// bass range), lays them out with the fingering optimizer, records the
/// transposition and marks the octave-corrected notes.
pub fn transpose(notes: &[NoteEvent], semitones: i8, tuning: Tuning, time_sig: (u8, u8)) -> (sheet: TabLayout)
    ensures
        sheet.notes@ == mark_shifts(
            optimized_positions(transposed_notes(notes@, semitones), tuning),
            shifts_of(notes@, semitones),
        ),
        sheet.key_transpose == semitones,
        sheet.time_signature == time_sig,
        sheet.tuning == tuning,
        forall|i: int|
            0 <= i < notes.len() ==> BASS_MIN <= (#[trigger] sheet.notes@[i]).midi_pitch <= BASS_MAX,
        sheet.notes.len() == notes.len(),
        forall|i: int| 0 <= i < notes.len() ==> (#[trigger] sheet.notes@[i]).technique == notes[i].technique,
{
    let shifted = transpose_notes(notes, semitones);
    let mut midi_notes: Vec<NoteEvent> = Vec::new();
    let n = shifted.len();
    let mut i: usize = 0;
    while i < n
        invariant
            n == shifted.len(),
            n == notes.len(),
            forall|q: int|
                0 <= q < n ==> (#[trigger] shifted@[q]).0 == transposed_note(notes[q], semitones)
                    && shifted@[q].1 == octave_shift(notes[q].pitch + semitones),
            i <= n,
            midi_notes.len() == i,
            forall|q: int| 0 <= q < i ==> midi_notes@[q] == transposed_note(notes[q], semitones),
        decreases n - i,
    {
        midi_notes.push(shifted[i].0);
        i = i + 1;
    }
    proof {
        assert(midi_notes@ =~= transposed_notes(notes@, semitones));
        assert forall|q: int| 0 <= q < midi_notes@.len() implies candidates_spec(
            #[trigger] midi_notes@[q].pitch,
            tuning,
        ).len() > 0 by {
            assert(BASS_MIN <= shifted@[q].0.pitch <= BASS_MAX);
            lemma_bass_range_playable(midi_notes@[q].pitch, tuning);
        }
    }
    let layout = optimize(midi_notes.as_slice(), tuning, time_sig);
    let marked = apply_octave_markers(&layout.notes, &shifted);
    proof {
        assert(shifted@.map_values(|p: (NoteEvent, Option<i8>)| p.1) =~= shifts_of(notes@, semitones));
    }
    TabLayout { notes: marked, time_signature: time_sig, tuning, key_transpose: semitones }
}

/// Transposition keeps every note's technique, whether or not its pitch was
/// octave-corrected; a transposed slide is still a slide.
pub proof fn lemma_transpose_keeps_technique(notes: Seq<NoteEvent>, semitones: i8, tuning: Tuning, i: int)
    requires
        0 <= i < notes.len(),
    ensures
        transposed_notes(notes, semitones)[i].technique == notes[i].technique,
        mark_shifts(optimized_positions(transposed_notes(notes, semitones), tuning), shifts_of(notes, semitones))[i].technique
            == notes[i].technique,
{
}

/// Transposing by zero semitones leaves notes that are already in the bass
/// range untouched: the sheet is the optimized layout of the original notes,
/// without octave markers.
pub proof fn lemma_transpose_by_zero(notes: Seq<NoteEvent>, tuning: Tuning)
    requires
        forall|i: int| 0 <= i < notes.len() ==> BASS_MIN <= (#[trigger] notes[i]).pitch <= BASS_MAX,
    ensures
        mark_shifts(optimized_positions(transposed_notes(notes, 0), tuning), shifts_of(notes, 0))
            == optimized_positions(notes, tuning),
{
    assert(transposed_notes(notes, 0) =~= notes);
    let positions = optimized_positions(notes, tuning);
    assert(mark_shifts(positions, shifts_of(notes, 0)) =~= positions);
}

/// Transposing a note of the bass range by at most an octave moves it by
/// exactly the transposition plus the octave its marker records: +12 for
/// `OctaveShifted(1)`, -12 for `OctaveShifted(-1)`, nothing otherwise.
pub proof fn lemma_octave_marker_records_correction(
    notes: Seq<NoteEvent>,
    semitones: i8,
    tuning: Tuning,
    i: int,
)
    requires
        0 <= i < notes.len(),
        BASS_MIN <= notes[i].pitch <= BASS_MAX,
        -12 <= semitones <= 12,
    ensures
        ({
            let p = mark_shifts(
                optimized_positions(transposed_notes(notes, semitones), tuning),
                shifts_of(notes, semitones),
            )[i];
            p.midi_pitch == notes[i].pitch + semitones + 12 * (match p.origin {
                NoteOrigin::OctaveShifted(k) => k as int,
                _ => 0int,
            })
        }),
{
}

} // verus!
