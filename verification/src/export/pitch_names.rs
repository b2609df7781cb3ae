//! Pitch spelling of the MusicXML export: what a written step, alter and
//! octave mean as a sounding pitch.

use vstd::prelude::*;
use crate::export::musicxml::{is_sharp, step_name};

verus! {

/// The pitch class of a natural note's letter: C 0, D 2, E 4, F 5, G 7, A 9, B 11.
pub open spec fn letter_pitch_class(letter: char) -> int {
    if letter == 'C' {
        0
    } else if letter == 'D' {
        2
    } else if letter == 'E' {
        4
    } else if letter == 'F' {
        5
    } else if letter == 'G' {
        7
    } else if letter == 'A' {
        9
    } else if letter == 'B' {
        11
    } else {
        -1
    }
}

/// The written pitch names the sounded note: the step is one letter, and the
/// letter's pitch class raised by the alter (1 for a sharp, else none) is the
/// pitch class of the MIDI pitch; the octave is the MIDI octave less one
/// (MIDI 12 is C0).
pub proof fn lemma_written_pitch_names_sound(midi: nat)
    ensures
        step_name((midi % 12) as int).len() == 1,
        letter_pitch_class(step_name((midi % 12) as int)[0]) + (if is_sharp((midi % 12) as int) {
            1int
        } else {
            0int
        }) == midi % 12,
        midi >= 12 ==> 12 * (midi / 12 - 1) + 12 <= midi < 12 * (midi / 12 - 1) + 24,
{
    reveal_strlit("C");
    reveal_strlit("D");
    reveal_strlit("E");
    reveal_strlit("F");
    reveal_strlit("G");
    reveal_strlit("A");
    reveal_strlit("B");
}

} // verus!
