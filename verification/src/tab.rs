use vstd::prelude::*;
use crate::midi::Technique;

verus! {

/// Tuning of a bass guitar.
#[derive(Debug, Clone, Copy, PartialEq, Eq, Structural)]
pub enum Tuning {
    /// E=28, A=33, D=38, G=43
    Standard4,
}

/// Highest fret of the instrument.
pub const MAX_FRET: u8 = 24;

/// MIDI pitches of the open strings, lowest string first.
pub open spec fn open_pitches_spec(tuning: Tuning) -> Seq<u8> {
    match tuning {
        Tuning::Standard4 => seq![28u8, 33u8, 38u8, 43u8],
    }
}

impl Tuning {
    pub fn open_pitches(&self) -> (r: &'static [u8])
        ensures
            r@ == open_pitches_spec(*self),
    {
        match self {
            Tuning::Standard4 => {
                let r: &'static [u8] = &[28, 33, 38, 43];
                r
            }
        }
    }

    pub fn num_strings(&self) -> (n: u8)
        ensures
            n == open_pitches_spec(*self).len(),
    {
        self.open_pitches().len() as u8
    }
}


/// How a tab note came to sit where it does.
#[derive(Debug, Clone, Copy, PartialEq, Eq, Structural)]
pub enum NoteOrigin {
    /// Default mapping.
    Normal,
    /// Placed by the fingering optimizer.
    Optimized,
    /// Moved by an octave to stay in the bass range: +1 up, -1 down.
    OctaveShifted(i8),
}

/// A place on the fretboard: string index (0 = lowest) and fret.
#[derive(Debug, Clone, Copy, PartialEq, Eq, Structural)]
pub struct Candidate {
    pub string: u8,
    pub fret: u8,
}

/// A note placed on the fretboard: the timing-free part of a tab note.
#[derive(Debug, Clone, Copy, PartialEq, Eq, Structural)]
pub struct TabPosition {
    pub string: u8,
    pub fret: u8,
    pub midi_pitch: u8,
    pub origin: NoteOrigin,
    pub technique: Option<Technique>,
}

/// A tab sheet without its timing: the placed notes, the time signature,
/// the tuning and the transposition that produced it.
#[derive(Debug)]
pub struct TabLayout {
    pub notes: Vec<TabPosition>,
    pub time_signature: (u8, u8),
    pub tuning: Tuning,
    pub key_transpose: i8,
}

/// Whether `pitch` can be fretted on string `s` of `opens`.
pub open spec fn playable_on(pitch: u8, opens: Seq<u8>, s: int) -> bool {
    pitch >= opens[s] && pitch - opens[s] <= MAX_FRET
}

/// The positions among the first `m` strings that sound `pitch`, lowest string first.
pub open spec fn positions_upto(pitch: u8, opens: Seq<u8>, m: int) -> Seq<Candidate>
    decreases m,
{
    if m <= 0 {
        Seq::empty()
    } else {
        let rest = positions_upto(pitch, opens, m - 1);
        if playable_on(pitch, opens, m - 1) {
            rest.push(Candidate { string: (m - 1) as u8, fret: (pitch - opens[m - 1]) as u8 })
        } else {
            rest
        }
    }
}

/// Every fretboard position that sounds `pitch` in `tuning`, lowest string first.
pub open spec fn candidates_spec(pitch: u8, tuning: Tuning) -> Seq<Candidate> {
    positions_upto(pitch, open_pitches_spec(tuning), open_pitches_spec(tuning).len() as int)
}

/// A position is valid for `pitch` when it is on an existing string, within the
/// fret range, and sounds exactly `pitch`.
pub open spec fn sounds_pitch(c: Candidate, pitch: u8, tuning: Tuning) -> bool {
    &&& c.string < open_pitches_spec(tuning).len()
    &&& c.fret <= MAX_FRET
    &&& open_pitches_spec(tuning)[c.string as int] + c.fret == pitch
}

/// The positions of `positions_upto` are exactly the valid ones on the first `m`
/// strings, and their strings strictly increase.
pub proof fn lemma_positions_upto(pitch: u8, opens: Seq<u8>, m: int)
    requires
        0 <= m <= opens.len() <= 255,
    ensures
        positions_upto(pitch, opens, m).len() <= m,
        forall|c: Candidate|
            positions_upto(pitch, opens, m).contains(c) <==> (c.string < m && c.fret <= MAX_FRET
                && opens[c.string as int] + c.fret == pitch),
        forall|i: int, j: int|
            0 <= i < j < positions_upto(pitch, opens, m).len() ==> positions_upto(
                pitch,
                opens,
                m,
            )[i].string < positions_upto(pitch, opens, m)[j].string,
        forall|i: int|
            0 <= i < positions_upto(pitch, opens, m).len() ==> positions_upto(
                pitch,
                opens,
                m,
            )[i].string < m,
    decreases m,
{
    if m > 0 {
        lemma_positions_upto(pitch, opens, m - 1);
        let rest = positions_upto(pitch, opens, m - 1);
        if playable_on(pitch, opens, m - 1) {
            let c0 = Candidate { string: (m - 1) as u8, fret: (pitch - opens[m - 1]) as u8 };
            assert forall|c: Candidate|
                positions_upto(pitch, opens, m).contains(c) <==> (c.string < m && c.fret
                    <= MAX_FRET && opens[c.string as int] + c.fret == pitch) by {
                if c.string < m && c.fret <= MAX_FRET && opens[c.string as int] + c.fret == pitch {
                    if c.string == m - 1 {
                        assert(c == c0);
                        assert(rest.push(c0)[rest.len() as int] == c0);
                    } else {
                        assert(rest.contains(c));
                        let k = choose|k: int| 0 <= k < rest.len() && rest[k] == c;
                        assert(rest.push(c0)[k] == c);
                    }
                }
                if positions_upto(pitch, opens, m).contains(c) {
                    let k = choose|k: int|
                        0 <= k < rest.push(c0).len() && rest.push(c0)[k] == c;
                    if k < rest.len() {
                        assert(rest.contains(c));
                    }
                }
            }
        } else {
            assert forall|c: Candidate|
                positions_upto(pitch, opens, m).contains(c) <==> (c.string < m && c.fret
                    <= MAX_FRET && opens[c.string as int] + c.fret == pitch) by {
                if c.string == m - 1 && c.fret <= MAX_FRET && opens[c.string as int] + c.fret
                    == pitch {
                    assert(playable_on(pitch, opens, m - 1));
                }
            }
        }
    }
}

/// The positions of a pitch are valid, distinct-stringed, and there is one per
/// string that can play it.
pub proof fn lemma_candidates(pitch: u8, tuning: Tuning)
    ensures
        forall|c: Candidate| candidates_spec(pitch, tuning).contains(c) <==> sounds_pitch(c, pitch, tuning),
        forall|k: int|
            0 <= k < candidates_spec(pitch, tuning).len() ==> sounds_pitch(
                #[trigger] candidates_spec(pitch, tuning)[k],
                pitch,
                tuning,
            ),
        candidates_spec(pitch, tuning).len() <= open_pitches_spec(tuning).len(),
{
    lemma_positions_upto(pitch, open_pitches_spec(tuning), open_pitches_spec(tuning).len() as int);
    assert forall|k: int| 0 <= k < candidates_spec(pitch, tuning).len() implies sounds_pitch(
        #[trigger] candidates_spec(pitch, tuning)[k],
        pitch,
        tuning,
    ) by {
        assert(candidates_spec(pitch, tuning).contains(candidates_spec(pitch, tuning)[k]));
    }
}

/// Every fretboard position (string, fret) that sounds `pitch`, lowest string first.
pub fn pitch_to_candidates(pitch: u8, tuning: Tuning) -> (candidates: Vec<Candidate>)
    ensures
        candidates@ == candidates_spec(pitch, tuning),
        forall|c: Candidate| candidates@.contains(c) <==> sounds_pitch(c, pitch, tuning),
        forall|i: int, j: int|
            0 <= i < j < candidates@.len() ==> candidates@[i].string < candidates@[j].string,
        candidates@.len() <= open_pitches_spec(tuning).len(),
{
    let opens = tuning.open_pitches();
    let mut candidates: Vec<Candidate> = Vec::new();
    let mut i: usize = 0;
    while i < opens.len()
        invariant
            opens@ == open_pitches_spec(tuning),
            i <= opens@.len(),
            candidates@ == positions_upto(pitch, opens@, i as int),
        decreases opens@.len() - i,
    {
        let open = opens[i];
        if pitch >= open && pitch - open <= MAX_FRET {
            candidates.push(Candidate { string: i as u8, fret: pitch - open });
        }
        i = i + 1;
    }
    proof {
        lemma_positions_upto(pitch, opens@, opens@.len() as int);
    }
    candidates
}

} // verus!
