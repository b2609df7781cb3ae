//! Viterbi fingering optimization.
//!
//! Costs are kept in half-point units so that every weight of the cost model
//! (60, 2, -0.5, 3, 1.5, ...) is an exact integer.

use vstd::prelude::*;
use crate::midi::NoteEvent;
use crate::tab::{
    Candidate, NoteOrigin, TabLayout, TabPosition, Tuning, MAX_FRET, candidates_spec, lemma_candidates,
    pitch_to_candidates, sounds_pitch,
};

verus! {

/// Penalty for an open A, D or G string (60 points).
pub const OPEN_STRING_PENALTY: i128 = 120;

/// Cost per string crossed (2 points).
pub const STRING_CROSS_COST: i128 = 4;

/// Bonus for staying on the same string (-0.5 points).
pub const SAME_STRING_BONUS: i128 = -1;

/// Cost per fret of stretch beyond the threshold (3 points).
pub const STRETCH_PENALTY: i128 = 6;

/// Fret span across strings that needs no stretch.
pub const STRETCH_THRESHOLD: u8 = 4;

/// Comfort-zone cost of a fret, in half-points: open and first fret are neutral,
/// frets 2-9 are preferred, 10-14 mildly and 15+ more strongly penalized.
pub open spec fn comfort_cost(fret: u8) -> int {
    if fret <= 1 {
        0
    } else if fret <= 9 {
        -3
    } else if fret <= 14 {
        2
    } else {
        6
    }
}

/// Cost of playing a note at `c`, in half-points.
pub open spec fn emission_spec(c: Candidate) -> int {
    (if c.fret == 0 && c.string > 0 {
        OPEN_STRING_PENALTY as int
    } else {
        0int
    }) + comfort_cost(c.fret)
}

pub open spec fn abs_diff(a: u8, b: u8) -> int {
    if a >= b {
        a - b
    } else {
        b - a
    }
}

/// Cost of the hand moving between fret distances of `d`, in half-points.
pub open spec fn movement_cost(d: int) -> int {
    if d <= 1 {
        0
    } else if d <= 3 {
        3 * d
    } else if d <= 5 {
        6 * d
    } else {
        10 * d
    }
}

/// Cost of moving from position `p` to position `c`, in half-points: string
/// crossing, hand movement (open strings need none) and cross-string stretch.
pub open spec fn transition_spec(p: Candidate, c: Candidate) -> int {
    let string_diff = abs_diff(c.string, p.string);
    let string_cost = if string_diff == 0 {
        SAME_STRING_BONUS as int
    } else {
        STRING_CROSS_COST * string_diff
    };
    let fret_diff = if p.fret == 0 || c.fret == 0 {
        0
    } else {
        abs_diff(c.fret, p.fret)
    };
    let span = abs_diff(c.fret, p.fret);
    let stretch = if string_diff > 0 && p.fret > 0 && c.fret > 0 && span > STRETCH_THRESHOLD {
        (span - STRETCH_THRESHOLD) * STRETCH_PENALTY
    } else {
        0
    };
    string_cost + movement_cost(fret_diff) + stretch
}

fn emission_cost(c: &Candidate) -> (r: i128)
    ensures
        r == emission_spec(*c),
{
    let mut cost: i128 = 0;
    if c.fret == 0 && c.string > 0 {
        cost = cost + OPEN_STRING_PENALTY;
    }
    let comfort: i128 = if c.fret <= 1 {
        0
    } else if c.fret <= 9 {
        -3
    } else if c.fret <= 14 {
        2
    } else {
        6
    };
    cost + comfort
}

fn u8_abs_diff(a: u8, b: u8) -> (d: u8)
    ensures
        d == abs_diff(a, b),
{
    if a >= b {
        a - b
    } else {
        b - a
    }
}

fn transition_cost(prev: &Candidate, curr: &Candidate) -> (r: i128)
    ensures
        r == transition_spec(*prev, *curr),
{
    let string_diff = u8_abs_diff(curr.string, prev.string);
    let mut cost: i128 = if string_diff == 0 {
        SAME_STRING_BONUS
    } else {
        STRING_CROSS_COST * (string_diff as i128)
    };
    let fret_diff: u8 = if prev.fret == 0 || curr.fret == 0 {
        0
    } else {
        u8_abs_diff(curr.fret, prev.fret)
    };
    let fd = fret_diff as i128;
    let movement: i128 = if fret_diff <= 1 {
        0
    } else if fret_diff <= 3 {
        3 * fd
    } else if fret_diff <= 5 {
        6 * fd
    } else {
        10 * fd
    };
    cost = cost + movement;
    if string_diff > 0 && prev.fret > 0 && curr.fret > 0 {
        let span = u8_abs_diff(curr.fret, prev.fret);
        if span > STRETCH_THRESHOLD {
            cost = cost + ((span - STRETCH_THRESHOLD) as i128) * STRETCH_PENALTY;
        }
    }
    cost
}

// ---------------------------------------------------------------------------
// The Viterbi recurrence over candidate rows.
// ---------------------------------------------------------------------------

/// Whether two positions are on the same string.
pub open spec fn same_string(p: Candidate, c: Candidate) -> bool {
    p.string == c.string
}

/// Whether `c` shares its string with a reachable position of the previous row.
pub open spec fn has_partner(prev_reach: Seq<bool>, prev_row: Seq<Candidate>, c: Candidate) -> bool {
    exists|j: int| 0 <= j < prev_row.len() && prev_reach[j] && #[trigger] same_string(prev_row[j], c)
}

/// Whether a slide is bound to its string: some reachable position of the
/// previous note shares a string with some position of the sliding note.
pub open spec fn slide_bound(prev_reach: Seq<bool>, prev_row: Seq<Candidate>, row: Seq<Candidate>, slide: bool) -> bool {
    slide && exists|k: int| 0 <= k < row.len() && #[trigger] has_partner(prev_reach, prev_row, row[k])
}

/// The positions of each note that some fingering of the notes so far can
/// end on: all of them, except that a bound slide can only end on a string
/// it shares with a reachable position of the previous note.
pub open spec fn reach_rows(cands: Seq<Seq<Candidate>>, slides: Seq<bool>, i: int) -> Seq<bool>
    decreases i,
{
    if i <= 0 {
        Seq::new(cands[0].len(), |k: int| true)
    } else {
        let prev = reach_rows(cands, slides, i - 1);
        let bound = slide_bound(prev, cands[i - 1], cands[i], slides[i]);
        Seq::new(cands[i].len(), |k: int| !bound || has_partner(prev, cands[i - 1], cands[i][k]))
    }
}

/// Whether note `i` is a slide bound to its string.
pub open spec fn bound_at(cands: Seq<Seq<Candidate>>, slides: Seq<bool>, i: int) -> bool {
    slide_bound(reach_rows(cands, slides, i - 1), cands[i - 1], cands[i], slides[i])
}

/// Cost of reaching `c` from the `j`-th position of the previous row, whose
/// best prefix costs are `prev_costs`.
pub open spec fn step_total(prev_costs: Seq<int>, prev_row: Seq<Candidate>, c: Candidate, j: int) -> int {
    prev_costs[j] + transition_spec(prev_row[j], c)
}

/// Whether the `j`-th previous position may lead to `c`: it is reachable, and
/// on the same string when the move is bound to it.
pub open spec fn eligible(prev_reach: Seq<bool>, prev_row: Seq<Candidate>, c: Candidate, bound: bool, j: int) -> bool {
    prev_reach[j] && (!bound || prev_row[j].string == c.string)
}

/// Among the first `m` eligible previous positions, the first one of least
/// total cost; -1 when none is eligible.
pub open spec fn pick_prev(
    prev_costs: Seq<int>,
    prev_reach: Seq<bool>,
    prev_row: Seq<Candidate>,
    c: Candidate,
    bound: bool,
    m: int,
) -> int
    decreases m,
{
    if m <= 0 {
        -1
    } else {
        let b = pick_prev(prev_costs, prev_reach, prev_row, c, bound, m - 1);
        let j = m - 1;
        if !eligible(prev_reach, prev_row, c, bound, j) {
            b
        } else if b < 0 || step_total(prev_costs, prev_row, c, j) < step_total(prev_costs, prev_row, c, b) {
            j
        } else {
            b
        }
    }
}

/// The predecessor chosen for position `k` of note `i` (for `i > 0`); -1
/// when the position cannot be reached.
pub open spec fn back_at(cands: Seq<Seq<Candidate>>, slides: Seq<bool>, i: int, k: int) -> int
    decreases i, 1int,
{
    if i <= 0 {
        -1
    } else {
        pick_prev(
        dp_costs(cands, slides, i - 1),
        reach_rows(cands, slides, i - 1),
        cands[i - 1],
        cands[i][k],
            bound_at(cands, slides, i),
            cands[i - 1].len() as int,
        )
    }
}

/// Least cost of a fingering of notes `0..=i` that ends on each position of
/// row `i` (0 for a position that cannot be reached).
pub open spec fn dp_costs(cands: Seq<Seq<Candidate>>, slides: Seq<bool>, i: int) -> Seq<int>
    decreases i, 2int,
{
    if i <= 0 {
        Seq::new(cands[0].len(), |k: int| emission_spec(cands[0][k]))
    } else {
        Seq::new(
            cands[i].len(),
            |k: int|
                if back_at(cands, slides, i, k) >= 0 {
                    step_total(dp_costs(cands, slides, i - 1), cands[i - 1], cands[i][k], back_at(cands, slides, i, k))
                        + emission_spec(cands[i][k])
                } else {
                    0
                },
        )
    }
}

/// The first reachable index among `s[0..m]` holding the least value; -1 when
/// none is reachable.
pub open spec fn first_min_reach(s: Seq<int>, reach: Seq<bool>, m: int) -> int
    decreases m,
{
    if m <= 0 {
        -1
    } else {
        let b = first_min_reach(s, reach, m - 1);
        if !reach[m - 1] {
            b
        } else if b < 0 || s[m - 1] < s[b] {
            m - 1
        } else {
            b
        }
    }
}

/// Index, in row `i`, of the position that the optimal fingering uses for note `i`.
pub open spec fn viterbi_index(cands: Seq<Seq<Candidate>>, slides: Seq<bool>, i: int) -> int
    decreases cands.len() - i,
{
    if i >= cands.len() - 1 {
        first_min_reach(
            dp_costs(cands, slides, cands.len() - 1),
            reach_rows(cands, slides, cands.len() - 1),
            cands[cands.len() - 1].len() as int,
        )
    } else {
        back_at(cands, slides, i + 1, viterbi_index(cands, slides, i + 1))
    }
}

/// The candidate rows of a note sequence.
pub open spec fn note_candidates(notes: Seq<NoteEvent>, tuning: Tuning) -> Seq<Seq<Candidate>> {
    Seq::new(notes.len(), |i: int| candidates_spec(notes[i].pitch, tuning))
}

/// Which notes are slides.
pub open spec fn note_slides(notes: Seq<NoteEvent>) -> Seq<bool> {
    Seq::new(notes.len(), |i: int| notes[i].is_slide())
}

/// Every note of the sequence can be played in `tuning`.
pub open spec fn all_playable(notes: Seq<NoteEvent>, tuning: Tuning) -> bool {
    forall|i: int| 0 <= i < notes.len() ==> candidates_spec(#[trigger] notes[i].pitch, tuning).len() > 0
}

/// The position that the optimizer gives note `i`.
pub open spec fn optimal_position(notes: Seq<NoteEvent>, tuning: Tuning, i: int) -> Candidate {
    note_candidates(notes, tuning)[i][viterbi_index(note_candidates(notes, tuning), note_slides(notes), i)]
}

/// Whether every row holds only valid fretboard positions.
pub open spec fn rows_valid(cands: Seq<Seq<Candidate>>) -> bool {
    forall|i: int, k: int|
        0 <= i < cands.len() && 0 <= k < cands[i].len() ==> (#[trigger] cands[i][k]).string < 4
            && cands[i][k].fret <= MAX_FRET
}

/// Every row is nonempty.
pub open spec fn rows_nonempty(cands: Seq<Seq<Candidate>>) -> bool {
    forall|r: int| 0 <= r < cands.len() ==> #[trigger] cands[r].len() > 0
}

// ---------------------------------------------------------------------------
// Facts about the recurrence.
// ---------------------------------------------------------------------------

proof fn lemma_pick_range(
    prev_costs: Seq<int>,
    prev_reach: Seq<bool>,
    prev_row: Seq<Candidate>,
    c: Candidate,
    bound: bool,
    m: int,
)
    ensures
        -1 <= pick_prev(prev_costs, prev_reach, prev_row, c, bound, m) < (if m > 0 { m } else { 0 }),
        pick_prev(prev_costs, prev_reach, prev_row, c, bound, m) >= 0 ==> eligible(
            prev_reach,
            prev_row,
            c,
            bound,
            pick_prev(prev_costs, prev_reach, prev_row, c, bound, m),
        ),
    decreases m,
{
    if m > 0 {
        lemma_pick_range(prev_costs, prev_reach, prev_row, c, bound, m - 1);
    }
}

proof fn lemma_pick_minimal(
    prev_costs: Seq<int>,
    prev_reach: Seq<bool>,
    prev_row: Seq<Candidate>,
    c: Candidate,
    bound: bool,
    m: int,
)
    ensures
        pick_prev(prev_costs, prev_reach, prev_row, c, bound, m) >= 0 ==> forall|j: int|
            0 <= j < m && eligible(prev_reach, prev_row, c, bound, j) ==> step_total(
                prev_costs,
                prev_row,
                c,
                pick_prev(prev_costs, prev_reach, prev_row, c, bound, m),
            ) <= #[trigger] step_total(prev_costs, prev_row, c, j),
        pick_prev(prev_costs, prev_reach, prev_row, c, bound, m) == -1 ==> forall|j: int|
            0 <= j < m ==> !#[trigger] eligible(prev_reach, prev_row, c, bound, j),
    decreases m,
{
    if m > 0 {
        lemma_pick_minimal(prev_costs, prev_reach, prev_row, c, bound, m - 1);
        lemma_pick_range(prev_costs, prev_reach, prev_row, c, bound, m - 1);
    }
}

proof fn lemma_first_min_reach(s: Seq<int>, reach: Seq<bool>, m: int)
    ensures
        -1 <= first_min_reach(s, reach, m) < (if m > 0 { m } else { 0 }),
        first_min_reach(s, reach, m) >= 0 ==> reach[first_min_reach(s, reach, m)],
        first_min_reach(s, reach, m) >= 0 ==> forall|k: int|
            0 <= k < m && reach[k] ==> s[first_min_reach(s, reach, m)] <= #[trigger] s[k],
        first_min_reach(s, reach, m) == -1 ==> forall|k: int| 0 <= k < m ==> !#[trigger] reach[k],
    decreases m,
{
    if m > 0 {
        lemma_first_min_reach(s, reach, m - 1);
    }
}

/// Each row of reachable positions has the row's length and at least one
/// reachable position.
proof fn lemma_reach_rows(cands: Seq<Seq<Candidate>>, slides: Seq<bool>, i: int)
    requires
        0 <= i < cands.len(),
        rows_nonempty(cands),
    ensures
        reach_rows(cands, slides, i).len() == cands[i].len(),
        exists|k: int| 0 <= k < cands[i].len() && #[trigger] reach_rows(cands, slides, i)[k],
    decreases i,
{
    if i == 0 {
        assert(reach_rows(cands, slides, 0)[0]);
    } else {
        lemma_reach_rows(cands, slides, i - 1);
        let prev = reach_rows(cands, slides, i - 1);
        let bound = slide_bound(prev, cands[i - 1], cands[i], slides[i]);
        if bound {
            let k = choose|k: int| 0 <= k < cands[i].len() && #[trigger] has_partner(prev, cands[i - 1], cands[i][k]);
            assert(reach_rows(cands, slides, i)[k]);
        } else {
            assert(reach_rows(cands, slides, i)[0]);
        }
    }
}

/// A position is reachable exactly when it has a chosen predecessor.
proof fn lemma_back_reach(cands: Seq<Seq<Candidate>>, slides: Seq<bool>, i: int, k: int)
    requires
        0 < i < cands.len(),
        0 <= k < cands[i].len(),
        rows_nonempty(cands),
    ensures
        (back_at(cands, slides, i, k) >= 0) == reach_rows(cands, slides, i)[k],
        -1 <= back_at(cands, slides, i, k) < cands[i - 1].len(),
        back_at(cands, slides, i, k) >= 0 ==> reach_rows(cands, slides, i - 1)[back_at(cands, slides, i, k)],
        back_at(cands, slides, i, k) >= 0 && bound_at(cands, slides, i) ==> cands[i - 1][back_at(
            cands,
            slides,
            i,
            k,
        )].string == cands[i][k].string,
{
    let prev = reach_rows(cands, slides, i - 1);
    let costs = dp_costs(cands, slides, i - 1);
    let bound = bound_at(cands, slides, i);
    let c = cands[i][k];
    let len = cands[i - 1].len() as int;
    lemma_reach_rows(cands, slides, i - 1);
    lemma_pick_range(costs, prev, cands[i - 1], c, bound, len);
    lemma_pick_minimal(costs, prev, cands[i - 1], c, bound, len);
    let p = back_at(cands, slides, i, k);
    if bound {
        if has_partner(prev, cands[i - 1], c) {
            let j = choose|j: int| 0 <= j < len && prev[j] && #[trigger] same_string(cands[i - 1][j], c);
            assert(eligible(prev, cands[i - 1], c, bound, j));
        }
        if p >= 0 {
            assert(same_string(cands[i - 1][p], c));
        }
    } else {
        let j = choose|j: int| 0 <= j < len && #[trigger] prev[j];
        assert(eligible(prev, cands[i - 1], c, bound, j));
    }
}

proof fn lemma_emission_bounds(c: Candidate)
    ensures
        -3 <= emission_spec(c) <= 126,
{
}

proof fn lemma_transition_bounds(p: Candidate, c: Candidate)
    requires
        p.string < 4,
        c.string < 4,
        p.fret <= MAX_FRET,
        c.fret <= MAX_FRET,
    ensures
        -1 <= transition_spec(p, c) <= 372,
{
}

proof fn lemma_transition_bounds_any(p: Candidate, c: Candidate)
    ensures
        -1 <= transition_spec(p, c) <= 12 * 255 + 10 * 255 + 6 * 255,
{
}

/// Each prefix cost stays within the per-note bounds of the cost model.
proof fn lemma_dp_bounds(cands: Seq<Seq<Candidate>>, slides: Seq<bool>, i: int)
    requires
        0 <= i < cands.len(),
        rows_valid(cands),
        rows_nonempty(cands),
    ensures
        dp_costs(cands, slides, i).len() == cands[i].len(),
        forall|k: int|
            0 <= k < cands[i].len() ==> -4 * (i + 1) <= #[trigger] dp_costs(cands, slides, i)[k] <= 500 * (i
                + 1),
    decreases i,
{
    if i == 0 {
        assert forall|k: int| 0 <= k < cands[i].len() implies -4 * (i + 1) <= #[trigger] dp_costs(
            cands,
            slides,
            i,
        )[k] <= 500 * (i + 1) by {
            lemma_emission_bounds(cands[0][k]);
        }
    } else {
        lemma_dp_bounds(cands, slides, i - 1);
        assert forall|k: int| 0 <= k < cands[i].len() implies -4 * (i + 1) <= #[trigger] dp_costs(
            cands,
            slides,
            i,
        )[k] <= 500 * (i + 1) by {
            let c = cands[i][k];
            lemma_back_reach(cands, slides, i, k);
            let j = back_at(cands, slides, i, k);
            if j >= 0 {
                assert(cands[i - 1][j].string < 4 && cands[i - 1][j].fret <= MAX_FRET);
                assert(c.string < 4 && c.fret <= MAX_FRET);
                lemma_transition_bounds(cands[i - 1][j], c);
                lemma_emission_bounds(c);
            }
        }
    }
}

/// The candidate rows of playable notes hold valid positions, and none is empty.
proof fn lemma_note_rows(notes: Seq<NoteEvent>, tuning: Tuning)
    requires
        all_playable(notes, tuning),
    ensures
        rows_valid(note_candidates(notes, tuning)),
        rows_nonempty(note_candidates(notes, tuning)),
{
    let cands = note_candidates(notes, tuning);
    assert forall|i: int, k: int| 0 <= i < cands.len() && 0 <= k < cands[i].len() implies (
    #[trigger] cands[i][k]).string < 4 && cands[i][k].fret <= MAX_FRET by {
        lemma_candidates(notes[i].pitch, tuning);
        assert(sounds_pitch(candidates_spec(notes[i].pitch, tuning)[k], notes[i].pitch, tuning));
    }
    assert forall|r: int| 0 <= r < cands.len() implies #[trigger] cands[r].len() > 0 by {
        assert(candidates_spec(notes[r].pitch, tuning).len() > 0);
    }
}

// ---------------------------------------------------------------------------
// Computing the recurrence.
// ---------------------------------------------------------------------------

/// Integer view of an exact row of costs.
pub open spec fn int_costs(row: Seq<i128>) -> Seq<int> {
    row.map_values(|x: i128| x as int)
}

/// Costs small enough that sums of a few of them stay exact in `i128`.
pub open spec fn costs_bounded(costs: Seq<i128>) -> bool {
    forall|j: int|
        0 <= j < costs.len() ==> -0x1_0000_0000_0000_0000_0000_0000 <= #[trigger] costs[j]
            <= 0x1_0000_0000_0000_0000_0000_0000
}

/// The first eligible previous position of least total cost, if any.
fn best_predecessor(
    prev_costs: &Vec<i128>,
    prev_reach: &Vec<bool>,
    prev_row: &Vec<Candidate>,
    c: &Candidate,
    bound: bool,
) -> (r: Option<usize>)
    requires
        prev_costs.len() == prev_row.len(),
        prev_reach.len() == prev_row.len(),
        costs_bounded(prev_costs@),
    ensures
        match r {
            Some(j) => j as int == pick_prev(
                int_costs(prev_costs@),
                prev_reach@,
                prev_row@,
                *c,
                bound,
                prev_row.len() as int,
            ),
            None => pick_prev(
                int_costs(prev_costs@),
                prev_reach@,
                prev_row@,
                *c,
                bound,
                prev_row.len() as int,
            ) == -1,
        },
{
    let ghost costs = int_costs(prev_costs@);
    let mut best: Option<usize> = None;
    let mut best_cost: i128 = 0;
    let mut j: usize = 0;
    while j < prev_row.len()
        invariant
            prev_costs.len() == prev_row.len(),
            prev_reach.len() == prev_row.len(),
            costs == int_costs(prev_costs@),
            costs_bounded(prev_costs@),
            j <= prev_row.len(),
            match best {
                Some(b) => b as int == pick_prev(costs, prev_reach@, prev_row@, *c, bound, j as int) && b < j
                    && best_cost == step_total(costs, prev_row@, *c, b as int),
                None => pick_prev(costs, prev_reach@, prev_row@, *c, bound, j as int) == -1,
            },
        decreases prev_row.len() - j,
    {
        let p = prev_row[j];
        if prev_reach[j] && (!bound || p.string == c.string) {
            let t = transition_cost(&p, c);
            proof {
                lemma_transition_bounds_any(p, *c);
            }
            let total = prev_costs[j] + t;
            assert(total == step_total(costs, prev_row@, *c, j as int));
            match best {
                None => {
                    best = Some(j);
                    best_cost = total;
                },
                Some(_) => {
                    if total < best_cost {
                        best = Some(j);
                        best_cost = total;
                    }
                },
            }
        }
        j = j + 1;
    }
    best
}

/// Whether `c` shares its string with a reachable previous position.
fn partner_exists(prev_reach: &Vec<bool>, prev_row: &Vec<Candidate>, c: &Candidate) -> (b: bool)
    requires
        prev_reach.len() == prev_row.len(),
    ensures
        b == has_partner(prev_reach@, prev_row@, *c),
{
    let mut j: usize = 0;
    while j < prev_row.len()
        invariant
            prev_reach.len() == prev_row.len(),
            j <= prev_row.len(),
            forall|q: int| 0 <= q < j ==> !(prev_reach@[q] && #[trigger] same_string(prev_row@[q], *c)),
        decreases prev_row.len() - j,
    {
        if prev_reach[j] && prev_row[j].string == c.string {
            assert(same_string(prev_row@[j as int], *c));
            return true;
        }
        j = j + 1;
    }
    false
}

/// Whether a slide is bound to its string.
fn slide_is_bound(prev_reach: &Vec<bool>, prev_row: &Vec<Candidate>, row: &Vec<Candidate>, slide: bool) -> (b: bool)
    requires
        prev_reach.len() == prev_row.len(),
    ensures
        b == slide_bound(prev_reach@, prev_row@, row@, slide),
{
    if !slide {
        return false;
    }
    let mut k: usize = 0;
    while k < row.len()
        invariant
            prev_reach.len() == prev_row.len(),
            slide,
            k <= row.len(),
            forall|q: int| 0 <= q < k ==> !#[trigger] has_partner(prev_reach@, prev_row@, row@[q]),
        decreases row.len() - k,
    {
        if partner_exists(prev_reach, prev_row, &row[k]) {
            assert(has_partner(prev_reach@, prev_row@, row@[k as int]));
            assert(slide_bound(prev_reach@, prev_row@, row@, slide));
            return true;
        }
        k = k + 1;
    }
    false
}

/// The candidate rows of the notes.
fn candidate_rows(notes: &[NoteEvent], tuning: Tuning) -> (all: Vec<Vec<Candidate>>)
    ensures
        all.len() == notes.len(),
        forall|r: int| 0 <= r < notes.len() ==> (#[trigger] all@[r])@ == note_candidates(notes@, tuning)[r],
{
    let n = notes.len();
    let mut all: Vec<Vec<Candidate>> = Vec::new();
    let mut i: usize = 0;
    while i < n
        invariant
            n == notes.len(),
            i <= n,
            all.len() == i,
            forall|r: int| 0 <= r < i ==> (#[trigger] all@[r])@ == note_candidates(notes@, tuning)[r],
        decreases n - i,
    {
        all.push(pitch_to_candidates(notes[i].pitch, tuning));
        i = i + 1;
    }
    all
}

/// Whether `cost`, `back` and `reach` are what the recurrence gives position `c`.
pub open spec fn step_ok(
    prev_costs: Seq<int>,
    prev_reach: Seq<bool>,
    prev_row: Seq<Candidate>,
    c: Candidate,
    bound: bool,
    cost: i128,
    back: usize,
    reach: bool,
) -> bool {
    let p = pick_prev(prev_costs, prev_reach, prev_row, c, bound, prev_row.len() as int);
    &&& reach == (p >= 0)
    &&& p >= 0 ==> back == p
    &&& cost == (if p >= 0 {
        step_total(prev_costs, prev_row, c, p) + emission_spec(c)
    } else {
        0
    })
}

/// One step of the recurrence: cost, back pointer and reachability of every
/// position of `curr_row`.
struct StepRow {
    costs: Vec<i128>,
    back: Vec<usize>,
    reach: Vec<bool>,
}

fn next_row(
    prev_costs: &Vec<i128>,
    prev_reach: &Vec<bool>,
    prev_row: &Vec<Candidate>,
    curr_row: &Vec<Candidate>,
    bound: bool,
) -> (res: StepRow)
    requires
        prev_costs.len() == prev_row.len(),
        prev_reach.len() == prev_row.len(),
        costs_bounded(prev_costs@),
    ensures
        res.costs.len() == curr_row.len(),
        res.back.len() == curr_row.len(),
        res.reach.len() == curr_row.len(),
        forall|k: int|
            0 <= k < curr_row.len() ==> #[trigger] step_ok(
                int_costs(prev_costs@),
                prev_reach@,
                prev_row@,
                curr_row@[k],
                bound,
                res.costs@[k],
                res.back@[k],
                res.reach@[k],
            ),
{
    let ghost prev = int_costs(prev_costs@);
    let mut costs: Vec<i128> = Vec::new();
    let mut back: Vec<usize> = Vec::new();
    let mut reach: Vec<bool> = Vec::new();
    let m = curr_row.len();
    let mut k: usize = 0;
    while k < m
        invariant
            m == curr_row@.len(),
            prev_costs.len() == prev_row.len(),
            prev_reach.len() == prev_row.len(),
            costs_bounded(prev_costs@),
            prev == int_costs(prev_costs@),
            k <= m,
            costs.len() == k,
            back.len() == k,
            reach.len() == k,
            forall|q: int| 0 <= q < k ==> #[trigger] step_ok(prev, prev_reach@, prev_row@, curr_row@[q], bound, costs@[q], back@[q], reach@[q]),
        decreases m - k,
    {
        let c = curr_row[k];
        proof {
            lemma_pick_range(prev, prev_reach@, prev_row@, c, bound, prev_row.len() as int);
        }
        let ghost old_costs = costs@;
        let ghost old_back = back@;
        let ghost old_reach = reach@;
        match best_predecessor(prev_costs, prev_reach, prev_row, &c, bound) {
            Some(j) => {
                let e = emission_cost(&c);
                let t = transition_cost(&prev_row[j], &c);
                proof {
                    lemma_transition_bounds_any(prev_row@[j as int], c);
                    lemma_emission_bounds(c);
                    assert(prev[j as int] == prev_costs@[j as int]);
                }
                let total = prev_costs[j] + t + e;
                assert(step_ok(prev, prev_reach@, prev_row@, c, bound, total, j, true));
                costs.push(total);
                back.push(j);
                reach.push(true);
            },
            None => {
                assert(step_ok(prev, prev_reach@, prev_row@, c, bound, 0, 0, false));
                costs.push(0);
                back.push(0);
                reach.push(false);
            },
        }
        assert forall|q: int| 0 <= q < k + 1 implies #[trigger] step_ok(prev, prev_reach@, prev_row@, curr_row@[q], bound, costs@[q], back@[q], reach@[q]) by {
            if q < k {
                assert(costs@[q] == old_costs[q] && back@[q] == old_back[q] && reach@[q] == old_reach[q]);
            }
        }
        k = k + 1;
    }
    StepRow { costs, back, reach }
}

/// Emission costs of the first row.
fn first_row_costs(row: &Vec<Candidate>) -> (costs: Vec<i128>)
    ensures
        int_costs(costs@) == Seq::new(row@.len(), |k: int| emission_spec(row@[k])),
{
    let mut costs: Vec<i128> = Vec::new();
    let mut k: usize = 0;
    while k < row.len()
        invariant
            k <= row@.len(),
            costs.len() == k,
            forall|q: int| 0 <= q < k ==> #[trigger] costs@[q] == emission_spec(row@[q]),
        decreases row.len() - k,
    {
        let e = emission_cost(&row[k]);
        costs.push(e);
        k = k + 1;
    }
    assert(int_costs(costs@) =~= Seq::new(row@.len(), |k: int| emission_spec(row@[k])));
    costs
}

/// The first reachable index of least cost.
fn first_min_reach_index(costs: &Vec<i128>, reach: &Vec<bool>) -> (best: Option<usize>)
    requires
        costs.len() == reach.len(),
    ensures
        match best {
            Some(b) => b as int == first_min_reach(int_costs(costs@), reach@, costs.len() as int),
            None => first_min_reach(int_costs(costs@), reach@, costs.len() as int) == -1,
        },
{
    let ghost ints = int_costs(costs@);
    let mut best: Option<usize> = None;
    let mut q: usize = 0;
    while q < costs.len()
        invariant
            ints == int_costs(costs@),
            costs.len() == reach.len(),
            q <= costs.len(),
            match best {
                Some(b) => b as int == first_min_reach(ints, reach@, q as int) && b < q,
                None => first_min_reach(ints, reach@, q as int) == -1,
            },
        decreases costs.len() - q,
    {
        assert(ints[q as int] == costs@[q as int]);
        if reach[q] {
            match best {
                None => {
                    best = Some(q);
                },
                Some(b) => {
                    assert(ints[b as int] == costs@[b as int]);
                    if costs[q] < costs[b] {
                        best = Some(q);
                    }
                },
            }
        }
        q = q + 1;
    }
    best
}

/// The rows of best costs, back pointers and reachable positions for all notes.
fn viterbi_tables(
    notes: &[NoteEvent],
    all: &Vec<Vec<Candidate>>,
    Ghost(cands): Ghost<Seq<Seq<Candidate>>>,
    Ghost(slides): Ghost<Seq<bool>>,
) -> (res: (Vec<Vec<i128>>, Vec<Vec<usize>>, Vec<Vec<bool>>))
    requires
        notes.len() > 0,
        cands.len() == notes.len(),
        slides == note_slides(notes@),
        rows_valid(cands),
        rows_nonempty(cands),
        all.len() == cands.len(),
        forall|r: int| 0 <= r < cands.len() ==> (#[trigger] all@[r])@ == cands[r],
    ensures
        res.0.len() == cands.len(),
        res.1.len() == cands.len(),
        res.2.len() == cands.len(),
        forall|r: int| 0 <= r < cands.len() ==> int_costs((#[trigger] res.0@[r])@) == dp_costs(cands, slides, r),
        forall|r: int| 0 <= r < cands.len() ==> (#[trigger] res.2@[r])@ == reach_rows(cands, slides, r),
        forall|r: int, k: int|
            1 <= r < cands.len() && 0 <= k < cands[r].len() && reach_rows(cands, slides, r)[k] ==> #[trigger] res.1@[r]@[k]
                == back_at(cands, slides, r, k),
        forall|r: int| 0 <= r < cands.len() ==> (#[trigger] res.1@[r])@.len() == cands[r].len(),
{
    let n = notes.len();
    let mut costs: Vec<Vec<i128>> = Vec::new();
    let mut back: Vec<Vec<usize>> = Vec::new();
    let mut reach: Vec<Vec<bool>> = Vec::new();
    let row0 = first_row_costs(&all[0]);
    proof {
        assert(int_costs(row0@) =~= dp_costs(cands, slides, 0));
    }
    let mut reach0: Vec<bool> = Vec::new();
    let mut back0: Vec<usize> = Vec::new();
    let mut k: usize = 0;
    while k < all[0].len()
        invariant
            all.len() == n,
            n > 0,
            k <= all@[0]@.len(),
            reach0@ == Seq::new(k as nat, |q: int| true),
            back0.len() == k,
        decreases all[0].len() - k,
    {
        reach0.push(true);
        back0.push(0);
        k = k + 1;
        assert(reach0@ =~= Seq::new(k as nat, |q: int| true));
    }
    proof {
        assert(reach0@ =~= reach_rows(cands, slides, 0));
    }
    costs.push(row0);
    back.push(back0);
    reach.push(reach0);
    let mut i: usize = 1;
    while i < n
        invariant
            n == notes.len(),
            n == cands.len(),
            slides == note_slides(notes@),
            rows_valid(cands),
            rows_nonempty(cands),
            all.len() == n,
            forall|r: int| 0 <= r < n ==> (#[trigger] all@[r])@ == cands[r],
            1 <= i <= n,
            costs.len() == i,
            back.len() == i,
            reach.len() == i,
            forall|r: int| 0 <= r < i ==> int_costs((#[trigger] costs@[r])@) == dp_costs(cands, slides, r),
            forall|r: int| 0 <= r < i ==> (#[trigger] reach@[r])@ == reach_rows(cands, slides, r),
            forall|r: int, k: int|
                1 <= r < i && 0 <= k < cands[r].len() && reach_rows(cands, slides, r)[k] ==> #[trigger] back@[r]@[k]
                    == back_at(cands, slides, r, k),
            forall|r: int| 0 <= r < i ==> (#[trigger] back@[r])@.len() == cands[r].len(),
        decreases n - i,
    {
        let ghost prev = dp_costs(cands, slides, i - 1);
        proof {
            lemma_dp_bounds(cands, slides, i - 1);
            lemma_reach_rows(cands, slides, i - 1);
            assert forall|j: int| 0 <= j < costs@[i - 1]@.len() implies -0x1_0000_0000_0000_0000_0000_0000
                <= #[trigger] costs@[i - 1]@[j] <= 0x1_0000_0000_0000_0000_0000_0000 by {
                assert(int_costs(costs@[i - 1]@)[j] == prev[j]);
            }
        }
        let slide = notes[i].slide();
        let bound = slide_is_bound(&reach[i - 1], &all[i - 1], &all[i], slide);
        assert(bound == bound_at(cands, slides, i as int));
        let step = next_row(&costs[i - 1], &reach[i - 1], &all[i - 1], &all[i], bound);
        proof {
            assert forall|k: int| 0 <= k < cands[i as int].len() implies step.reach@[k] == reach_rows(cands, slides, i as int)[k]
                && (reach_rows(cands, slides, i as int)[k] ==> step.back@[k] == back_at(cands, slides, i as int, k))
                && int_costs(step.costs@)[k] == dp_costs(cands, slides, i as int)[k] by {
                lemma_back_reach(cands, slides, i as int, k);
                assert(step_ok(int_costs(costs@[i - 1]@), reach@[i - 1]@, all@[i - 1]@, all@[i as int]@[k], bound,
                    step.costs@[k], step.back@[k], step.reach@[k]));
                assert(int_costs(step.costs@)[k] == step.costs@[k]);
                assert(step.reach@[k] == (back_at(cands, slides, i as int, k) >= 0));
            }
            lemma_dp_bounds(cands, slides, i as int);
            assert(int_costs(step.costs@).len() == step.costs@.len());
            assert(dp_costs(cands, slides, i as int).len() == cands[i as int].len());
            assert(step.reach@ =~= reach_rows(cands, slides, i as int));
            assert forall|k: int| 0 <= k < cands[i as int].len() implies #[trigger] int_costs(step.costs@)[k]
                == dp_costs(cands, slides, i as int)[k] by {
                assert(step.reach@[k] == reach_rows(cands, slides, i as int)[k]);
            }
            assert(int_costs(step.costs@) =~= dp_costs(cands, slides, i as int));
        }
        costs.push(step.costs);
        back.push(step.back);
        reach.push(step.reach);
        i = i + 1;
    }
    (costs, back, reach)
}

/// For each note, the position on the minimum-cost fingering path found by the
/// Viterbi recurrence (ties go to the earlier candidate, that is the lower string).
pub fn optimal_fingering(notes: &[NoteEvent], tuning: Tuning) -> (path: Vec<Candidate>)
    requires
        all_playable(notes@, tuning),
    ensures
        path@ == optimal_fingering_spec(notes@, tuning),
        is_fingering(notes@, tuning, path@),
        forall|other: Seq<Candidate>|
            #[trigger] is_fingering(notes@, tuning, other) ==> fingering_cost(path@) <= fingering_cost(other),
{
    proof {
        lemma_optimal_is_fingering(notes@, tuning);
        assert forall|other: Seq<Candidate>| #[trigger] is_fingering(notes@, tuning, other) implies fingering_cost(
            optimal_fingering_spec(notes@, tuning),
        ) <= fingering_cost(other) by {
            if notes@.len() > 0 {
                lemma_optimal_fingering_is_cheapest(notes@, tuning, other);
            } else {
                assert(other =~= optimal_fingering_spec(notes@, tuning));
            }
        }
    }
    let n = notes.len();
    if n == 0 {
        let empty: Vec<Candidate> = Vec::new();
        assert(empty@ =~= optimal_fingering_spec(notes@, tuning));
        return empty;
    }
    let ghost cands = note_candidates(notes@, tuning);
    let ghost slides = note_slides(notes@);
    proof {
        lemma_note_rows(notes@, tuning);
    }
    let all = candidate_rows(notes, tuning);
    let (costs, back, reach) = viterbi_tables(notes, &all, Ghost(cands), Ghost(slides));
    proof {
        lemma_dp_bounds(cands, slides, n - 1);
        lemma_reach_rows(cands, slides, n - 1);
        lemma_first_min_reach(dp_costs(cands, slides, n - 1), reach_rows(cands, slides, n - 1), cands[n - 1].len() as int);
        assert forall|r: int| 0 <= r < n implies 0 <= #[trigger] viterbi_index(cands, slides, r) < cands[r].len()
            && reach_rows(cands, slides, r)[viterbi_index(cands, slides, r)] by {
            lemma_viterbi_range(notes@, tuning, r);
        }
    }
    let best_idx = match first_min_reach_index(&costs[n - 1], &reach[n - 1]) {
        Some(b) => b,
        None => 0,
    };
    assert(best_idx as int == viterbi_index(cands, slides, n - 1));
    // Follow the back pointers from the end.
    let mut rev: Vec<usize> = Vec::new();
    let mut cur = best_idx;
    rev.push(cur);
    let mut t: usize = 1;
    while t < n
        invariant
            n == cands.len(),
            back.len() == n,
            forall|r: int, k: int|
                1 <= r < n && 0 <= k < cands[r].len() && reach_rows(cands, slides, r)[k] ==> #[trigger] back@[r]@[k]
                    == back_at(cands, slides, r, k),
            forall|r: int| 0 <= r < n ==> (#[trigger] back@[r])@.len() == cands[r].len(),
            forall|r: int| 0 <= r < n ==> 0 <= #[trigger] viterbi_index(cands, slides, r) < cands[r].len()
                && reach_rows(cands, slides, r)[viterbi_index(cands, slides, r)],
            1 <= t <= n,
            rev.len() == t,
            cur == rev@[t - 1],
            forall|s: int| 0 <= s < t ==> #[trigger] rev@[s] as int == viterbi_index(cands, slides, n - 1 - s),
        decreases n - t,
    {
        let r = n - t;
        assert(viterbi_index(cands, slides, r as int) == cur);
        assert(viterbi_index(cands, slides, r - 1) == back_at(cands, slides, r as int, cur as int));
        cur = back[r][cur];
        rev.push(cur);
        t = t + 1;
    }
    let mut path: Vec<Candidate> = Vec::new();
    let mut i: usize = 0;
    while i < n
        invariant
            n == notes.len(),
            n == cands.len(),
            cands == note_candidates(notes@, tuning),
            slides == note_slides(notes@),
            all.len() == n,
            forall|r: int| 0 <= r < n ==> (#[trigger] all@[r])@ == cands[r],
            rev.len() == n,
            forall|s: int| 0 <= s < n ==> #[trigger] rev@[s] as int == viterbi_index(cands, slides, n - 1 - s),
            forall|r: int| 0 <= r < n ==> 0 <= #[trigger] viterbi_index(cands, slides, r) < cands[r].len()
                && reach_rows(cands, slides, r)[viterbi_index(cands, slides, r)],
            path.len() == i,
            i <= n,
            forall|q: int| 0 <= q < i ==> path@[q] == optimal_position(notes@, tuning, q),
        decreases n - i,
    {
        let idx = rev[n - 1 - i];
        assert(idx as int == viterbi_index(cands, slides, i as int));
        path.push(all[i][idx]);
        i = i + 1;
    }
    assert(path@ =~= optimal_fingering_spec(notes@, tuning));
    path
}

// ---------------------------------------------------------------------------
// Optimality of the chosen fingering.
// ---------------------------------------------------------------------------

/// Cost of playing notes `0..=i` with the positions of `f`, in half-points.
pub open spec fn fingering_cost_upto(f: Seq<Candidate>, i: int) -> int
    decreases i,
{
    if i <= 0 {
        emission_spec(f[0])
    } else {
        fingering_cost_upto(f, i - 1) + transition_spec(f[i - 1], f[i]) + emission_spec(f[i])
    }
}

/// Total cost of a fingering, in half-points.
pub open spec fn fingering_cost(f: Seq<Candidate>) -> int {
    fingering_cost_upto(f, f.len() - 1)
}

/// A fingering of the notes: one valid position per note, and every slide
/// that can stay on its string does (see `reach_rows` and `slide_bound`).
pub open spec fn is_fingering(notes: Seq<NoteEvent>, tuning: Tuning, f: Seq<Candidate>) -> bool {
    &&& f.len() == notes.len()
    &&& forall|i: int| 0 <= i < f.len() ==> sounds_pitch(#[trigger] f[i], notes[i].pitch, tuning)
    &&& forall|i: int|
        1 <= i < f.len() && bound_at(note_candidates(notes, tuning), note_slides(notes), i) ==> f[i - 1].string
            == (#[trigger] f[i]).string
}

/// The fingering that the optimizer returns.
pub open spec fn optimal_fingering_spec(notes: Seq<NoteEvent>, tuning: Tuning) -> Seq<Candidate> {
    Seq::new(notes.len(), |i: int| optimal_position(notes, tuning, i))
}

/// Each position of a fingering is reachable, and the best prefix cost there
/// is at most the fingering's own prefix cost.
proof fn lemma_dp_lower_bound(notes: Seq<NoteEvent>, tuning: Tuning, f: Seq<Candidate>, i: int, k: int)
    requires
        all_playable(notes, tuning),
        is_fingering(notes, tuning, f),
        0 <= i < notes.len(),
        0 <= k < note_candidates(notes, tuning)[i].len(),
        note_candidates(notes, tuning)[i][k] == f[i],
    ensures
        reach_rows(note_candidates(notes, tuning), note_slides(notes), i)[k],
        dp_costs(note_candidates(notes, tuning), note_slides(notes), i)[k] <= fingering_cost_upto(f, i),
    decreases i,
{
    let cands = note_candidates(notes, tuning);
    let slides = note_slides(notes);
    lemma_note_rows(notes, tuning);
    if i > 0 {
        lemma_candidates(notes[i - 1].pitch, tuning);
        assert(sounds_pitch(f[i - 1], notes[i - 1].pitch, tuning));
        assert(cands[i - 1].contains(f[i - 1]));
        let k2 = choose|k2: int| 0 <= k2 < cands[i - 1].len() && #[trigger] cands[i - 1][k2] == f[i - 1];
        lemma_dp_lower_bound(notes, tuning, f, i - 1, k2);
        let prev = dp_costs(cands, slides, i - 1);
        let pr = reach_rows(cands, slides, i - 1);
        let bound = bound_at(cands, slides, i);
        let c = cands[i][k];
        lemma_reach_rows(cands, slides, i - 1);
        if bound {
            assert(f[i - 1].string == f[i].string);
            assert(same_string(cands[i - 1][k2], c));
        }
        assert(reach_rows(cands, slides, i)[k]);
        assert(eligible(pr, cands[i - 1], c, bound, k2));
        lemma_pick_minimal(prev, pr, cands[i - 1], c, bound, cands[i - 1].len() as int);
        lemma_back_reach(cands, slides, i, k);
        assert(step_total(prev, cands[i - 1], c, k2) == prev[k2] + transition_spec(f[i - 1], f[i]));
    } else {
        assert(reach_rows(cands, slides, 0)[k]);
    }
}

/// Every index the optimizer selects lies within its candidate row and is reachable.
proof fn lemma_viterbi_range(notes: Seq<NoteEvent>, tuning: Tuning, i: int)
    requires
        all_playable(notes, tuning),
        0 <= i < notes.len(),
    ensures
        0 <= viterbi_index(note_candidates(notes, tuning), note_slides(notes), i) < note_candidates(
            notes,
            tuning,
        )[i].len(),
        reach_rows(note_candidates(notes, tuning), note_slides(notes), i)[viterbi_index(
            note_candidates(notes, tuning),
            note_slides(notes),
            i,
        )],
    decreases notes.len() - i,
{
    let cands = note_candidates(notes, tuning);
    let slides = note_slides(notes);
    let n = notes.len();
    lemma_note_rows(notes, tuning);
    if i == n - 1 {
        lemma_reach_rows(cands, slides, n - 1);
        let reach = reach_rows(cands, slides, n - 1);
        lemma_first_min_reach(dp_costs(cands, slides, n - 1), reach, cands[n - 1].len() as int);
        let k = choose|k: int| 0 <= k < cands[n - 1].len() && #[trigger] reach[k];
        assert(reach[k]);
    } else {
        lemma_viterbi_range(notes, tuning, i + 1);
        lemma_back_reach(cands, slides, i + 1, viterbi_index(cands, slides, i + 1));
    }
}

/// The running cost of the optimizer's fingering equals the best prefix cost
/// at the position it selects.
proof fn lemma_optimal_prefix_cost(notes: Seq<NoteEvent>, tuning: Tuning, i: int)
    requires
        all_playable(notes, tuning),
        0 <= i < notes.len(),
    ensures
        fingering_cost_upto(optimal_fingering_spec(notes, tuning), i) == dp_costs(
            note_candidates(notes, tuning),
            note_slides(notes),
            i,
        )[viterbi_index(note_candidates(notes, tuning), note_slides(notes), i)],
    decreases i,
{
    let cands = note_candidates(notes, tuning);
    let slides = note_slides(notes);
    let v = optimal_fingering_spec(notes, tuning);
    lemma_note_rows(notes, tuning);
    lemma_viterbi_range(notes, tuning, i);
    lemma_dp_bounds(cands, slides, i);
    let vi = viterbi_index(cands, slides, i);
    assert(v[i] == cands[i][vi]);
    if i > 0 {
        lemma_optimal_prefix_cost(notes, tuning, i - 1);
        lemma_viterbi_range(notes, tuning, i - 1);
        lemma_back_reach(cands, slides, i, vi);
        let prev = dp_costs(cands, slides, i - 1);
        assert(i - 1 < cands.len() - 1);
        let j = viterbi_index(cands, slides, i - 1);
        assert(j == back_at(cands, slides, i, vi));
        assert(v[i - 1] == cands[i - 1][j]);
        assert(dp_costs(cands, slides, i)[vi] == step_total(prev, cands[i - 1], cands[i][vi], j) + emission_spec(
            cands[i][vi],
        ));
        assert(fingering_cost_upto(v, i) == fingering_cost_upto(v, i - 1) + transition_spec(v[i - 1], v[i])
            + emission_spec(v[i]));
    }
}

/// The optimizer's choice is a fingering of the notes: every position sounds
/// its note and every slide that can stay on its string does.
pub proof fn lemma_optimal_is_fingering(notes: Seq<NoteEvent>, tuning: Tuning)
    requires
        all_playable(notes, tuning),
    ensures
        is_fingering(notes, tuning, optimal_fingering_spec(notes, tuning)),
{
    let cands = note_candidates(notes, tuning);
    let slides = note_slides(notes);
    let v = optimal_fingering_spec(notes, tuning);
    lemma_note_rows(notes, tuning);
    assert forall|i: int| 0 <= i < v.len() implies sounds_pitch(#[trigger] v[i], notes[i].pitch, tuning) by {
        lemma_viterbi_range(notes, tuning, i);
        lemma_candidates(notes[i].pitch, tuning);
    }
    assert forall|i: int|
        1 <= i < v.len() && bound_at(cands, slides, i) implies v[i - 1].string == (#[trigger] v[i]).string by {
        lemma_viterbi_range(notes, tuning, i);
        let vi = viterbi_index(cands, slides, i);
        assert(viterbi_index(cands, slides, i - 1) == back_at(cands, slides, i, vi));
        lemma_back_reach(cands, slides, i, vi);
    }
}

/// Optimality: no fingering of the notes costs less than the one the
/// optimizer chooses.
pub proof fn lemma_optimal_fingering_is_cheapest(notes: Seq<NoteEvent>, tuning: Tuning, other: Seq<Candidate>)
    requires
        all_playable(notes, tuning),
        notes.len() > 0,
        is_fingering(notes, tuning, other),
    ensures
        fingering_cost(optimal_fingering_spec(notes, tuning)) <= fingering_cost(other),
{
    let cands = note_candidates(notes, tuning);
    let slides = note_slides(notes);
    let n = notes.len();
    lemma_note_rows(notes, tuning);
    lemma_optimal_prefix_cost(notes, tuning, n - 1);
    lemma_dp_bounds(cands, slides, n - 1);
    let last = dp_costs(cands, slides, n - 1);
    let reach = reach_rows(cands, slides, n - 1);
    lemma_candidates(notes[n - 1].pitch, tuning);
    assert(cands[n - 1].contains(other[n - 1]));
    let k = choose|k: int| 0 <= k < cands[n - 1].len() && #[trigger] cands[n - 1][k] == other[n - 1];
    lemma_dp_lower_bound(notes, tuning, other, n - 1, k);
    lemma_first_min_reach(last, reach, cands[n - 1].len() as int);
    assert(reach[k]);
}

/// The cost of moving between two positions does not depend on the
/// direction, staying put earns the same-string bonus, and no move costs
/// less than that bonus (-0.5 points).
pub proof fn lemma_transition_symmetric(a: Candidate, b: Candidate)
    ensures
        transition_spec(a, b) == transition_spec(b, a),
        transition_spec(a, a) == SAME_STRING_BONUS,
        transition_spec(a, b) >= SAME_STRING_BONUS,
{
}

/// What playing one position costs, in half-points: a fretted position (or
/// the open E string) costs between -1.5 and 3 points, with frets 2-9
/// cheapest, then 10-14, then 15 and up; an open A, D or G string costs at
/// least 60 points more than the open E string.
pub proof fn lemma_emission_law(c: Candidate, d: Candidate)
    ensures
        c.fret > 0 || c.string == 0 ==> -3 <= emission_spec(c) <= 6,
        c.fret == 0 && c.string > 0 ==> emission_spec(c) >= emission_spec(Candidate { string: 0, fret: 0 }) + 120,
        emission_spec(Candidate { string: 0, fret: 0 }) == 0,
        2 <= c.fret <= 9 && 10 <= d.fret ==> emission_spec(c) < emission_spec(d),
        10 <= c.fret <= 14 && 15 <= d.fret ==> emission_spec(c) < emission_spec(d),
        2 <= c.fret <= 9 && (d.fret <= 1 && (d.fret > 0 || d.string == 0)) ==> emission_spec(c) < emission_spec(d),
        c.fret == 1 ==> emission_spec(c) == 0,
        2 <= c.fret <= 9 ==> emission_spec(c) == -3,
        10 <= c.fret <= 14 ==> emission_spec(c) == 2,
        15 <= c.fret ==> emission_spec(c) == 6,
        c.fret == 0 && c.string > 0 ==> emission_spec(c) == 120,
{
}

/// What moving between two positions costs, in half-points. Staying on a
/// string earns 0.5 points, each string crossed costs 2. Between two fretted
/// positions the hand moves by the fret distance `d`: free for `d <= 1`,
/// otherwise 1.5 to 5 points per fret; crossing strings with a span over 4
/// frets adds 3 points per extra fret. A move to or from an open string needs
/// no hand movement and no stretch.
pub proof fn lemma_transition_law(p: Candidate, c: Candidate)
    ensures
        ({
            let d = abs_diff(p.fret, c.fret);
            let sd = abs_diff(p.string, c.string);
            &&& (p.fret > 0 && c.fret > 0 && p.string == c.string && d <= 1) ==> transition_spec(p, c) == -1
            &&& (p.fret > 0 && c.fret > 0 && p.string == c.string && d >= 2) ==> -1 + 3 * d <= transition_spec(
                p,
                c,
            ) <= -1 + 10 * d
            &&& (p.fret > 0 && c.fret > 0 && sd > 0 && d >= 2) ==> transition_spec(p, c) >= 4 * sd + 3 * d
            &&& (p.fret > 0 && c.fret > 0 && sd > 0 && d > 4) ==> transition_spec(p, c) >= 4 * sd + 3 * d + 6 * (d
                - 4)
            &&& (p.fret > 0 && c.fret > 0 && sd > 0 && d <= 1) ==> transition_spec(p, c) == 4 * sd
            &&& (p.fret > 0 && c.fret > 0 && p.string == c.string && 2 <= d <= 3) ==> transition_spec(p, c) == -1
                + 3 * d
            &&& (p.fret > 0 && c.fret > 0 && p.string == c.string && 4 <= d <= 5) ==> transition_spec(p, c) == -1
                + 6 * d
            &&& (p.fret > 0 && c.fret > 0 && p.string == c.string && 6 <= d) ==> transition_spec(p, c) == -1 + 10
                * d
            &&& (p.fret > 0 && c.fret > 0 && sd > 0 && 2 <= d <= 3) ==> transition_spec(p, c) == 4 * sd + 3 * d
            &&& (p.fret > 0 && c.fret > 0 && sd > 0 && d == 4) ==> transition_spec(p, c) == 4 * sd + 6 * d
            &&& (p.fret > 0 && c.fret > 0 && sd > 0 && d == 5) ==> transition_spec(p, c) == 4 * sd + 6 * d + 6
            &&& (p.fret > 0 && c.fret > 0 && sd > 0 && 6 <= d) ==> transition_spec(p, c) == 4 * sd + 10 * d + 6 * (d
                - 4)
            &&& (p.fret == 0 || c.fret == 0) ==> transition_spec(p, c) == if sd == 0 {
                -1
            } else {
                4 * sd
            }
        }),
{
}

// ---------------------------------------------------------------------------
// The optimized tab layout.
// ---------------------------------------------------------------------------

/// The tab positions that the optimizer gives `notes`.
pub open spec fn optimized_positions(notes: Seq<NoteEvent>, tuning: Tuning) -> Seq<TabPosition> {
    Seq::new(
        notes.len(),
        |i: int|
            TabPosition {
                string: optimal_position(notes, tuning, i).string,
                fret: optimal_position(notes, tuning, i).fret,
                midi_pitch: notes[i].pitch,
                origin: NoteOrigin::Optimized,
                technique: notes[i].technique,
            },
    )
}

/// The fretboard positions of a layout's notes.
pub open spec fn layout_fingering(positions: Seq<TabPosition>) -> Seq<Candidate> {
    positions.map_values(|p: TabPosition| Candidate { string: p.string, fret: p.fret })
}

/// Lays the notes out on the fretboard along the minimum-cost fingering,
/// marking every note as optimized: every position sounds its note, every
/// slide that can stay on its string does, and no such fingering costs less.
pub fn optimize(notes: &[NoteEvent], tuning: Tuning, time_sig: (u8, u8)) -> (sheet: TabLayout)
    requires
        all_playable(notes@, tuning),
    ensures
        sheet.notes@ == optimized_positions(notes@, tuning),
        sheet.time_signature == time_sig,
        sheet.tuning == tuning,
        sheet.key_transpose == 0,
        is_fingering(notes@, tuning, layout_fingering(sheet.notes@)),
        forall|other: Seq<Candidate>|
            #[trigger] is_fingering(notes@, tuning, other) ==> fingering_cost(layout_fingering(sheet.notes@))
                <= fingering_cost(other),
{
    let path = optimal_fingering(notes, tuning);
    let mut positions: Vec<TabPosition> = Vec::new();
    let n = notes.len();
    let mut i: usize = 0;
    while i < n
        invariant
            n == notes.len(),
            path.len() == n,
            forall|q: int| 0 <= q < n ==> path@[q] == optimal_position(notes@, tuning, q),
            i <= n,
            positions.len() == i,
            forall|q: int| 0 <= q < i ==> positions@[q] == optimized_positions(notes@, tuning)[q],
        decreases n - i,
    {
        let c = path[i];
        positions.push(
            TabPosition {
                string: c.string,
                fret: c.fret,
                midi_pitch: notes[i].pitch,
                origin: NoteOrigin::Optimized,
                technique: notes[i].technique,
            },
        );
        i = i + 1;
    }
    proof {
        assert(positions@ =~= optimized_positions(notes@, tuning));
        assert(layout_fingering(positions@) =~= path@);
    }
    TabLayout { notes: positions, time_signature: time_sig, tuning, key_transpose: 0 }
}

} // verus!
