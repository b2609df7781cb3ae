//! ASCII tablature export: one line per string (highest string on top),
//! four characters per beat, four beats per measure, four measures per line.

use vstd::prelude::*;
use crate::midi::Technique;
use crate::tab::{Tuning, open_pitches_spec};
use crate::text::{decimal, decimal_chars, digit_char, lemma_decimal_digits, symbol_text, tab_symbol};

verus! {

pub const CHARS_PER_BEAT: usize = 4;

pub const BEATS_PER_MEASURE: usize = 4;

pub const CHARS_PER_MEASURE: usize = 16;

pub const MEASURES_PER_LINE: usize = 4;

/// A tab note as the text grid places it: string, fret, the column
/// (character position from the start of the tab) where its fret number
/// starts, and how it is played.
#[derive(Debug, Clone, Copy, PartialEq, Eq, Structural)]
pub struct GridNote {
    pub string: u8,
    pub fret: u8,
    pub char_pos: usize,
    pub technique: Option<Technique>,
}

/// Measures drawn for a tab lasting `total_beats` beats (at least one).
pub open spec fn measure_count(total_beats: nat) -> nat {
    let m = ((total_beats + BEATS_PER_MEASURE - 1) / (BEATS_PER_MEASURE as int)) as nat;
    if m >= 1 {
        m
    } else {
        1
    }
}

/// Columns of the grid.
pub open spec fn grid_width(total_beats: nat) -> nat {
    measure_count(total_beats) * (CHARS_PER_MEASURE as nat)
}

/// Whether note `n` writes a digit at column `c` of string `s` of a grid
/// `width` columns wide.
pub open spec fn writes(n: GridNote, s: int, c: int, width: int) -> bool {
    n.string == s && n.char_pos <= c < n.char_pos + decimal(n.fret as nat).len() && c < width
}

/// Whether note `n` puts a slide marker `/` at column `c` of string `s`: a
/// slide note on the grid marks the column just before its fret number.
pub open spec fn marks(n: GridNote, s: int, c: int, width: int) -> bool {
    n.technique matches Some(Technique::Slide) && n.string == s && 0 < n.char_pos < width && c == n.char_pos - 1
}

/// The character at column `c` of string `s` after writing the first `k`
/// notes: what the last note written there put (a fret digit or a slide
/// marker), or `-`.
pub open spec fn cell(notes: Seq<GridNote>, s: int, c: int, width: int, k: int) -> char
    decreases k,
{
    if k <= 0 {
        '-'
    } else if writes(notes[k - 1], s, c, width) {
        decimal(notes[k - 1].fret as nat)[c - notes[k - 1].char_pos]
    } else if marks(notes[k - 1], s, c, width) {
        '/'
    } else {
        cell(notes, s, c, width, k - 1)
    }
}

/// The name of each string, lowest first.
pub open spec fn string_label(tuning: Tuning, s: int) -> Seq<char> {
    match tuning {
        Tuning::Standard4 => if s == 0 {
            "E"@
        } else if s == 1 {
            "A"@
        } else if s == 2 {
            "D"@
        } else {
            "G"@
        },
    }
}

/// Columns `start..e` of string `s`, with a bar after every full measure that
/// is not the last one on the line (which ends at `end`).
pub open spec fn cells_text(notes: Seq<GridNote>, s: int, start: int, e: int, end: int, width: int) -> Seq<char>
    decreases e - start,
{
    if e <= start {
        Seq::empty()
    } else {
        cells_text(notes, s, start, e - 1, end, width).push(cell(notes, s, e - 1, width, notes.len() as int))
            + (if e % (CHARS_PER_MEASURE as int) == 0 && e < end {
            "|"@
        } else {
            Seq::empty()
        })
    }
}

/// One text line: the string's label, then its columns `start..end` between bars.
pub open spec fn line_text(notes: Seq<GridNote>, tuning: Tuning, s: int, start: int, end: int, width: int) -> Seq<char> {
    string_label(tuning, s) + "|"@ + cells_text(notes, s, start, end, end, width) + "|"@ + "\n"@
}

/// The lines of strings `k-1` down to 0 over columns `start..end`.
pub open spec fn lines_text(notes: Seq<GridNote>, tuning: Tuning, k: int, start: int, end: int, width: int) -> Seq<char>
    decreases k,
{
    if k <= 0 {
        Seq::empty()
    } else {
        line_text(notes, tuning, k - 1, start, end, width) + lines_text(notes, tuning, k - 1, start, end, width)
    }
}

/// Lines of measures from `offset` on, up to four measures per line, each
/// block followed by an empty line.
pub open spec fn blocks_text(notes: Seq<GridNote>, tuning: Tuning, measures: int, offset: int) -> Seq<char>
    decreases measures - offset,
{
    if offset >= measures || offset < 0 {
        Seq::empty()
    } else {
        let line_measures = if measures - offset < MEASURES_PER_LINE {
            measures - offset
        } else {
            MEASURES_PER_LINE as int
        };
        let start = offset * CHARS_PER_MEASURE;
        let end = start + line_measures * CHARS_PER_MEASURE;
        lines_text(notes, tuning, open_pitches_spec(tuning).len() as int, start, end, measures * CHARS_PER_MEASURE)
            + "\n"@ + blocks_text(notes, tuning, measures, offset + line_measures)
    }
}

/// The whole ASCII tab.
pub open spec fn ascii_document(notes: Seq<GridNote>, tuning: Tuning, total_beats: nat) -> Seq<char> {
    if notes.len() == 0 {
        "(empty tab)"@
    } else {
        blocks_text(notes, tuning, measure_count(total_beats) as int, 0)
    }
}

/// Whether the grid can be drawn: its size fits in memory indices, and every
/// note that lands on the grid is on a string of the tuning.
pub open spec fn grid_drawable(notes: Seq<GridNote>, tuning: Tuning, total_beats: nat) -> bool {
    &&& total_beats + BEATS_PER_MEASURE - 1 <= usize::MAX
    &&& grid_width(total_beats) + 3 <= usize::MAX
    &&& forall|i: int|
        0 <= i < notes.len() && (#[trigger] notes[i]).char_pos < grid_width(total_beats) ==> notes[i].string
            < open_pitches_spec(tuning).len()
}

proof fn lemma_cell_char(notes: Seq<GridNote>, s: int, c: int, width: int, k: int)
    ensures
        tab_symbol(cell(notes, s, c, width, k)),
    decreases k,
{
    if k > 0 {
        lemma_cell_char(notes, s, c, width, k - 1);
        lemma_decimal_digits(notes[k - 1].fret as nat);
        if writes(notes[k - 1], s, c, width) {
            let i = c - notes[k - 1].char_pos;
            assert(exists|d: int| 0 <= d < 10 && #[trigger] decimal(notes[k - 1].fret as nat)[i] == digit_char(d));
        }
    }
}

/// The row of string `s`: every column as `cell` describes it after all notes.
fn grid_row(notes: &[GridNote], s: u8, width: usize) -> (row: Vec<char>)
    requires
        width + 3 <= usize::MAX,
    ensures
        row@ == Seq::new(width as nat, |c: int| cell(notes@, s as int, c, width as int, notes@.len() as int)),
{
    let mut row: Vec<char> = Vec::new();
    let mut c: usize = 0;
    while c < width
        invariant
            c <= width,
            row@ == Seq::new(c as nat, |q: int| '-'),
        decreases width - c,
    {
        row.push('-');
        c = c + 1;
        assert(row@ =~= Seq::new(c as nat, |q: int| '-'));
    }
    assert(row@ =~= Seq::new(width as nat, |q: int| cell(notes@, s as int, q, width as int, 0)));
    let mut k: usize = 0;
    while k < notes.len()
        invariant
            width + 3 <= usize::MAX,
            k <= notes.len(),
            row@ == Seq::new(width as nat, |q: int| cell(notes@, s as int, q, width as int, k as int)),
        decreases notes.len() - k,
    {
        let note = notes[k];
        if note.string == s && note.char_pos < width {
            let digits = decimal_chars(note.fret as u64);
            proof {
                lemma_decimal_digits(note.fret as nat);
            }
            let ghost base = row@;
            let slide = match note.technique {
                Some(Technique::Slide) => true,
                None => false,
            };
            if slide && note.char_pos > 0 {
                row.set(note.char_pos - 1, '/');
            }
            let ghost before = row@;
            assert(before == Seq::new(
                width as nat,
                |q: int|
                    if marks(note, s as int, q, width as int) {
                        '/'
                    } else {
                        cell(notes@, s as int, q, width as int, k as int)
                    },
            ));
            let mut i: usize = 0;
            while i < digits.len()
                invariant
                    width + 3 <= usize::MAX,
                    note.char_pos < width,
                    note == notes@[k as int],
                    note.string == s,
                    digits@ == decimal(note.fret as nat),
                    digits@.len() <= 3,
                    i <= digits.len(),
                    before == Seq::new(
                        width as nat,
                        |q: int|
                            if marks(note, s as int, q, width as int) {
                                '/'
                            } else {
                                cell(notes@, s as int, q, width as int, k as int)
                            },
                    ),
                    row@.len() == width,
                    forall|q: int|
                        0 <= q < width ==> #[trigger] row@[q] == (if note.char_pos <= q < note.char_pos + i {
                            digits@[q - note.char_pos]
                        } else {
                            before[q]
                        }),
                decreases digits.len() - i,
            {
                if note.char_pos + i < width {
                    row.set(note.char_pos + i, digits[i]);
                }
                i = i + 1;
            }
            assert(row@ =~= Seq::new(width as nat, |q: int| cell(notes@, s as int, q, width as int, k + 1)));
        } else {
            assert(row@ =~= Seq::new(width as nat, |q: int| cell(notes@, s as int, q, width as int, k + 1)));
        }
        k = k + 1;
    }
    row
}

fn label_text(tuning: Tuning, s: usize) -> (t: &'static str)
    ensures
        t@ == string_label(tuning, s as int),
{
    match tuning {
        Tuning::Standard4 => if s == 0 {
            "E"
        } else if s == 1 {
            "A"
        } else if s == 2 {
            "D"
        } else {
            "G"
        },
    }
}

/// Renders the tab as text lines: each string's label, its columns and bars
/// between measures; `(empty tab)` for a sheet without notes.
pub fn export(notes: &[GridNote], tuning: Tuning, total_beats: usize) -> (text: String)
    requires
        grid_drawable(notes@, tuning, total_beats as nat),
    ensures
        text@ == ascii_document(notes@, tuning, total_beats as nat),
{
    let mut output = String::new();
    if notes.len() == 0 {
        output.append("(empty tab)");
        return output;
    }
    let num_strings = tuning.num_strings() as usize;
    let mut total_measures = (total_beats + BEATS_PER_MEASURE - 1) / BEATS_PER_MEASURE;
    if total_measures < 1 {
        total_measures = 1;
    }
    let total_chars = total_measures * CHARS_PER_MEASURE;
    assert(total_chars == grid_width(total_beats as nat));
    assert(total_measures == measure_count(total_beats as nat));
    let mut grid: Vec<Vec<char>> = Vec::new();
    let mut s: usize = 0;
    while s < num_strings
        invariant
            num_strings == open_pitches_spec(tuning).len(),
            total_chars + 3 <= usize::MAX,
            s <= num_strings,
            grid.len() == s,
            forall|r: int|
                0 <= r < s ==> (#[trigger] grid@[r])@ == Seq::new(
                    total_chars as nat,
                    |c: int| cell(notes@, r, c, total_chars as int, notes@.len() as int),
                ),
        decreases num_strings - s,
    {
        let row = grid_row(notes, s as u8, total_chars);
        grid.push(row);
        s = s + 1;
    }
    let ghost doc = blocks_text(notes@, tuning, total_measures as int, 0);
    let mut measure_offset: usize = 0;
    while measure_offset < total_measures
        invariant
            num_strings == open_pitches_spec(tuning).len(),
            total_chars == total_measures * CHARS_PER_MEASURE,
            total_chars + 3 <= usize::MAX,
            grid.len() == num_strings,
            forall|r: int|
                0 <= r < num_strings ==> (#[trigger] grid@[r])@ == Seq::new(
                    total_chars as nat,
                    |c: int| cell(notes@, r, c, total_chars as int, notes@.len() as int),
                ),
            measure_offset <= total_measures,
            doc == blocks_text(notes@, tuning, total_measures as int, 0),
            output@ + blocks_text(notes@, tuning, total_measures as int, measure_offset as int) == doc,
        decreases total_measures - measure_offset,
    {
        let line_measures = if total_measures - measure_offset < MEASURES_PER_LINE {
            total_measures - measure_offset
        } else {
            MEASURES_PER_LINE
        };
        let start_char = measure_offset * CHARS_PER_MEASURE;
        let end_char = start_char + line_measures * CHARS_PER_MEASURE;
        let ghost block_base = output@;
        let ghost all_lines = lines_text(notes@, tuning, num_strings as int, start_char as int, end_char as int, total_chars as int);
        let mut k: usize = num_strings;
        while k > 0
            invariant
                num_strings == open_pitches_spec(tuning).len(),
                end_char <= total_chars,
                start_char <= end_char,
                total_chars + 3 <= usize::MAX,
                grid.len() == num_strings,
                forall|r: int|
                    0 <= r < num_strings ==> (#[trigger] grid@[r])@ == Seq::new(
                        total_chars as nat,
                        |c: int| cell(notes@, r, c, total_chars as int, notes@.len() as int),
                    ),
                k <= num_strings,
                all_lines == lines_text(notes@, tuning, num_strings as int, start_char as int, end_char as int, total_chars as int),
                output@ + lines_text(notes@, tuning, k as int, start_char as int, end_char as int, total_chars as int)
                    == block_base + all_lines,
            decreases k,
        {
            k = k - 1;
            let row = &grid[k];
            let ghost line_base = output@;
            output.append(label_text(tuning, k));
            output.append("|");
            let mut c: usize = start_char;
            while c < end_char
                invariant
                    start_char <= c <= end_char,
                    end_char <= total_chars,
                    total_chars + 3 <= usize::MAX,
                    row@ == Seq::new(
                        total_chars as nat,
                        |q: int| cell(notes@, k as int, q, total_chars as int, notes@.len() as int),
                    ),
                    output@ == line_base + string_label(tuning, k as int) + "|"@ + cells_text(
                        notes@,
                        k as int,
                        start_char as int,
                        c as int,
                        end_char as int,
                        total_chars as int,
                    ),
                decreases end_char - c,
            {
                let ch = row[c];
                proof {
                    lemma_cell_char(notes@, k as int, c as int, total_chars as int, notes@.len() as int);
                }
                output.append(symbol_text(ch));
                if (c + 1) % CHARS_PER_MEASURE == 0 && c + 1 < end_char {
                    output.append("|");
                }
                c = c + 1;
            }
            output.append("|");
            output.append("\n");
            proof {
                assert(output@ =~= line_base + line_text(
                    notes@,
                    tuning,
                    k as int,
                    start_char as int,
                    end_char as int,
                    total_chars as int,
                ));
                assert(lines_text(notes@, tuning, k + 1, start_char as int, end_char as int, total_chars as int)
                    =~= line_text(notes@, tuning, k as int, start_char as int, end_char as int, total_chars as int)
                    + lines_text(notes@, tuning, k as int, start_char as int, end_char as int, total_chars as int));
            }
        }
        output.append("\n");
        proof {
            assert(output@ =~= block_base + all_lines + "\n"@);
        }
        measure_offset = measure_offset + line_measures;
    }
    output
}

} // verus!
