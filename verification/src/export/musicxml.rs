//! MusicXML (partwise, tablature staff) export.

use vstd::prelude::*;
use crate::tab::{Tuning, open_pitches_spec};
use crate::text::{append_decimal, decimal};

verus! {

/// Written length of a note.
#[derive(Debug, Clone, Copy, PartialEq, Eq, Structural)]
pub enum NoteType {
    Whole,
    Half,
    Quarter,
    Eighth,
    Sixteenth,
}

/// A tab note as the MusicXML writer places it: fretboard position, the
/// measure it falls in (0-based, never decreasing along the sheet), its
/// length in quarter-beat divisions and its written type.
#[derive(Debug, Clone, Copy, PartialEq, Eq, Structural)]
pub struct XmlNote {
    pub string: u8,
    pub fret: u8,
    pub measure: u32,
    pub divisions: u32,
    pub note_type: NoteType,
}

/// The MusicXML name of a note type.
pub open spec fn note_type_name(t: NoteType) -> Seq<char> {
    match t {
        NoteType::Whole => "whole"@,
        NoteType::Half => "half"@,
        NoteType::Quarter => "quarter"@,
        NoteType::Eighth => "eighth"@,
        NoteType::Sixteenth => "16th"@,
    }
}

pub fn note_type_text(t: NoteType) -> (s: &'static str)
    ensures
        s@ == note_type_name(t),
{
    match t {
        NoteType::Whole => "whole",
        NoteType::Half => "half",
        NoteType::Quarter => "quarter",
        NoteType::Eighth => "eighth",
        NoteType::Sixteenth => "16th",
    }
}

/// Letter name of a pitch class (sharps are written on the letter below).
pub open spec fn step_name(pc: int) -> Seq<char> {
    if pc <= 1 {
        "C"@
    } else if pc <= 3 {
        "D"@
    } else if pc == 4 {
        "E"@
    } else if pc <= 6 {
        "F"@
    } else if pc <= 8 {
        "G"@
    } else if pc <= 10 {
        "A"@
    } else {
        "B"@
    }
}

/// Whether a pitch class is written with a sharp.
pub open spec fn is_sharp(pc: int) -> bool {
    pc == 1 || pc == 3 || pc == 6 || pc == 8 || pc == 10
}

/// The `<pitch>` element of a MIDI pitch.
pub open spec fn pitch_xml(midi: nat) -> Seq<char> {
    "        <pitch>\n"@ + "          <step>"@ + step_name((midi % 12) as int) + "</step>\n"@ + (if is_sharp(
        (midi % 12) as int,
    ) {
        "          <alter>1</alter>\n"@
    } else {
        Seq::empty()
    }) + "          <octave>"@ + decimal((midi / 12 - 1) as nat) + "</octave>\n"@ + "        </pitch>\n"@
}

/// The sounding pitch of a string and fret.
pub open spec fn fretted_pitch(string: u8, fret: u8, tuning: Tuning) -> nat {
    (open_pitches_spec(tuning)[string as int] + fret) as nat
}

fn step_text(pc: u8) -> (s: &'static str)
    requires
        pc < 12,
    ensures
        s@ == step_name(pc as int),
{
    if pc <= 1 {
        "C"
    } else if pc <= 3 {
        "D"
    } else if pc == 4 {
        "E"
    } else if pc <= 6 {
        "F"
    } else if pc <= 8 {
        "G"
    } else if pc <= 10 {
        "A"
    } else {
        "B"
    }
}

/// Writes the `<pitch>` element sounded by `string` and `fret`.
pub fn write_pitch_for_tab(xml: &mut String, string: u8, fret: u8, tuning: &Tuning)
    requires
        string < open_pitches_spec(*tuning).len(),
        open_pitches_spec(*tuning)[string as int] + fret <= 255,
    ensures
        final(xml)@ == old(xml)@ + pitch_xml(fretted_pitch(string, fret, *tuning)),
{
    let open_pitches = tuning.open_pitches();
    let midi = open_pitches[string as usize] + fret;
    let pc = midi % 12;
    assert(open_pitches@[string as int] >= 28);
    let octave = midi / 12 - 1;
    xml.append("        <pitch>\n");
    xml.append("          <step>");
    xml.append(step_text(pc));
    xml.append("</step>\n");
    if pc == 1 || pc == 3 || pc == 6 || pc == 8 || pc == 10 {
        xml.append("          <alter>1</alter>\n");
    }
    xml.append("          <octave>");
    append_decimal(xml, octave as u64);
    xml.append("</octave>\n");
    xml.append("        </pitch>\n");
}

/// Number of strings drawn on the tablature staff.
pub open spec fn staff_lines(tuning: Tuning) -> nat {
    match tuning {
        Tuning::Standard4 => 4,
    }
}

/// The `<attributes>` element: divisions, time signature, TAB clef and staff.
pub open spec fn attributes_xml(time_signature: (u8, u8), tuning: Tuning) -> Seq<char> {
    "      <attributes>\n"@ + "        <divisions>4</divisions>\n"@ + "        <time><beats>"@ + decimal(
        time_signature.0 as nat,
    ) + "</beats><beat-type>"@ + decimal(time_signature.1 as nat) + "</beat-type></time>\n"@
        + "        <clef><sign>TAB</sign><line>"@ + decimal(staff_lines(tuning))
        + "</line></clef>\n"@ + "        <staff-details><staff-lines>"@ + decimal(staff_lines(tuning))
        + "</staff-lines></staff-details>\n"@ + "      </attributes>\n"@
}

/// Writes the `<attributes>` element of the first measure.
pub fn write_attributes(xml: &mut String, time_signature: (u8, u8), tuning: &Tuning)
    ensures
        final(xml)@ == old(xml)@ + attributes_xml(time_signature, *tuning),
{
    let num_strings: u64 = match tuning {
        Tuning::Standard4 => 4,
    };
    xml.append("      <attributes>\n");
    xml.append("        <divisions>4</divisions>\n");
    xml.append("        <time><beats>");
    append_decimal(xml, time_signature.0 as u64);
    xml.append("</beats><beat-type>");
    append_decimal(xml, time_signature.1 as u64);
    xml.append("</beat-type></time>\n");
    xml.append("        <clef><sign>TAB</sign><line>");
    append_decimal(xml, num_strings);
    xml.append("</line></clef>\n");
    xml.append("        <staff-details><staff-lines>");
    append_decimal(xml, num_strings);
    xml.append("</staff-lines></staff-details>\n");
    xml.append("      </attributes>\n");
}

/// The `<note>` element of a tab note: pitch, duration (at least one
/// division), type, and the string (1-based) and fret.
pub open spec fn note_xml(note: XmlNote, tuning: Tuning) -> Seq<char> {
    "      <note>\n"@ + pitch_xml(fretted_pitch(note.string, note.fret, tuning))
        + "        <duration>"@ + decimal(
        if note.divisions >= 1 {
            note.divisions as nat
        } else {
            1
        },
    ) + "</duration>\n"@ + "        <type>"@ + note_type_name(note.note_type) + "</type>\n"@
        + "        <notations>\n"@ + "          <technical>\n"@ + "            <string>"@ + decimal(
        (note.string + 1) as nat,
    ) + "</string>\n"@ + "            <fret>"@ + decimal(note.fret as nat) + "</fret>\n"@
        + "          </technical>\n"@ + "        </notations>\n"@ + "      </note>\n"@
}

/// Whether a note can be written: it is on a string of the tuning and sounds
/// a MIDI pitch.
pub open spec fn writable(note: XmlNote, tuning: Tuning) -> bool {
    note.string < open_pitches_spec(tuning).len() && open_pitches_spec(tuning)[note.string as int]
        + note.fret <= 255
}

fn write_note(xml: &mut String, note: &XmlNote, tuning: &Tuning)
    requires
        writable(*note, *tuning),
    ensures
        final(xml)@ == old(xml)@ + note_xml(*note, *tuning),
{
    xml.append("      <note>\n");
    write_pitch_for_tab(xml, note.string, note.fret, tuning);
    xml.append("        <duration>");
    let divisions: u32 = if note.divisions >= 1 {
        note.divisions
    } else {
        1
    };
    append_decimal(xml, divisions as u64);
    xml.append("</duration>\n");
    xml.append("        <type>");
    xml.append(note_type_text(note.note_type));
    xml.append("</type>\n");
    xml.append("        <notations>\n");
    xml.append("          <technical>\n");
    xml.append("            <string>");
    append_decimal(xml, (note.string + 1) as u64);
    xml.append("</string>\n");
    xml.append("            <fret>");
    append_decimal(xml, note.fret as u64);
    xml.append("</fret>\n");
    xml.append("          </technical>\n");
    xml.append("        </notations>\n");
    xml.append("      </note>\n");
}

/// The `<note>` elements of the first `k` notes that fall in measure `m`.
pub open spec fn notes_in_measure(notes: Seq<XmlNote>, tuning: Tuning, m: int, k: int) -> Seq<char>
    decreases k,
{
    if k <= 0 {
        Seq::empty()
    } else {
        notes_in_measure(notes, tuning, m, k - 1) + (if notes[k - 1].measure == m {
            note_xml(notes[k - 1], tuning)
        } else {
            Seq::empty()
        })
    }
}

/// Measure `m` (0-based): its opening tag, the attributes in the first
/// measure, its notes, and its closing tag.
pub open spec fn measure_xml(notes: Seq<XmlNote>, time_signature: (u8, u8), tuning: Tuning, m: int) -> Seq<char> {
    "    <measure number=\""@ + decimal((m + 1) as nat) + "\">\n"@ + (if m == 0 {
        attributes_xml(time_signature, tuning)
    } else {
        Seq::empty()
    }) + notes_in_measure(notes, tuning, m, notes.len() as int) + "    </measure>\n"@
}

/// Measures `0..count`.
pub open spec fn measures_xml(notes: Seq<XmlNote>, time_signature: (u8, u8), tuning: Tuning, count: int) -> Seq<char>
    decreases count,
{
    if count <= 0 {
        Seq::empty()
    } else {
        measures_xml(notes, time_signature, tuning, count - 1) + measure_xml(
            notes,
            time_signature,
            tuning,
            count - 1,
        )
    }
}

/// The document head: XML declaration, doctype, score and part list, part opening.
pub open spec fn head_xml() -> Seq<char> {
    "<?xml version=\"1.0\" encoding=\"UTF-8\"?>"@ + "\n"@
        + "<!DOCTYPE score-partwise PUBLIC \"-//Recordare//DTD MusicXML 4.0 Partwise//EN\" \"http://www.musicxml.org/dtds/partwise.dtd\">"@
        + "\n"@ + "<score-partwise version=\"4.0\">"@ + "\n"@ + "  <part-list>\n"@
        + "    <score-part id=\"P1\">"@ + "\n"@ + "      <part-name>Bass Guitar</part-name>\n"@
        + "    </score-part>\n"@ + "  </part-list>\n"@ + "  <part id=\"P1\">"@ + "\n"@
}

/// The document tail.
pub open spec fn tail_xml() -> Seq<char> {
    "  </part>\n"@ + "</score-partwise>\n"@
}

/// The single measure of an empty sheet: attributes and a whole rest.
pub open spec fn rest_measure_xml(time_signature: (u8, u8), tuning: Tuning) -> Seq<char> {
    "    <measure number=\"1\">\n"@ + attributes_xml(time_signature, tuning)
        + "      <note><rest/><duration>4</duration><type>whole</type></note>\n"@ + "    </measure>\n"@
}

/// The whole MusicXML document of a sheet.
pub open spec fn musicxml_document(notes: Seq<XmlNote>, time_signature: (u8, u8), tuning: Tuning) -> Seq<char> {
    head_xml() + (if notes.len() == 0 {
        rest_measure_xml(time_signature, tuning)
    } else {
        measures_xml(notes, time_signature, tuning, notes[notes.len() - 1].measure + 1)
    }) + tail_xml()
}

/// Whether a note list can be written: every note writable, measures never
/// decreasing, and measure numbers within the writer's counter.
pub open spec fn sheet_writable(notes: Seq<XmlNote>, tuning: Tuning) -> bool {
    &&& forall|i: int| 0 <= i < notes.len() ==> writable(#[trigger] notes[i], tuning)
    &&& forall|i: int, j: int| 0 <= i <= j < notes.len() ==> notes[i].measure <= notes[j].measure
    &&& forall|i: int| 0 <= i < notes.len() ==> (#[trigger] notes[i]).measure < 0x7fff_ffff
}

proof fn lemma_notes_in_measure_skip(notes: Seq<XmlNote>, tuning: Tuning, m: int, k1: int, k2: int)
    requires
        0 <= k1 <= k2 <= notes.len(),
        forall|i: int| k1 <= i < k2 ==> (#[trigger] notes[i]).measure != m,
    ensures
        notes_in_measure(notes, tuning, m, k2) == notes_in_measure(notes, tuning, m, k1),
    decreases k2 - k1,
{
    if k2 > k1 {
        lemma_notes_in_measure_skip(notes, tuning, m, k1, k2 - 1);
        assert(notes_in_measure(notes, tuning, m, k2) =~= notes_in_measure(notes, tuning, m, k2 - 1));
    }
}

/// Writes a tab sheet as a MusicXML partwise score with one tablature part.
pub fn export(notes: &[XmlNote], time_signature: (u8, u8), tuning: Tuning) -> (xml: String)
    requires
        sheet_writable(notes@, tuning),
    ensures
        xml@ == musicxml_document(notes@, time_signature, tuning),
{
    let mut xml = String::new();
    xml.append("<?xml version=\"1.0\" encoding=\"UTF-8\"?>");
    xml.append("\n");
    xml.append("<!DOCTYPE score-partwise PUBLIC \"-//Recordare//DTD MusicXML 4.0 Partwise//EN\" \"http://www.musicxml.org/dtds/partwise.dtd\">");
    xml.append("\n");
    xml.append("<score-partwise version=\"4.0\">");
    xml.append("\n");
    xml.append("  <part-list>\n");
    xml.append("    <score-part id=\"P1\">");
    xml.append("\n");
    xml.append("      <part-name>Bass Guitar</part-name>\n");
    xml.append("    </score-part>\n");
    xml.append("  </part-list>\n");
    xml.append("  <part id=\"P1\">");
    xml.append("\n");
    assert(xml@ =~= head_xml());
    let n = notes.len();
    if n == 0 {
        xml.append("    <measure number=\"1\">\n");
        write_attributes(&mut xml, time_signature, &tuning);
        xml.append("      <note><rest/><duration>4</duration><type>whole</type></note>\n");
        xml.append("    </measure>\n");
        assert(xml@ =~= head_xml() + rest_measure_xml(time_signature, tuning));
    } else {
        let ghost ns = notes@;
        let mut measure: u32 = 0;
        let mut note_idx: usize = 0;
        while note_idx < n
            invariant
                n == notes.len(),
                ns == notes@,
                n > 0,
                sheet_writable(ns, tuning),
                note_idx <= n,
                note_idx < n ==> measure <= ns[note_idx as int].measure,
                note_idx == n ==> measure == ns[n - 1].measure + 1,
                forall|i: int| 0 <= i < note_idx ==> (#[trigger] ns[i]).measure < measure,
                xml@ == head_xml() + measures_xml(ns, time_signature, tuning, measure as int),
            decreases ns[n - 1].measure + 1 - measure,
        {
            let ghost before = xml@;
            xml.append("    <measure number=\"");
            append_decimal(&mut xml, (measure + 1) as u64);
            xml.append("\">\n");
            if measure == 0 {
                write_attributes(&mut xml, time_signature, &tuning);
            }
            let ghost opened = xml@;
            let ghost first = note_idx;
            proof {
                lemma_notes_in_measure_skip(ns, tuning, measure as int, 0, note_idx as int);
                assert(notes_in_measure(ns, tuning, measure as int, 0) =~= Seq::<char>::empty());
            }
            while note_idx < n && notes[note_idx].measure == measure
                invariant
                    n == notes.len(),
                    ns == notes@,
                    sheet_writable(ns, tuning),
                    first <= note_idx <= n,
                    forall|i: int| 0 <= i < first ==> (#[trigger] ns[i]).measure < measure,
                    forall|i: int| first <= i < note_idx ==> (#[trigger] ns[i]).measure == measure,
                    xml@ == opened + notes_in_measure(ns, tuning, measure as int, note_idx as int),
                decreases n - note_idx,
            {
                write_note(&mut xml, &notes[note_idx], &tuning);
                note_idx = note_idx + 1;
            }
            proof {
                if note_idx < n {
                    assert forall|i: int| note_idx <= i < n implies (#[trigger] ns[i]).measure != measure by {
                        assert(ns[note_idx as int].measure <= ns[i].measure);
                    }
                }
                lemma_notes_in_measure_skip(ns, tuning, measure as int, note_idx as int, n as int);
                if note_idx == n {
                    assert(ns[n - 1].measure == measure);
                }
            }
            xml.append("    </measure>\n");
            proof {
                assert(xml@ =~= before + measure_xml(ns, time_signature, tuning, measure as int));
            }
            measure = measure + 1;
        }
    }
    let ghost body = xml@;
    xml.append("  </part>\n");
    xml.append("</score-partwise>\n");
    assert(xml@ =~= body + tail_xml());
    xml
}

} // verus!
