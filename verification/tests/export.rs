use tab_engine::export::ascii::{self, GridNote};
use tab_engine::export::musicxml::{self, NoteType, XmlNote};
use tab_engine::export::{parse_export_format, ExportFormat};
use tab_engine::{Technique, Tuning};

// The sheets of these tests are at 120 bpm (half a second per beat).  A note
// with onset 0.0 s starts at column 0; a note lasting 0.5 s is one beat long,
// that is 4 divisions and a quarter note, and a sheet whose last note ends at
// 0.5 s spans 1 beat.

fn grid_note(string: u8, fret: u8, char_pos: usize) -> GridNote {
    GridNote { string, fret, char_pos, technique: None }
}

fn slide_note(string: u8, fret: u8, char_pos: usize) -> GridNote {
    GridNote { string, fret, char_pos, technique: Some(Technique::Slide) }
}

#[test]
fn empty_sheet_returns_placeholder() {
    assert_eq!(ascii::export(&[], Tuning::Standard4, 0), "(empty tab)");
}

#[test]
fn single_note_renders() {
    let result = ascii::export(&[grid_note(0, 5, 0)], Tuning::Standard4, 1);
    assert!(result.contains("G|"));
    assert!(result.contains("E|"));
    let e_line = result.lines().find(|l| l.starts_with("E|")).unwrap();
    assert!(e_line.contains('5'));
}

#[test]
fn two_digit_fret_renders() {
    let result = ascii::export(&[grid_note(0, 12, 0)], Tuning::Standard4, 1);
    let e_line = result.lines().find(|l| l.starts_with("E|")).unwrap();
    assert!(e_line.contains("12"));
}

#[test]
fn ascii_exact_single_measure() {
    let result = ascii::export(&[grid_note(0, 5, 0), grid_note(2, 7, 8)], Tuning::Standard4, 3);
    assert_eq!(
        result,
        "G|----------------|\nD|--------7-------|\nA|----------------|\nE|5---------------|\n\n"
    );
}

#[test]
fn ascii_bars_and_line_breaks() {
    // 17 beats: 5 measures, four on the first line and one on the second.
    let result = ascii::export(&[grid_note(1, 3, 16), grid_note(3, 10, 64)], Tuning::Standard4, 17);
    let lines: Vec<&str> = result.lines().collect();
    assert_eq!(lines.len(), 10);
    let dash16 = "-".repeat(16);
    assert_eq!(
        lines[2],
        format!("A|{}|3{}|{}|{}|", dash16, "-".repeat(15), dash16, dash16)
    );
    assert_eq!(lines[4], "");
    assert_eq!(lines[5], format!("G|10{}|", "-".repeat(14)));
    assert_eq!(lines[9], "");
}

#[test]
fn slide_renders_with_slash() {
    // E5 on beat 0, then a slide to E7 on beat 1: the marker stands just
    // before the 7.
    let result = ascii::export(&[grid_note(0, 5, 0), slide_note(0, 7, 4)], Tuning::Standard4, 2);
    let e_line = result.lines().find(|l| l.starts_with("E|")).unwrap();
    assert_eq!(e_line, "E|5--/7-----------|");
    assert_eq!(
        result,
        "G|----------------|\nD|----------------|\nA|----------------|\nE|5--/7-----------|\n\n"
    );
}

#[test]
fn slide_marker_edges() {
    // A slide at the first column has no room for a marker, a marker is cut
    // with the fret number at the last column, a marker overwrites an earlier
    // digit and a later digit overwrites a marker.
    let result = ascii::export(
        &[
            slide_note(1, 3, 0),
            grid_note(0, 10, 4),
            slide_note(0, 2, 6),
            slide_note(2, 12, 15),
            grid_note(3, 5, 2),
            slide_note(3, 7, 3),
            slide_note(3, 4, 11),
            grid_note(3, 9, 10),
        ],
        Tuning::Standard4,
        4,
    );
    let lines: Vec<&str> = result.lines().collect();
    assert_eq!(lines[0], "G|--/7------94----|");
    assert_eq!(lines[1], "D|--------------/1|");
    assert_eq!(lines[2], "A|3---------------|");
    assert_eq!(lines[3], "E|----1/2---------|");
}

#[test]
fn ascii_later_note_overwrites_and_clips() {
    // The second note overwrites the first; a fret number running past the
    // last column is cut.
    let result = ascii::export(
        &[grid_note(0, 12, 0), grid_note(0, 3, 1), grid_note(0, 24, 15), grid_note(0, 9, 16)],
        Tuning::Standard4,
        4,
    );
    let e_line = result.lines().find(|l| l.starts_with("E|")).unwrap();
    assert_eq!(e_line, "E|13-------------2|");
}

fn xml_note(string: u8, fret: u8, measure: u32, divisions: u32, note_type: NoteType) -> XmlNote {
    XmlNote { string, fret, measure, divisions, note_type }
}

#[test]
fn empty_sheet_produces_valid_xml() {
    let xml = musicxml::export(&[], (4, 4), Tuning::Standard4);
    assert!(xml.contains("score-partwise"));
    assert!(xml.contains("<rest/>"));
    assert!(xml.contains("Bass Guitar"));
}

#[test]
fn single_note_produces_tab_notation() {
    let xml = musicxml::export(&[xml_note(0, 5, 0, 4, NoteType::Quarter)], (4, 4), Tuning::Standard4);
    assert!(xml.contains("<string>1</string>"));
    assert!(xml.contains("<fret>5</fret>"));
    assert!(xml.contains("<sign>TAB</sign>"));
}

#[test]
fn xml_starts_with_declaration() {
    let xml = musicxml::export(&[], (4, 4), Tuning::Standard4);
    assert!(xml.starts_with("<?xml"));
}

#[test]
fn xml_note_pitch_and_duration() {
    // String 1 (A) fret 1 is A#1: written as A with a sharp, octave 1.
    let xml = musicxml::export(&[xml_note(1, 1, 0, 0, NoteType::Sixteenth)], (3, 4), Tuning::Standard4);
    assert!(xml.contains(
        "        <pitch>\n          <step>A</step>\n          <alter>1</alter>\n          <octave>1</octave>\n        </pitch>\n"
    ));
    assert!(xml.contains("<duration>1</duration>"));
    assert!(xml.contains("<type>16th</type>"));
    assert!(xml.contains("<time><beats>3</beats><beat-type>4</beat-type></time>"));
    assert!(xml.ends_with("  </part>\n</score-partwise>\n"));
}

#[test]
fn xml_measures_include_empty_ones() {
    let notes = [
        xml_note(0, 3, 0, 4, NoteType::Quarter),
        xml_note(0, 5, 2, 16, NoteType::Whole),
    ];
    let xml = musicxml::export(&notes, (4, 4), Tuning::Standard4);
    assert!(xml.contains("<measure number=\"1\">"));
    assert!(xml.contains("    <measure number=\"2\">\n    </measure>\n"));
    assert!(xml.contains("<measure number=\"3\">"));
    assert!(!xml.contains("<measure number=\"4\">"));
    assert_eq!(xml.matches("<attributes>").count(), 1);
}

#[test]
fn write_pitch_for_tab_on_open_strings() {
    let mut xml = String::new();
    musicxml::write_pitch_for_tab(&mut xml, 0, 0, &Tuning::Standard4);
    assert_eq!(xml, "        <pitch>\n          <step>E</step>\n          <octave>1</octave>\n        </pitch>\n");
    let mut xml = String::new();
    musicxml::write_pitch_for_tab(&mut xml, 3, 24, &Tuning::Standard4);
    assert!(xml.contains("<step>G</step>") && xml.contains("<octave>4</octave>"));
}

#[test]
fn write_attributes_text() {
    let mut xml = String::from("x");
    musicxml::write_attributes(&mut xml, (7, 8), &Tuning::Standard4);
    assert_eq!(
        xml,
        "x      <attributes>\n        <divisions>4</divisions>\n        <time><beats>7</beats><beat-type>8</beat-type></time>\n        <clef><sign>TAB</sign><line>4</line></clef>\n        <staff-details><staff-lines>4</staff-lines></staff-details>\n      </attributes>\n"
    );
}

#[test]
fn export_formats() {
    assert_eq!(parse_export_format(&"ascii".to_string()), Ok(ExportFormat::Ascii));
    assert_eq!(parse_export_format(&"musicxml".to_string()), Ok(ExportFormat::MusicXml));
    assert_eq!(parse_export_format(&"pdf".to_string()), Err("Unknown format: pdf".to_string()));
}
