//! Text exports of a tab sheet.

pub mod ascii;
pub mod musicxml;
pub mod pitch_names;

use vstd::prelude::*;

verus! {

/// The text formats a sheet can be exported to.
#[derive(Debug, Clone, Copy, PartialEq, Eq, Structural)]
pub enum ExportFormat {
    Ascii,
    MusicXml,
}

/// The format named by `name`, or the error for an unknown name.
pub open spec fn export_format_spec(name: Seq<char>) -> Result<ExportFormat, Seq<char>> {
    if name == "ascii"@ {
        Ok(ExportFormat::Ascii)
    } else if name == "musicxml"@ {
        Ok(ExportFormat::MusicXml)
    } else {
        Err("Unknown format: "@ + name)
    }
}

/// Reads an export format name: `ascii` or `musicxml`.
pub fn parse_export_format(name: &String) -> (r: Result<ExportFormat, String>)
    ensures
        match r {
            Ok(f) => export_format_spec(name@) == Ok::<ExportFormat, Seq<char>>(f),
            Err(e) => export_format_spec(name@) == Err::<ExportFormat, Seq<char>>(e@),
        },
{
    if *name == String::from_str("ascii") {
        Ok(ExportFormat::Ascii)
    } else if *name == String::from_str("musicxml") {
        Ok(ExportFormat::MusicXml)
    } else {
        let mut e = String::from_str("Unknown format: ");
        e.append(name.as_str());
        Err(e)
    }
}

} // verus!
