//! What the process table looks like, as plain values: the header labels
//! and the styles. A terminal library turns these into its own types.

use vstd::prelude::*;

verus! {

/// A colour of the process table.
#[derive(Clone, Copy, Debug, PartialEq, Eq, Structural)]
pub enum Shade {
    DarkGray,
    White,
}

/// A text style: foreground and background colours, and boldness.
#[derive(Clone, Copy, Debug, PartialEq, Eq, Structural)]
pub struct TextStyle {
    pub fg: Option<Shade>,
    pub bg: Option<Shade>,
    pub bold: bool,
}

/// The header of the process table: its column labels and its style.
pub struct TableHeader {
    pub labels: Vec<&'static str>,
    pub style: TextStyle,
}

/// The style of the selected row: white on dark gray, bold.
pub fn selection_style() -> (r: TextStyle)
    ensures
        r == (TextStyle { fg: Some(Shade::White), bg: Some(Shade::DarkGray), bold: true }),
{
    TextStyle { fg: Some(Shade::White), bg: Some(Shade::DarkGray), bold: true }
}

/// The column headers of the process table, in bold: PID, name, CPU
/// percentage, memory in MiB.
pub fn process_table_header() -> (r: TableHeader)
    ensures
        r.labels@.len() == 4,
        r.labels@[0]@ == "PID"@,
        r.labels@[1]@ == "NAME"@,
        r.labels@[2]@ == "CPU%"@,
        r.labels@[3]@ == "MEM MiB"@,
        r.style == (TextStyle { fg: None, bg: None, bold: true }),
{
    let mut labels: Vec<&'static str> = Vec::new();
    labels.push("PID");
    labels.push("NAME");
    labels.push("CPU%");
    labels.push("MEM MiB");
    TableHeader { labels, style: TextStyle { fg: None, bg: None, bold: true } }
}

} // verus!
