use byo_tools::view::{process_table_header, selection_style, Shade, TextStyle};

#[test]
fn test_selection_style() {
    let style = selection_style();
    assert!(style.bold);
}

#[test]
fn selection_style_is_white_on_dark_gray() {
    assert_eq!(
        selection_style(),
        TextStyle { fg: Some(Shade::White), bg: Some(Shade::DarkGray), bold: true }
    );
}

#[test]
fn test_process_table_header() {
    let header = process_table_header();
    assert_eq!(header.labels, vec!["PID", "NAME", "CPU%", "MEM MiB"]);
    assert!(header.style.bold);
    assert_eq!(header.style.fg, None);
    assert_eq!(header.style.bg, None);
}
