use kuluu::macro_palette::{
    slot_label, update_macro_palette, MacroPaletteData, SLOT_LABEL_MAX_CHARS,
};

fn macro_lines(lines: [&str; 6]) -> [String; 6] {
    std::array::from_fn(|i| lines[i].into())
}

#[test]
fn empty_macro_has_no_label() {
    assert_eq!(slot_label(&macro_lines(["", "", "", "", "", ""])), "");
}

#[test]
fn label_is_first_non_blank_line() {
    let lines = macro_lines(["", "  /heal mp<me>", "bye", "", "", ""]);
    assert_eq!(slot_label(&lines), "/heal mp");
}

#[test]
fn label_truncates_at_max_chars() {
    let lines = macro_lines(["aaaaaaaaaaaaaaaaaaaa", "", "", "", "", ""]);
    let label = slot_label(&lines);
    assert_eq!(label.len(), SLOT_LABEL_MAX_CHARS);
}

#[test]
fn label_drops_non_ascii() {
    let lines = macro_lines(["/heal \u{2192} \u{00B7}", "", "", "", "", ""]);
    assert_eq!(slot_label(&lines), "/heal");
}

#[test]
fn hidden_when_header_empty() {
    assert!(!MacroPaletteData::default().visible());
}

#[test]
fn a_line_of_other_scripts_has_an_empty_label() {
    assert_eq!(slot_label(&macro_lines(["\u{2192}\u{2192}", "/heal", "", "", "", ""])), "");
    assert_eq!(slot_label(&macro_lines(["a\u{2192}b\u{2192}c", "", "", "", "", ""])), "abc");
}

#[test]
fn the_palette_shows_labels_and_the_running_macro() {
    let data = MacroPaletteData {
        header: "Book 1 / Page 1".to_string(),
        slots: vec!["a".to_string(), "b".to_string()],
        active: Some(1),
    };
    let view = update_macro_palette(&data, 3);
    assert!(view.visible);
    assert_eq!(view.header, "Book 1 / Page 1");
    let cells: Vec<(&str, bool)> =
        view.cells.iter().map(|c| (c.text.as_str(), c.highlighted)).collect();
    assert_eq!(cells, vec![("a", false), ("b", true), ("", false)]);
    assert!(!update_macro_palette(&MacroPaletteData::default(), 20).visible);
}
