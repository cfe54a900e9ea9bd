use kuluu::macro_editor::{update_macro_editor, MacroEditorData, MacroEditorState};

fn texts(lines: [&str; 6]) -> [String; 6] {
    lines.map(|l| l.to_string())
}

#[test]
fn hidden_when_no_slots() {
    assert!(!MacroEditorData::default().visible());
}

#[test]
fn visible_when_slots_present() {
    let data = MacroEditorData {
        slot_labels: vec!["a".into()],
        ..Default::default()
    };
    assert!(data.visible());
}

fn page() -> MacroEditorData {
    MacroEditorData {
        book: 2,
        page: 9,
        slot_labels: (0..20).map(|i| format!("m{i}")).collect(),
        lines: (0..20).map(|i| texts([&format!("n{i}"), "x", "", "", "", "z"])).collect(),
        state: MacroEditorState::default(),
    }
}

#[test]
fn the_header_names_book_page_and_hotkey() {
    let mut data = page();
    let header = |d: &MacroEditorData| update_macro_editor(d, 10, 6).unwrap().header;
    assert_eq!(header(&data), "Book 3 / Page 10 - Ctrl macro 1");
    data.state.slot = 9;
    assert_eq!(header(&data), "Book 3 / Page 10 - Ctrl macro 0");
    data.state.slot = 14;
    assert_eq!(header(&data), "Book 3 / Page 10 - Alt macro 5");
}

#[test]
fn the_row_in_focus_is_shown() {
    let mut data = page();
    data.state.slot = 13;
    let view = update_macro_editor(&data, 10, 6).unwrap();
    assert_eq!(view.slots.len(), 10);
    assert_eq!(view.slots[0].text, "m10");
    assert_eq!(view.slots[9].text, "m19");
    let lit: Vec<usize> = (0..10).filter(|i| view.slots[*i].highlighted).collect();
    assert_eq!(lit, vec![3]);
    assert_eq!(view.lines[0].text, "n13");
    assert_eq!(view.lines[5].text, "z");
    assert!(view.lines.iter().all(|l| !l.highlighted));
}

#[test]
fn the_line_being_typed_has_a_caret() {
    let mut data = page();
    data.state = MacroEditorState { slot: 0, line: 1, draft: "/he".to_string(), editing: true };
    let view = update_macro_editor(&data, 10, 6).unwrap();
    assert_eq!(view.lines[1].text, "/he_");
    assert!(view.lines[1].highlighted);
    assert_eq!(view.lines[0].text, "n0");
    assert!(!view.lines[0].highlighted);
}

#[test]
fn a_closed_editor_is_not_drawn() {
    assert!(update_macro_editor(&MacroEditorData::default(), 10, 6).is_none());
}

#[test]
fn a_slot_beyond_the_page_shows_nothing() {
    let mut data = page();
    data.state.slot = 25;
    let view = update_macro_editor(&data, 10, 6).unwrap();
    assert!(view.slots.iter().all(|c| c.text.is_empty()));
    assert!(view.lines.iter().all(|c| c.text.is_empty()));
}

#[test]
fn resetting_drops_the_draft() {
    let mut state =
        MacroEditorState { slot: 7, line: 3, draft: "abc".to_string(), editing: true };
    let copy = state.snapshot();
    assert_eq!((copy.slot, copy.line, copy.draft.as_str(), copy.editing), (7, 3, "abc", true));
    state.reset();
    assert_eq!((state.slot, state.line, state.draft.as_str(), state.editing), (0, 0, "", false));
}
