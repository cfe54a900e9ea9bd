use kuluu::macro_editor::{MacroEditorState, MACRO_EDITOR_COLUMNS};
use kuluu::macro_exec::{macro_exists, MacroSequencer};
use kuluu::macro_input::{
    commit_line, fire_slot, handle_line_edit_key, handle_macro_editor_key, line_cap, load_line,
    macro_editor_click_system, push_draft, start_editing, step_page, step_slot_in_row, EditorAction,
    EditorClick, KeyPress, KeyText, MACRO_LINE_MAX_CHARS,
};
use kuluu::macro_palette::SLOT_LABEL_MAX_CHARS;
use kuluu::macro_store::MacroBooks;
use kuluu::macros::{ActiveMacroPage, MACRO_PAGES};

#[test]
fn step_slot_in_row_wraps_horizontally() {
    assert_eq!(
        step_slot_in_row(0, -1),
        9,
        "left of col 0 wraps to col 9 in the same row"
    );
    assert_eq!(
        step_slot_in_row(9, 1),
        0,
        "right of col 9 wraps to col 0 in the same row"
    );
    assert_eq!(
        step_slot_in_row(10, -1),
        19,
        "alt row left of col 0 wraps to col 9"
    );
    assert_eq!(
        step_slot_in_row(19, 1),
        10,
        "alt row right of col 9 wraps to col 0"
    );
}

#[test]
fn step_slot_in_row_stays_in_bounds() {
    for slot in 0..20 {
        for dx in [1, -1] {
            let next = step_slot_in_row(slot, dx);
            assert!(next < 20, "{slot} {dx} -> {next}");
            assert_eq!(
                next / MACRO_EDITOR_COLUMNS,
                slot / MACRO_EDITOR_COLUMNS,
                "{slot} {dx} left the row"
            );
        }
    }
}

#[test]
fn step_page_wraps_vertically() {
    assert_eq!(step_page(0, -1), MACRO_PAGES - 1, "page 1 up wraps to 10");
    assert_eq!(step_page(MACRO_PAGES - 1, 1), 0, "page 10 down wraps to 1");
    assert_eq!(step_page(0, 1), 1);
    assert_eq!(step_page(MACRO_PAGES - 1, -1), MACRO_PAGES - 2);
}

#[test]
fn name_line_caps_at_palette_label_width() {
    assert_eq!(line_cap(0), SLOT_LABEL_MAX_CHARS);
}

#[test]
fn body_lines_keep_full_length() {
    assert_eq!(line_cap(5), MACRO_LINE_MAX_CHARS);
}

#[test]
fn push_draft_on_name_line_stops_short() {
    let mut editor = MacroEditorState {
        line: 0,
        ..Default::default()
    };
    for _ in 0..(SLOT_LABEL_MAX_CHARS + 4) {
        push_draft(&mut editor, 'x');
    }
    assert_eq!(editor.draft.chars().count(), SLOT_LABEL_MAX_CHARS);
}

#[test]
fn steps_undo_each_other() {
    for slot in 0..20 {
        for dx in [-13, -1, 0, 4, 25] {
            assert_eq!(step_slot_in_row(step_slot_in_row(slot, dx), -dx), slot);
        }
    }
    for page in 0..10 {
        assert_eq!(step_page(step_page(page, -7), 7), page);
    }
}

fn no_key() -> KeyPress {
    KeyPress {
        nav_cancel: false,
        nav_left: false,
        nav_right: false,
        nav_up: false,
        nav_down: false,
        nav_confirm: false,
        chat_submit: false,
        chat_backspace: false,
        chat_exit: false,
        tab: false,
        text: KeyText::Nothing,
    }
}

struct Screen {
    editor: MacroEditorState,
    books: MacroBooks,
    sequencer: MacroSequencer,
    active: ActiveMacroPage,
}

fn screen() -> Screen {
    Screen {
        editor: MacroEditorState::default(),
        books: MacroBooks::default(),
        sequencer: MacroSequencer::default(),
        active: ActiveMacroPage::default(),
    }
}

impl Screen {
    fn press(&mut self, key: KeyPress) -> (EditorAction, Option<String>) {
        handle_macro_editor_key(
            &key,
            3,
            4,
            Some(7),
            &mut self.editor,
            &mut self.books,
            &mut self.sequencer,
            &mut self.active,
            &[None; 6],
        )
    }

    fn line(&self, slot: usize, line: usize) -> &str {
        &self.books.get("7").unwrap().books[3].pages[4].macros[slot].lines[line]
    }
}

fn typing(text: &str) -> KeyPress {
    KeyPress { text: KeyText::Characters(text.to_string()), ..no_key() }
}

#[test]
fn keys_move_between_slots_and_pages() {
    let mut s = screen();
    assert_eq!(s.press(KeyPress { nav_right: true, ..no_key() }).0, EditorAction::Stay);
    assert_eq!(s.editor.slot, 1);
    s.press(KeyPress { nav_left: true, ..no_key() });
    s.press(KeyPress { nav_left: true, ..no_key() });
    assert_eq!(s.editor.slot, 9);
    assert_eq!(s.active, ActiveMacroPage { book: 3, page: 4 });
    assert_eq!(s.press(KeyPress { nav_down: true, ..no_key() }).0, EditorAction::TurnPage(5));
    assert_eq!(s.active, ActiveMacroPage { book: 3, page: 5 });
    assert_eq!(s.press(KeyPress { nav_up: true, ..no_key() }).0, EditorAction::TurnPage(3));
    assert_eq!(s.press(typing("x")), (EditorAction::Stay, None));
    assert_eq!(s.press(KeyPress { nav_cancel: true, ..no_key() }).0, EditorAction::Close);
    assert_eq!(s.editor.slot, 0);
    assert!(s.books.get("7").is_none());
}

#[test]
fn what_is_typed_is_stored_on_leaving() {
    let mut s = screen();
    s.press(KeyPress { tab: true, ..no_key() });
    assert!(s.editor.editing);
    s.press(typing("Heal\u{2192}"));
    s.press(KeyPress { text: KeyText::Space, ..no_key() });
    s.press(typing("me"));
    assert_eq!(s.editor.draft, "Heal me");
    s.press(KeyPress { chat_backspace: true, ..no_key() });
    assert_eq!(s.editor.draft, "Heal m");
    s.press(KeyPress { nav_confirm: true, ..no_key() });
    assert_eq!(s.line(0, 0), "Heal m");
    assert_eq!((s.editor.line, s.editor.draft.as_str()), (1, ""));
    s.press(typing("/heal"));
    s.press(KeyPress { nav_up: true, ..no_key() });
    assert_eq!((s.editor.line, s.editor.draft.as_str()), (0, "Heal m"));
    s.press(KeyPress { nav_down: true, ..no_key() });
    assert_eq!((s.editor.line, s.editor.draft.as_str()), (1, "/heal"));
    s.press(KeyPress { chat_exit: true, ..no_key() });
    assert!(!s.editor.editing);
    assert_eq!(s.editor.draft, "");
    assert_eq!(s.line(0, 1), "/heal");
    assert_eq!(s.line(1, 1), "");
}

#[test]
fn lines_wrap_around() {
    let mut s = screen();
    s.press(KeyPress { tab: true, ..no_key() });
    s.press(KeyPress { nav_up: true, ..no_key() });
    assert_eq!(s.editor.line, 5);
    s.press(KeyPress { chat_submit: true, ..no_key() });
    assert_eq!(s.editor.line, 0);
    s.press(KeyPress { chat_backspace: true, ..no_key() });
    assert_eq!(s.editor.draft, "");
}

#[test]
fn typing_stops_at_the_cap() {
    let mut books = MacroBooks::default();
    let mut editor = MacroEditorState { editing: true, line: 1, ..Default::default() };
    handle_line_edit_key(&typing(&"y".repeat(300)), 0, 0, None, &mut editor, &mut books);
    assert_eq!(editor.draft.len(), MACRO_LINE_MAX_CHARS);
    assert!(books.map.is_empty());
}

#[test]
fn confirming_fires_the_slot_in_focus() {
    let mut s = screen();
    let (action, message) = s.press(KeyPress { nav_confirm: true, ..no_key() });
    assert_eq!((action, message.as_deref()), (EditorAction::Stay, Some("[macro] empty slot")));
    assert!(!s.sequencer.is_busy());
    s.books.get_or_default_mut("7").books[3].pages[4].macros[2].lines[0] = "hi".to_string();
    s.editor.slot = 2;
    let (_, message) = s.press(KeyPress { chat_submit: true, ..no_key() });
    assert_eq!(message.as_deref(), Some("[macro] fired slot 3"));
    assert_eq!(s.sequencer.active_slot, Some(2));
    let out = fire_slot(99, 0, 0, Some(7), &mut s.books, &mut s.sequencer, &[None; 6]);
    assert!(out.is_none());
    let out = fire_slot(0, 0, 20, Some(7), &mut s.books, &mut s.sequencer, &[None; 6]);
    assert!(out.is_none());
}

#[test]
fn storing_and_loading_are_inverse() {
    let mut books = MacroBooks::default();
    let mut editor =
        MacroEditorState { slot: 6, line: 2, draft: "/ja".to_string(), editing: true };
    commit_line(1, 2, &editor, &mut books, Some(9));
    editor.draft = String::new();
    load_line(1, 2, &mut editor, &mut books, Some(9));
    assert_eq!(editor.draft, "/ja");
    load_line(50, 2, &mut editor, &mut books, Some(9));
    assert_eq!(editor.draft, "");
    commit_line(50, 2, &editor, &mut books, Some(9));
    start_editing(1, 2, &mut editor, &mut books, Some(9));
    assert_eq!((editor.line, editor.draft.as_str()), (0, ""));
    assert_eq!(books.get("9").unwrap().books[1].pages[2].macros[6].lines[2], "/ja");
}

fn click(slot_cell: Option<usize>, line_row: Option<usize>) -> EditorClick {
    EditorClick { primary: true, slot_cell, line_row }
}

#[test]
fn clicks_open_slots_and_lines() {
    let mut books = MacroBooks::default();
    let mut editor = MacroEditorState { slot: 12, ..Default::default() };
    let other = EditorClick { primary: false, slot_cell: Some(1), line_row: None };
    let clicks = vec![other, click(None, None), click(Some(4), None), click(Some(7), None)];
    let taken =
        macro_editor_click_system(&clicks, Some((0, 0)), Some(7), &mut editor, &mut books);
    assert_eq!(taken, 3, "the click behind the first hit waits");
    assert_eq!((editor.slot, editor.line, editor.editing), (14, 0, true));
    editor.draft = "Name".to_string();
    let clicks = vec![click(None, Some(3))];
    macro_editor_click_system(&clicks, Some((0, 0)), Some(7), &mut editor, &mut books);
    assert_eq!((editor.slot, editor.line, editor.editing), (14, 3, true));
    assert_eq!(books.get("7").unwrap().books[0].pages[0].macros[14].lines[0], "Name");
}

#[test]
fn clicks_elsewhere_change_nothing() {
    let mut books = MacroBooks::default();
    let mut editor = MacroEditorState { slot: 12, ..Default::default() };
    let one = vec![click(Some(4), None)];
    let taken = macro_editor_click_system(&one, None, Some(7), &mut editor, &mut books);
    assert_eq!(taken, 0, "a closed editor takes no click");
    let missed = vec![click(None, None), click(None, None)];
    let taken = macro_editor_click_system(&missed, Some((0, 0)), Some(7), &mut editor, &mut books);
    assert_eq!(taken, 2);
    let beyond = vec![click(Some(10), None)];
    macro_editor_click_system(&beyond, Some((0, 0)), Some(7), &mut editor, &mut books);
    assert_eq!((editor.slot, editor.editing), (12, false));
    assert!(books.map.is_empty());
}

#[test]
fn a_line_without_a_macro_is_left_alone() {
    let mut books = MacroBooks::default();
    let editor =
        MacroEditorState { slot: 25, line: 99, draft: "x".to_string(), editing: true };
    commit_line(0, 0, &editor, &mut books, Some(9));
    assert!(books.get("9").unwrap().books.iter().all(|b| {
        b.pages.iter().all(|p| p.macros.iter().all(|m| m.is_empty()))
    }));
    assert!(!macro_exists(&books, Some(9), 0, 0, 25));
    assert!(macro_exists(&books, Some(9), 39, 9, 19));
    assert!(macro_exists(&books, Some(10), 39, 9, 19));
    assert!(!macro_exists(&books, Some(10), 40, 0, 0));
}
