use kuluu::macro_editor::{MacroEditorData, MacroEditorState};
use kuluu::macro_exec::{fire_macro, MacroSequencer};
use kuluu::macro_palette::MacroPaletteData;
use kuluu::macro_provider::{macro_editor_provider_system, macro_palette_provider_system};
use kuluu::macro_store::MacroBooks;
use kuluu::macros::ActiveMacroPage;

fn books() -> MacroBooks {
    let mut books = MacroBooks::default();
    let page = &mut books.get_or_default_mut("7").books[1].pages[2];
    page.macros[0].lines[0] = "Heal".to_string();
    page.macros[3].lines[2] = "\u{2192}".to_string();
    books
}

#[test]
fn the_palette_follows_the_active_page() {
    let mut books = books();
    let mut palette = MacroPaletteData::default();
    let sequencer = MacroSequencer::default();
    let page = ActiveMacroPage { book: 1, page: 2 };
    assert!(macro_palette_provider_system(Some(7), page, &mut books, &sequencer, &mut palette));
    assert_eq!(palette.header, "Book 2 / Page 3");
    assert_eq!(palette.slots.len(), 20);
    assert_eq!(palette.slots[0], "Heal");
    assert_eq!(palette.active, None);
    assert!(!macro_palette_provider_system(Some(7), page, &mut books, &sequencer, &mut palette));

    let far = ActiveMacroPage { book: 1, page: 10 };
    assert!(!macro_palette_provider_system(Some(7), far, &mut books, &sequencer, &mut palette));
    assert_eq!(palette.header, "Book 2 / Page 3");
    assert!(macro_palette_provider_system(None, page, &mut books, &sequencer, &mut palette));
    assert!(!palette.visible());
    assert!(!macro_palette_provider_system(None, page, &mut books, &sequencer, &mut palette));
}

#[test]
fn the_running_macro_is_highlighted_if_it_has_a_label() {
    let mut books = books();
    let mut palette = MacroPaletteData::default();
    let mut sequencer = MacroSequencer::default();
    let page = ActiveMacroPage { book: 1, page: 2 };
    fire_macro(0, 2, &books.get("7").unwrap().books[1], &[None; 6], &mut sequencer);
    macro_palette_provider_system(Some(7), page, &mut books, &sequencer, &mut palette);
    assert_eq!(palette.active, Some(0));
    fire_macro(3, 2, &books.get("7").unwrap().books[1], &[None; 6], &mut sequencer);
    macro_palette_provider_system(Some(7), page, &mut books, &sequencer, &mut palette);
    assert_eq!(sequencer.active_slot, Some(3));
    assert_eq!(palette.active, None);
}

#[test]
fn the_editor_shows_the_draft_over_the_stored_line() {
    let mut books = books();
    let mut data = MacroEditorData::default();
    let editor = MacroEditorState { slot: 0, line: 0, draft: "Cure".to_string(), editing: true };
    assert!(macro_editor_provider_system(Some((1, 2)), Some(7), &mut books, &editor, &mut data));
    assert_eq!((data.book, data.page), (1, 2));
    assert_eq!(data.slot_labels[0], "Heal");
    assert_eq!(data.lines[0][0], "Cure");
    assert_eq!(books.get("7").unwrap().books[1].pages[2].macros[0].lines[0], "Heal");
    assert!(!macro_editor_provider_system(Some((1, 2)), Some(7), &mut books, &editor, &mut data));
    let other = MacroEditorState { slot: 4, ..Default::default() };
    assert!(macro_editor_provider_system(Some((1, 2)), Some(7), &mut books, &other, &mut data));
    assert_eq!(data.lines[0][0], "Heal");
    assert_eq!(data.state.slot, 4);
}

#[test]
fn a_closed_editor_is_emptied_once() {
    let mut books = books();
    let mut data = MacroEditorData::default();
    let editor = MacroEditorState::default();
    macro_editor_provider_system(Some((1, 2)), Some(7), &mut books, &editor, &mut data);
    assert!(macro_editor_provider_system(None, Some(7), &mut books, &editor, &mut data));
    assert!(!data.visible());
    assert!(!macro_editor_provider_system(None, Some(7), &mut books, &editor, &mut data));
    macro_editor_provider_system(Some((1, 2)), Some(7), &mut books, &editor, &mut data);
    assert!(macro_editor_provider_system(Some((1, 2)), None, &mut books, &editor, &mut data));
    assert!(!data.visible());
    assert!(macro_editor_provider_system(Some((40, 2)), Some(7), &mut books, &editor, &mut data));
    assert!(!data.visible());
}
