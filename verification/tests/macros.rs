use kuluu::macros::{
    default_book_name, default_macro_book, default_page_name, slot_from_modifier_digit,
    ActiveMacroPage, Macro, MacroBook, MACRO_BOOKS, MACRO_LINES, MACRO_PAGES, MACROS_PER_PAGE,
};

fn lines(texts: [&str; 6]) -> Macro {
    Macro { lines: texts.map(|t| t.to_string()) }
}

#[test]
fn default_macro_is_empty() {
    let m = Macro::default();
    assert!(m.is_empty());
    assert!(m.first_active_line().is_none());
}

#[test]
fn first_active_line_finds_first_nonblank() {
    let m = Macro {
        lines: [
            "".into(),
            "  ".into(),
            "/heal".into(),
            "".into(),
            "".into(),
            "".into(),
        ],
    };
    assert_eq!(m.first_active_line(), Some("/heal"));
}

#[test]
fn slot_ctrl_digit_maps_to_0_through_9() {
    assert_eq!(slot_from_modifier_digit(true, false, 1), Some(0));
    assert_eq!(slot_from_modifier_digit(true, false, 5), Some(4));
    assert_eq!(slot_from_modifier_digit(true, false, 0), Some(9));
}

#[test]
fn slot_alt_digit_maps_to_10_through_19() {
    assert_eq!(slot_from_modifier_digit(false, true, 1), Some(10));
    assert_eq!(slot_from_modifier_digit(false, true, 5), Some(14));
    assert_eq!(slot_from_modifier_digit(false, true, 0), Some(19));
}

#[test]
fn slot_no_modifier_returns_none() {
    assert_eq!(slot_from_modifier_digit(false, false, 1), None);
}

#[test]
fn slot_invalid_digit_returns_none() {
    assert_eq!(slot_from_modifier_digit(true, false, 10), None);
}

#[test]
fn default_book_has_correct_names() {
    let book = default_macro_book(5);
    assert_eq!(book.name, "Book 6");
    for (i, page) in book.pages.iter().enumerate() {
        assert_eq!(page.name, default_page_name(i));
    }
    assert!(book.pages[0].macros[0].is_empty());
}

#[test]
fn ctrl_wins_over_alt_on_a_hotkey() {
    assert_eq!(slot_from_modifier_digit(true, true, 3), Some(2));
}

#[test]
fn every_slot_has_a_hotkey() {
    let mut seen = vec![false; MACROS_PER_PAGE];
    for alt in [false, true] {
        for digit in 0..10u8 {
            let slot = slot_from_modifier_digit(!alt, alt, digit).unwrap();
            assert!(!seen[slot]);
            seen[slot] = true;
        }
    }
    assert!(seen.iter().all(|s| *s));
}

#[test]
fn a_line_is_returned_as_it_was_typed() {
    assert_eq!(lines(["", "\t", "  /heal ", "x", "", ""]).first_active_line(), Some("  /heal "));
    assert!(lines(["", " ", "\u{3000}", "\u{a0}", "\n", "\t"]).is_empty());
    assert!(!lines(["", "", "", "", "", "."]).is_empty());
}

#[test]
fn names_count_from_one() {
    assert_eq!(default_book_name(0), "Book 1");
    assert_eq!(default_book_name(39), "Book 40");
    assert_eq!(default_page_name(9), "Page 10");
}

#[test]
fn a_named_book_is_blank() {
    let book = MacroBook::with_name("Healing".to_string());
    assert_eq!(book.name, "Healing");
    assert!(book.pages.iter().all(|p| p.name.is_empty() && p.macros.iter().all(|m| m.is_empty())));
    let unnamed = MacroBook::default();
    assert_eq!(unnamed.name, "");
}

#[test]
fn a_macro_is_found_by_page_and_slot() {
    let mut book = default_macro_book(0);
    book.pages[3].macros[17].lines[0] = "/attack".to_string();
    assert_eq!(book.macro_at(3, 17).unwrap().first_active_line(), Some("/attack"));
    assert!(book.macro_at(3, 16).unwrap().is_empty());
    assert!(book.macro_at(MACRO_PAGES, 0).is_none());
    assert!(book.macro_at(0, MACROS_PER_PAGE).is_none());
}

#[test]
fn the_first_page_of_the_first_book_is_active() {
    let page = ActiveMacroPage::default();
    assert_eq!((page.book, page.page), (0, 0));
    assert_eq!((MACRO_BOOKS, MACRO_LINES), (40, 6));
}
