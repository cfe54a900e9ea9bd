use kuluu::macro_store::{char_key, Books, MacroBooks};
use kuluu::macros::MACRO_BOOKS;

#[test]
fn char_key_some_uses_stringified_id() {
    assert_eq!(char_key(Some(42)), "42");
    assert_eq!(char_key(None), "default");
}

#[test]
fn default_books_have_full_retail_shape() {
    let books = Books::default();
    assert_eq!(books.books.len(), MACRO_BOOKS);
    assert_eq!(books.books[0].name, "Book 1");
    assert_eq!(books.books[39].name, "Book 40");
    assert!(books.books[0].pages[0].macros[0].is_empty());
}

#[test]
fn get_or_default_seeds_a_character() {
    let mut books = MacroBooks::default();
    assert_eq!(books.map.len(), 0);
    assert_eq!(books.get_or_default("7").books[0].name, "Book 1");
    assert_eq!(books.map.len(), 1);
    assert_eq!(books.get_or_default("7").books[0].name, "Book 1");
    assert_eq!(books.map.len(), 1);
}

#[test]
fn edits_stay_with_their_character() {
    let mut books = MacroBooks::default();
    books.get_or_default_mut("7").books[3].pages[4].macros[2].lines[0] = "/heal".to_string();
    books.get_or_default("8");
    assert_eq!(books.get("7").unwrap().books[3].pages[4].macros[2].lines[0], "/heal");
    assert_eq!(books.get("8").unwrap().books[3].pages[4].macros[2].lines[0], "");
    assert!(books.get("9").is_none());
}

#[test]
fn inserting_replaces_what_was_there() {
    let mut books = MacroBooks::default();
    books.get_or_default_mut("7").books[0].name = "old".to_string();
    let mut other = Books::default();
    other.books[0].name = "new".to_string();
    books.insert("7".to_string(), other);
    books.insert("8".to_string(), Books::default());
    assert_eq!(books.map.len(), 2);
    assert_eq!(books.get("7").unwrap().books[0].name, "new");
}

#[test]
fn characters_do_not_share_keys() {
    let mut keys: Vec<String> =
        [None, Some(0), Some(1), Some(10), Some(u32::MAX)].map(char_key).to_vec();
    keys.sort();
    keys.dedup();
    assert_eq!(keys.len(), 5);
    assert_eq!(char_key(Some(u32::MAX)), "4294967295");
}
