//! The macro books of every character.
use crate::macros::{default_macro_book, fresh_book, BookText, MacroBook, MACRO_BOOKS};
use crate::text::{decimal, decimal_text, same_text};
use vstd::prelude::*;

verus! {

/// The macro books of one character.
#[derive(Debug, Clone)]
pub struct Books {
    pub books: Vec<MacroBook>,
}

impl View for Books {
    type V = Seq<BookText>;

    open spec fn view(&self) -> Seq<BookText> {
        self.books@.map_values(|b: MacroBook| b@)
    }
}

/// The books of a character who has edited none.
pub open spec fn fresh_books() -> Seq<BookText> {
    Seq::new(MACRO_BOOKS as nat, |i: int| fresh_book(i as nat))
}

/// There are forty fresh books, each named by its place, counted from one.
pub proof fn there_are_forty_fresh_books(i: int)
    requires
        0 <= i < 40,
    ensures
        fresh_books().len() == 40,
        fresh_books()[i] == fresh_book(i as nat),
        fresh_books()[i].name == "Book "@ + decimal((i + 1) as nat),
{
}

impl Default for Books {
    fn default() -> (b: Books)
        ensures
            b@ == fresh_books(),
    {
        let mut books: Vec<MacroBook> = Vec::new();
        let mut i: usize = 0;
        while i < MACRO_BOOKS
            invariant
                i <= MACRO_BOOKS,
                books@.len() == i,
                forall|k: int| 0 <= k < i ==> (#[trigger] books@[k])@ == fresh_book(k as nat),
            decreases MACRO_BOOKS - i,
        {
            books.push(default_macro_book(i));
            i = i + 1;
        }
        let b = Books { books };
        assert(b@ =~= fresh_books());
        b
    }
}

/// The macro books by character: under the character's key, each key once.
#[derive(Debug, Clone)]
pub struct MacroBooks {
    pub map: Vec<(String, Books)>,
}

/// The books by key. Of two entries under one key the later one counts.
pub open spec fn by_key(entries: Seq<(String, Books)>) -> Map<Seq<char>, Seq<BookText>>
    decreases entries.len(),
{
    if entries.len() == 0 {
        Map::empty()
    } else {
        by_key(entries.drop_last()).insert(entries.last().0@, entries.last().1@)
    }
}

/// No two entries have the same key.
pub open spec fn keys_differ(entries: Seq<(String, Books)>) -> bool {
    forall|i: int, j: int|
        0 <= i < j < entries.len() ==> (#[trigger] entries[i]).0@ != (#[trigger] entries[j]).0@
}

proof fn lemma_key_at(entries: Seq<(String, Books)>, i: int)
    requires
        keys_differ(entries),
        0 <= i < entries.len(),
    ensures
        by_key(entries).contains_key(entries[i].0@),
        by_key(entries)[entries[i].0@] == entries[i].1@,
    decreases entries.len(),
{
    if i < entries.len() - 1 {
        let rest = entries.drop_last();
        assert forall|a: int, b: int| 0 <= a < b < rest.len() implies (#[trigger] rest[a]).0@ != (
        #[trigger] rest[b]).0@ by {
            assert(rest[a] == entries[a] && rest[b] == entries[b]);
        }
        lemma_key_at(rest, i);
        assert(rest[i] == entries[i]);
        assert(entries[i].0@ != entries[entries.len() - 1].0@);
    }
}

proof fn lemma_no_key(entries: Seq<(String, Books)>, key: Seq<char>)
    requires
        forall|i: int| 0 <= i < entries.len() ==> (#[trigger] entries[i]).0@ != key,
    ensures
        !by_key(entries).contains_key(key),
    decreases entries.len(),
{
    if entries.len() > 0 {
        let rest = entries.drop_last();
        assert forall|i: int| 0 <= i < rest.len() implies (#[trigger] rest[i]).0@ != key by {
            assert(rest[i] == entries[i]);
        }
        lemma_no_key(rest, key);
        assert(entries[entries.len() - 1].0@ != key);
    }
}

proof fn lemma_replaced(entries: Seq<(String, Books)>, i: int, books: Books)
    requires
        keys_differ(entries),
        0 <= i < entries.len(),
    ensures
        keys_differ(entries.update(i, (entries[i].0, books))),
        by_key(entries.update(i, (entries[i].0, books))) == by_key(entries).insert(
            entries[i].0@,
            books@,
        ),
    decreases entries.len(),
{
    let new = entries.update(i, (entries[i].0, books));
    let rest = entries.drop_last();
    assert forall|a: int, b: int| 0 <= a < b < new.len() implies (#[trigger] new[a]).0@ != (
    #[trigger] new[b]).0@ by {
        assert(new[a].0 == entries[a].0 && new[b].0 == entries[b].0);
    }
    if i < entries.len() - 1 {
        assert forall|a: int, b: int| 0 <= a < b < rest.len() implies (#[trigger] rest[a]).0@ != (
        #[trigger] rest[b]).0@ by {
            assert(rest[a] == entries[a] && rest[b] == entries[b]);
        }
        lemma_replaced(rest, i, books);
        assert(new.drop_last() =~= rest.update(i, (rest[i].0, books)));
        assert(entries[i].0@ != entries[entries.len() - 1].0@);
    } else {
        assert(new.drop_last() =~= rest);
    }
    assert(by_key(new) =~= by_key(entries).insert(entries[i].0@, books@));
}

proof fn lemma_appended(entries: Seq<(String, Books)>, entry: (String, Books))
    requires
        keys_differ(entries),
        forall|i: int| 0 <= i < entries.len() ==> (#[trigger] entries[i]).0@ != entry.0@,
    ensures
        keys_differ(entries.push(entry)),
        by_key(entries.push(entry)) == by_key(entries).insert(entry.0@, entry.1@),
{
    assert(entries.push(entry).drop_last() =~= entries);
}

/// Books are found under the key of their entry, and under no key without one.
pub proof fn entries_are_found_under_their_keys(
    entries: Seq<(String, Books)>,
    i: int,
    key: Seq<char>,
)
    requires
        keys_differ(entries),
    ensures
        0 <= i < entries.len() ==> by_key(entries).contains_key(entries[i].0@) && by_key(
            entries,
        )[entries[i].0@] == entries[i].1@,
        (forall|j: int| 0 <= j < entries.len() ==> (#[trigger] entries[j]).0@ != key)
            ==> !by_key(entries).contains_key(key),
{
    if 0 <= i < entries.len() {
        lemma_key_at(entries, i);
    }
    if forall|j: int| 0 <= j < entries.len() ==> (#[trigger] entries[j]).0@ != key {
        lemma_no_key(entries, key);
    }
}

impl View for MacroBooks {
    type V = Map<Seq<char>, Seq<BookText>>;

    open spec fn view(&self) -> Map<Seq<char>, Seq<BookText>> {
        by_key(self.map@)
    }
}

/// The books by key after a character has been looked up: one who had none is
/// given fresh ones.
pub open spec fn seeded(
    books: Map<Seq<char>, Seq<BookText>>,
    key: Seq<char>,
) -> Map<Seq<char>, Seq<BookText>> {
    if books.contains_key(key) {
        books
    } else {
        books.insert(key, fresh_books())
    }
}

impl Default for MacroBooks {
    fn default() -> (b: MacroBooks)
        ensures
            b.wf(),
            b@ == Map::<Seq<char>, Seq<BookText>>::empty(),
            b.map@.len() == 0,
    {
        MacroBooks { map: Vec::new() }
    }
}

impl MacroBooks {
    /// Every key is there once.
    pub open spec fn wf(&self) -> bool {
        keys_differ(self.map@)
    }

    fn place(&self, char_key: &str) -> (r: Option<usize>)
        ensures
            match r {
                Some(i) => i < self.map@.len() && self.map@[i as int].0@ == char_key@,
                None => forall|i: int|
                    0 <= i < self.map@.len() ==> (#[trigger] self.map@[i]).0@ != char_key@,
            },
    {
        let mut i: usize = 0;
        while i < self.map.len()
            invariant
                i <= self.map.len(),
                forall|j: int| 0 <= j < i ==> (#[trigger] self.map@[j]).0@ != char_key@,
            decreases self.map.len() - i,
        {
            if same_text(self.map[i].0.as_str(), char_key) {
                return Some(i);
            }
            i = i + 1;
        }
        None
    }

    /// Seeds the character's books where there are none, and returns their
    /// place.
    fn seed(&mut self, char_key: &str) -> (i: usize)
        requires
            old(self).wf(),
        ensures
            final(self).wf(),
            final(self)@ == seeded(old(self)@, char_key@),
            i < final(self).map@.len(),
            final(self).map@[i as int].0@ == char_key@,
            final(self).map@.len() == if old(self)@.contains_key(char_key@) {
                old(self).map@.len()
            } else {
                old(self).map@.len() + 1
            },
    {
        match self.place(char_key) {
            Some(i) => {
                proof {
                    lemma_key_at(self.map@, i as int);
                }
                i
            },
            None => {
                proof {
                    lemma_no_key(self.map@, char_key@);
                }
                let entry = (char_key.to_owned(), Books::default());
                proof {
                    lemma_appended(self.map@, entry);
                }
                self.map.push(entry);
                self.map.len() - 1
            },
        }
    }

    /// The books of a character, if there are any.
    pub fn get(&self, char_key: &str) -> (r: Option<&Books>)
        requires
            self.wf(),
        ensures
            match r {
                Some(b) => self@.contains_key(char_key@) && b@ == self@[char_key@],
                None => !self@.contains_key(char_key@),
            },
            match r {
                Some(b) => exists|i: int|
                    0 <= i < self.map@.len() && (#[trigger] self.map@[i]).0@ == char_key@ && *b
                        == self.map@[i].1,
                None => forall|i: int|
                    0 <= i < self.map@.len() ==> (#[trigger] self.map@[i]).0@ != char_key@,
            },
    {
        match self.place(char_key) {
            Some(i) => {
                proof {
                    lemma_key_at(self.map@, i as int);
                }
                Some(&self.map[i].1)
            },
            None => {
                proof {
                    lemma_no_key(self.map@, char_key@);
                }
                None
            },
        }
    }

    /// The books of a character. One who had none is given fresh ones.
    pub fn get_or_default(&mut self, char_key: &str) -> (r: &Books)
        requires
            old(self).wf(),
        ensures
            final(self).wf(),
            final(self)@ == seeded(old(self)@, char_key@),
            final(self).map@.len() == if old(self)@.contains_key(char_key@) {
                old(self).map@.len()
            } else {
                old(self).map@.len() + 1
            },
            r@ == seeded(old(self)@, char_key@)[char_key@],
    {
        let i: usize = self.seed(char_key);
        proof {
            lemma_key_at(self.map@, i as int);
        }
        &self.map[i].1
    }

    /// The books of a character, to be edited. One who had none is given fresh
    /// ones.
    pub fn get_or_default_mut(&mut self, char_key: &str) -> (r: &mut Books)
        requires
            old(self).wf(),
        ensures
            final(self).wf(),
            (*r)@ == seeded(old(self)@, char_key@)[char_key@],
            final(self)@ == seeded(old(self)@, char_key@).insert(char_key@, (*final(r))@),
            final(self).map@.len() == if old(self)@.contains_key(char_key@) {
                old(self).map@.len()
            } else {
                old(self).map@.len() + 1
            },
    {
        let i: usize = self.seed(char_key);
        proof {
            lemma_key_at(self.map@, i as int);
            let entries = self.map@;
            assert forall|b: Books|
                {
                    &&& keys_differ(#[trigger] entries.update(i as int, (entries[i as int].0, b)))
                    &&& by_key(entries.update(i as int, (entries[i as int].0, b))) == by_key(
                        entries,
                    ).insert(char_key@, b@)
                } by {
                lemma_replaced(entries, i as int, b);
            }
        }
        &mut self.map[i].1
    }

    /// Puts books under a key, in place of those that were there.
    pub fn insert(&mut self, char_key: String, books: Books)
        requires
            old(self).wf(),
        ensures
            final(self).wf(),
            final(self)@ == old(self)@.insert(char_key@, books@),
    {
        match self.place(char_key.as_str()) {
            Some(i) => {
                proof {
                    lemma_replaced(self.map@, i as int, books);
                }
                self.map[i].1 = books;
            },
            None => {
                proof {
                    lemma_appended(self.map@, (char_key, books));
                }
                self.map.push((char_key, books));
            },
        }
    }
}

/// The key of a character: its number, or a fixed word where there is none.
pub open spec fn key_of(self_char_id: Option<u32>) -> Seq<char> {
    match self_char_id {
        Some(id) => decimal(id as nat),
        None => "default"@,
    }
}

/// The key under which a character's books are kept.
pub fn char_key(self_char_id: Option<u32>) -> (s: String)
    ensures
        s@ == key_of(self_char_id),
{
    match self_char_id {
        Some(id) => decimal_text(id as u64),
        None => "default".to_owned(),
    }
}

/// The key of a character is its number in decimal digits, and without a
/// character it is the word for none.
pub proof fn keys_are_numerals(id: u32)
    ensures
        key_of(Some(id)) == decimal(id as nat),
        key_of(None) == "default"@,
{
}

/// No two characters share a key, and none has the key of no character.
pub proof fn characters_have_their_own_keys(a: Option<u32>, b: Option<u32>)
    requires
        key_of(a) == key_of(b),
    ensures
        a == b,
{
    reveal_strlit("default");
    if let Some(x) = a {
        crate::text::decimal_has_digits_only(x as nat);
        if let Some(y) = b {
            crate::text::decimal_is_injective(x as nat, y as nat);
        } else {
            assert(decimal(x as nat)[0] == 'd');
        }
    } else if let Some(y) = b {
        crate::text::decimal_has_digits_only(y as nat);
        assert(decimal(y as nat)[0] == 'd');
    }
}

/// Looking a character up a second time changes nothing, and leaves the books of
/// every other character as they were.
pub proof fn seeding_is_idempotent(
    books: Map<Seq<char>, Seq<BookText>>,
    key: Seq<char>,
    other: Seq<char>,
)
    ensures
        seeded(seeded(books, key), key) == seeded(books, key),
        seeded(books, key).contains_key(key),
        other != key ==> seeded(books, key).contains_key(other) == books.contains_key(other),
        other != key && books.contains_key(other) ==> seeded(books, key)[other] == books[other],
        books.contains_key(key) ==> seeded(books, key)[key] == books[key],
        !books.contains_key(key) ==> seeded(books, key)[key] == fresh_books(),
{
}

} // verus!
