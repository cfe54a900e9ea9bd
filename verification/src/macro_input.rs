//! Keys and clicks in the macro editor: moving between slots and pages, firing a
//! macro, and typing its lines.
use crate::kept::count_kept;
use crate::macro_editor::{
    column, no_focus, row_start, Focus, MacroEditorState, MACRO_EDITOR_COLUMNS,
};
use crate::macro_exec::{after_firing, fire_macro, lines_at, queued_as, MacroSequencer, Sequence};
use crate::macro_palette::{at_most, SLOT_LABEL_MAX_CHARS};
use crate::macro_store::{char_key, key_of, seeded, MacroBooks};
use crate::macros::{
    all_blank, ActiveMacroPage, BookText, MacroBook, PageText, MACROS_PER_PAGE,
    MACRO_LINES, MACRO_PAGES,
};
use crate::scalar::Scalar;
use crate::text::{
    blank, decimal, decimal_text, is_printable, printable, printable_part, same_text,
};
use vstd::prelude::*;

verus! {

/// How many characters a line can have.
pub const MACRO_LINE_MAX_CHARS: usize = 256;

/// How many characters can be typed into a line: into the first, which is the
/// name, as many as the palette shows.
pub open spec fn cap_of(line: int) -> nat {
    if line == 0 {
        SLOT_LABEL_MAX_CHARS as nat
    } else {
        MACRO_LINE_MAX_CHARS as nat
    }
}

/// Ten characters can be typed into the first line, and 256 into every other.
pub proof fn names_are_short_and_lines_long(line: int)
    ensures
        line == 0 ==> cap_of(line) == 10,
        line != 0 ==> cap_of(line) == 256,
{
}

pub fn line_cap(line: usize) -> (n: usize)
    ensures
        n == cap_of(line as int),
        n == if line == 0 {
            10int
        } else {
            256
        },
{
    if line == 0 {
        SLOT_LABEL_MAX_CHARS
    } else {
        MACRO_LINE_MAX_CHARS
    }
}

/// The slot `dx` columns to the right, wrapping around within the row.
pub open spec fn slot_stepped(slot: int, dx: int) -> int {
    row_start(slot) + (column(slot) + dx) % MACRO_EDITOR_COLUMNS as int
}

/// Moves to a slot of the same row, wrapping around at its ends.
pub fn step_slot_in_row(slot: usize, dx: i64) -> (r: usize)
    requires
        slot + MACRO_EDITOR_COLUMNS <= usize::MAX,
        slot + MACRO_EDITOR_COLUMNS <= i64::MAX,
        column(slot as int) + dx <= i64::MAX,
    ensures
        r == slot_stepped(slot as int, dx as int),
{
    let row_base: usize = slot / MACRO_EDITOR_COLUMNS * MACRO_EDITOR_COLUMNS;
    let target: i64 = (slot % MACRO_EDITOR_COLUMNS) as i64 + dx;
    match target.checked_rem_euclid(10) {
        Some(col) => row_base + col as usize,
        None => row_base,
    }
}

/// The page `dy` pages on, wrapping around after the last.
pub open spec fn page_stepped(page: int, dy: int) -> int {
    (page + dy) % MACRO_PAGES as int
}

/// Moves to another page, wrapping around after the last.
pub fn step_page(page: usize, dy: i64) -> (r: usize)
    requires
        page <= i64::MAX,
        page + dy <= i64::MAX,
    ensures
        r == page_stepped(page as int, dy as int),
{
    let target: i64 = page as i64 + dy;
    match target.checked_rem_euclid(10) {
        Some(p) => p as usize,
        None => 0,
    }
}

/// Moving stays on the page and in the row, and moving back returns to the slot.
pub proof fn steps_stay_in_the_row(slot: int, dx: int)
    requires
        0 <= slot < MACROS_PER_PAGE,
    ensures
        0 <= slot_stepped(slot, dx) < MACROS_PER_PAGE,
        row_start(slot_stepped(slot, dx)) == row_start(slot),
        slot_stepped(slot_stepped(slot, dx), -dx) == slot,
{
    let c = (column(slot) + dx) % 10;
    assert(slot_stepped(slot, dx) == row_start(slot) + c);
    assert(column(slot_stepped(slot, dx)) == c);
    assert(row_start(slot_stepped(slot, dx)) == row_start(slot));
    assert((c - dx) % 10 == column(slot));
}

/// Moving to the right goes to the next slot, and from the last of the row to its
/// first. Moving to the left goes to the one before, and from the first of the row
/// to its last. Pages are turned in the same way, ten of them.
pub proof fn steps_go_to_the_neighbour(slot: int, page: int)
    requires
        0 <= slot,
        0 <= page < 10,
    ensures
        slot_stepped(slot, 1) == if slot % 10 == 9 {
            slot - 9
        } else {
            slot + 1
        },
        slot_stepped(slot, -1) == if slot % 10 == 0 {
            slot + 9
        } else {
            slot - 1
        },
        page_stepped(page, 1) == if page == 9 {
            0
        } else {
            page + 1
        },
        page_stepped(page, -1) == if page == 0 {
            9
        } else {
            page - 1
        },
{
}

/// Moving by more columns goes step by step, and ten columns lead back.
pub proof fn steps_add_up(slot: int, page: int, dx: int)
    requires
        0 <= slot,
    ensures
        slot_stepped(slot, 0) == slot,
        slot_stepped(slot, dx + 1) == slot_stepped(slot_stepped(slot, dx), 1),
        slot_stepped(slot, dx + 10) == slot_stepped(slot, dx),
        0 <= page < 10 ==> page_stepped(page, 0) == page,
        page_stepped(page, dx + 1) == page_stepped(page_stepped(page, dx), 1),
        page_stepped(page, dx + 10) == page_stepped(page, dx),
{
    let c = (column(slot) + dx) % 10;
    assert(slot_stepped(slot, dx) == row_start(slot) + c);
    assert(column(slot_stepped(slot, dx)) == c);
    assert(row_start(slot_stepped(slot, dx)) == row_start(slot));
}

/// Moving between pages stays within the book, and moving back returns to the
/// page.
pub proof fn page_steps_stay_in_the_book(page: int, dy: int)
    requires
        0 <= page < MACRO_PAGES,
    ensures
        0 <= page_stepped(page, dy) < MACRO_PAGES,
        page_stepped(page_stepped(page, dy), -dy) == page,
{
}

/// A book with one of its lines replaced.
pub open spec fn with_line(
    book: BookText,
    page: int,
    slot: int,
    line: int,
    text: Seq<char>,
) -> BookText {
    let p = book.pages[page];
    BookText {
        pages: book.pages.update(
            page,
            PageText { macros: p.macros.update(slot, p.macros[slot].update(line, text)), ..p },
        ),
        ..book
    }
}

/// The books of all characters after the line in focus has been stored: the
/// draft stands in its place, where there is such a macro.
pub open spec fn committed(
    books: Map<Seq<char>, Seq<BookText>>,
    key: Seq<char>,
    book: usize,
    page: usize,
    focus: Focus,
) -> Map<Seq<char>, Seq<BookText>> {
    if lines_at(books, key, book, page, focus.slot) is Some {
        let own = seeded(books, key)[key];
        seeded(books, key).insert(
            key,
            own.update(
                book as int,
                with_line(
                    own[book as int],
                    page as int,
                    focus.slot as int,
                    focus.line as int,
                    focus.draft,
                ),
            ),
        )
    } else {
        seeded(books, key)
    }
}

/// What is stored in a line, or nothing where there is no such line.
pub open spec fn stored_line(
    books: Map<Seq<char>, Seq<BookText>>,
    key: Seq<char>,
    book: usize,
    page: usize,
    slot: usize,
    line: usize,
) -> Seq<char> {
    match lines_at(books, key, book, page, slot) {
        Some(lines) => if line < MACRO_LINES {
            lines[line as int]
        } else {
            Seq::empty()
        },
        None => Seq::empty(),
    }
}

/// The lines of every stored macro are six, and its pages and macros are as many
/// as a book has.
pub open spec fn well_formed_book(b: BookText) -> bool {
    &&& b.pages.len() == MACRO_PAGES
    &&& forall|p: int|
        0 <= p < MACRO_PAGES ==> (#[trigger] b.pages[p]).macros.len() == MACROS_PER_PAGE
    &&& forall|p: int, s: int|
        0 <= p < MACRO_PAGES && 0 <= s < MACROS_PER_PAGE ==> (
        #[trigger] b.pages[p].macros[s]).len() == MACRO_LINES
}

/// Every book has its ten pages of twenty macros with six lines.
pub proof fn books_are_well_formed(b: MacroBook)
    ensures
        well_formed_book(b@),
{
    assert forall|p: int, s: int|
        0 <= p < MACRO_PAGES && 0 <= s < MACROS_PER_PAGE implies (
    #[trigger] b@.pages[p].macros[s]).len() == MACRO_LINES by {
        assert(b@.pages[p].macros[s] == b.pages[p].macros[s]@);
    }
}

/// What has been stored reads back, and every other line of every character is
/// as it was.
pub proof fn what_is_stored_reads_back(
    books: Map<Seq<char>, Seq<BookText>>,
    key: Seq<char>,
    book: usize,
    page: usize,
    focus: Focus,
    other_key: Seq<char>,
    other: (usize, usize, usize, usize),
)
    requires
        lines_at(books, key, book, page, focus.slot) is Some,
        focus.line < MACRO_LINES,
        well_formed_book(seeded(books, key)[key][book as int]),
    ensures
        stored_line(
            committed(books, key, book, page, focus),
            key,
            book,
            page,
            focus.slot,
            focus.line,
        ) == focus.draft,
        other_key != key || other != (book, page, focus.slot, focus.line) ==> stored_line(
            committed(books, key, book, page, focus),
            other_key,
            other.0,
            other.1,
            other.2,
            other.3,
        ) == stored_line(books, other_key, other.0, other.1, other.2, other.3),
{
    let own = seeded(books, key)[key];
    assert(own[book as int].pages[page as int].macros[focus.slot as int].len() == MACRO_LINES);
    let after = committed(books, key, book, page, focus);
    assert(seeded(after, key) == after);
}

/// Storing a line touches no name, and leaves every character as many books with
/// as many pages, macros and lines.
pub proof fn storing_a_line_keeps_names_and_numbers(
    books: Map<Seq<char>, Seq<BookText>>,
    key: Seq<char>,
    book: usize,
    page: usize,
    focus: Focus,
    other_key: Seq<char>,
    b: int,
    p: int,
    m: int,
)
    requires
        lines_at(books, key, book, page, focus.slot) is Some ==> well_formed_book(
            seeded(books, key)[key][book as int],
        ) && focus.line < MACRO_LINES,
    ensures
        ({
            let before = seeded(books, key);
            let after = committed(books, key, book, page, focus);
            &&& after.contains_key(other_key) <==> before.contains_key(other_key)
            &&& before.contains_key(other_key) ==> {
                &&& after[other_key].len() == before[other_key].len()
                &&& 0 <= b < before[other_key].len() ==> {
                    let old_book = before[other_key][b];
                    let new_book = after[other_key][b];
                    &&& new_book.name == old_book.name
                    &&& new_book.pages.len() == old_book.pages.len()
                    &&& 0 <= p < old_book.pages.len() ==> {
                        &&& new_book.pages[p].name == old_book.pages[p].name
                        &&& new_book.pages[p].macros.len() == old_book.pages[p].macros.len()
                        &&& 0 <= m < old_book.pages[p].macros.len()
                            ==> new_book.pages[p].macros[m].len()
                            == old_book.pages[p].macros[m].len()
                    }
                }
            }
        }),
{    let own = seeded(books, key)[key];
    if lines_at(books, key, book, page, focus.slot) is Some {
        assert(own[book as int].pages[page as int].macros[focus.slot as int].len() == MACRO_LINES);
        assert(own[book as int].pages[page as int].macros.len() == MACROS_PER_PAGE);
    }
}

/// What is stored in a line is the text that the character's book has on that page
/// in that macro. Behind the last book, page, macro or line there is nothing.
pub proof fn lines_are_read_where_they_stand(
    books: Map<Seq<char>, Seq<BookText>>,
    key: Seq<char>,
    book: usize,
    page: usize,
    slot: usize,
    line: usize,
)
    requires
        books.contains_key(key),
    ensures
        ({
            let text = stored_line(books, key, book, page, slot, line);
            if book < books[key].len() && page < 10 && slot < 20 && line < 6 {
                text == books[key][book as int].pages[page as int].macros[slot as int][line as int]
            } else {
                text.len() == 0
            }
        }),
{
}

fn set_line(book: &mut MacroBook, page: usize, slot: usize, line: usize, text: &String)
    requires
        page < MACRO_PAGES,
        slot < MACROS_PER_PAGE,
        line < MACRO_LINES,
    ensures
        final(book)@ == with_line(old(book)@, page as int, slot as int, line as int, text@),
{
    let ghost before = *book;
    if !same_text(book.pages[page].macros[slot].lines[line].as_str(), text.as_str()) {
        book.pages[page].macros[slot].lines[line] = text.clone();
    }
    proof {
        let p = page as int;
        let s = slot as int;
        let l = line as int;
        let new = with_line(before@, p, s, l, text@);
        assert(book@.pages[p].macros[s] =~= before@.pages[p].macros[s].update(l, text@));
        assert(book@.pages[p].macros =~= new.pages[p].macros) by {
            assert forall|i: int| 0 <= i < MACROS_PER_PAGE && i != s implies
                #[trigger] book@.pages[p].macros[i] == before@.pages[p].macros[i] by {
                assert(book.pages[p].macros[i] == before.pages[p].macros[i]);
            }
        }
        assert(book@.pages =~= new.pages) by {
            assert forall|i: int| 0 <= i < MACRO_PAGES && i != p implies #[trigger] book@.pages[i]
                == before@.pages[i] by {
                assert(book.pages[i] == before.pages[i]);
            }
        }
        assert(book@ =~= new);
    }
}

/// Stores the draft in the line in focus.
pub fn commit_line(
    book: usize,
    page: usize,
    editor: &MacroEditorState,
    macro_books: &mut MacroBooks,
    self_char_id: Option<u32>,
)
    requires
        old(macro_books).wf(),
        lines_at(old(macro_books)@, key_of(self_char_id), book, page, editor.slot) is Some
            ==> editor.line < MACRO_LINES,
    ensures
        final(macro_books).wf(),
        final(macro_books)@ == committed(
            old(macro_books)@,
            key_of(self_char_id),
            book,
            page,
            editor@,
        ),
{
    let ghost before = macro_books@;
    let key = char_key(self_char_id);
    let own = macro_books.get_or_default_mut(key.as_str());
    let ghost own_before = own@;
    if book < own.books.len() && page < MACRO_PAGES && editor.slot < MACROS_PER_PAGE {
        set_line(&mut own.books[book], page, editor.slot, editor.line, &editor.draft);
        proof {
            assert(own@ =~= own_before.update(
                book as int,
                with_line(
                    own_before[book as int],
                    page as int,
                    editor.slot as int,
                    editor.line as int,
                    editor.draft@,
                ),
            ));
        }
    }
    proof {
        assert(seeded(before, key@).insert(key@, own_before) =~= seeded(before, key@));
    }
}

/// Copies what is stored in the line in focus into the draft.
pub fn load_line(
    book: usize,
    page: usize,
    editor: &mut MacroEditorState,
    macro_books: &mut MacroBooks,
    self_char_id: Option<u32>,
)
    requires
        old(macro_books).wf(),
    ensures
        final(macro_books).wf(),
        final(macro_books)@ == seeded(old(macro_books)@, key_of(self_char_id)),
        final(editor)@ == (Focus {
            draft: stored_line(
                old(macro_books)@,
                key_of(self_char_id),
                book,
                page,
                old(editor).slot,
                old(editor).line,
            ),
            ..old(editor)@
        }),
{
    let key = char_key(self_char_id);
    let own = macro_books.get_or_default(key.as_str());
    editor.draft = if book < own.books.len() {
        match own.books[book].macro_at(page, editor.slot) {
            Some(m) => if editor.line < MACRO_LINES {
                m.lines[editor.line].clone()
            } else {
                String::new()
            },
            None => String::new(),
        }
    } else {
        String::new()
    };
}

/// The focus when a line has been opened for typing.
pub open spec fn opened(
    books: Map<Seq<char>, Seq<BookText>>,
    key: Seq<char>,
    book: usize,
    page: usize,
    slot: usize,
    line: usize,
) -> Focus {
    Focus { slot, line, draft: stored_line(books, key, book, page, slot, line), editing: true }
}

/// A line that is opened comes into focus with what is stored in it as the draft,
/// so that leaving it at once stores what was there.
pub proof fn opening_a_line_shows_what_is_stored(
    books: Map<Seq<char>, Seq<BookText>>,
    key: Seq<char>,
    book: usize,
    page: usize,
    slot: usize,
    line: usize,
)
    ensures
        ({
            let focus = opened(books, key, book, page, slot, line);
            &&& focus.editing
            &&& focus.slot == slot
            &&& focus.line == line
            &&& focus.draft == stored_line(books, key, book, page, slot, line)
        }),
{
}

/// Opens a line of the slot in focus for typing.
pub fn begin_editing(
    book: usize,
    page: usize,
    editor: &mut MacroEditorState,
    macro_books: &mut MacroBooks,
    self_char_id: Option<u32>,
    line: usize,
)
    requires
        old(macro_books).wf(),
    ensures
        final(macro_books).wf(),
        final(macro_books)@ == seeded(old(macro_books)@, key_of(self_char_id)),
        final(editor)@ == opened(
            old(macro_books)@,
            key_of(self_char_id),
            book,
            page,
            old(editor).slot,
            line,
        ),
{
    editor.editing = true;
    editor.line = line;
    load_line(book, page, editor, macro_books, self_char_id);
}

/// Opens the first line of the slot in focus for typing.
pub fn start_editing(
    book: usize,
    page: usize,
    editor: &mut MacroEditorState,
    macro_books: &mut MacroBooks,
    self_char_id: Option<u32>,
)
    requires
        old(macro_books).wf(),
    ensures
        final(macro_books).wf(),
        final(macro_books)@ == seeded(old(macro_books)@, key_of(self_char_id)),
        final(editor)@ == opened(
            old(macro_books)@,
            key_of(self_char_id),
            book,
            page,
            old(editor).slot,
            0,
        ),
{
    begin_editing(book, page, editor, macro_books, self_char_id, 0);
}

/// The message on a slot that was to be fired.
pub open spec fn fire_message(lines: Option<Seq<Seq<char>>>, slot: usize) -> Option<Seq<char>> {
    match lines {
        Some(lines) => if all_blank(lines) {
            Some("[macro] empty slot"@)
        } else {
            Some("[macro] fired slot "@ + decimal((slot + 1) as nat))
        },
        None => None,
    }
}

/// What is said on firing: nothing where there is no macro, that the slot is empty
/// where it holds nothing, and else its number, counted from one.
pub proof fn firing_is_told_by_the_number_of_the_slot(lines: Seq<Seq<char>>, slot: usize)
    ensures
        fire_message(None, slot) is None,
        (forall|i: int| 0 <= i < lines.len() ==> blank(#[trigger] lines[i]))
            ==> fire_message(Some(lines), slot) == Some("[macro] empty slot"@),
        !(forall|i: int| 0 <= i < lines.len() ==> blank(#[trigger] lines[i]))
            ==> fire_message(Some(lines), slot) == Some(
            "[macro] fired slot "@ + decimal((slot + 1) as nat),
        ),
{
}

/// The running macro after a slot was fired from the editor.
pub open spec fn after_firing_slot(
    s: Sequence,
    books: Map<Seq<char>, Seq<BookText>>,
    key: Seq<char>,
    book: usize,
    page: usize,
    slot: usize,
    numbers: Seq<Option<Scalar>>,
) -> Sequence {
    if lines_at(books, key, book, page, slot) is Some {
        after_firing(s, slot, page, seeded(books, key)[key][book as int], numbers)
    } else {
        s
    }
}

/// An optional text as characters.
pub open spec fn text_of(s: Option<String>) -> Option<Seq<char>> {
    match s {
        Some(s) => Some(s@),
        None => None,
    }
}

/// Fires the macro in a slot, and returns what to tell the player.
pub fn fire_slot(
    book: usize,
    page: usize,
    slot: usize,
    self_char_id: Option<u32>,
    macro_books: &mut MacroBooks,
    sequencer: &mut MacroSequencer,
    numbers: &[Option<Scalar>; MACRO_LINES],
) -> (message: Option<String>)
    requires
        old(macro_books).wf(),
    ensures
        final(macro_books).wf(),
        final(macro_books)@ == seeded(old(macro_books)@, key_of(self_char_id)),
        text_of(message) == fire_message(
            lines_at(old(macro_books)@, key_of(self_char_id), book, page, slot),
            slot,
        ),
        match lines_at(old(macro_books)@, key_of(self_char_id), book, page, slot) {
            Some(lines) => message matches Some(m) && m@ == if all_blank(lines) {
                "[macro] empty slot"@
            } else {
                "[macro] fired slot "@ + decimal((slot + 1) as nat)
            },
            None => message is None,
        },
        lines_at(old(macro_books)@, key_of(self_char_id), book, page, slot) matches Some(lines)
            ==> {
            &&& all_blank(lines) ==> final(sequencer)@ == old(sequencer)@
            &&& !all_blank(lines) ==> {
                &&& final(sequencer).pending@.len() == count_kept(lines, |l: Seq<char>| !blank(l), 6)
                &&& forall|i: int|
                    0 <= i < 6 && !blank(#[trigger] lines[i]) ==> queued_as(
                        final(sequencer).pending@[count_kept(lines, |l: Seq<char>| !blank(l), i)]@,
                        lines[i],
                        numbers@[i],
                    )
                &&& final(sequencer).active_slot == Some(slot)
            }
        },
        final(sequencer)@ == after_firing_slot(
            old(sequencer)@,
            old(macro_books)@,
            key_of(self_char_id),
            book,
            page,
            slot,
            numbers@,
        ),
{
    let key = char_key(self_char_id);
    let own = macro_books.get_or_default(key.as_str());
    if book >= own.books.len() {
        return None;
    }
    let m = match own.books[book].macro_at(page, slot) {
        Some(m) => m,
        None => {
            return None;
        },
    };
    if m.is_empty() {
        return Some("[macro] empty slot".to_owned());
    }
    let mut message = "[macro] fired slot ".to_owned();
    message.append(decimal_text((slot + 1) as u64).as_str());
    fire_macro(slot, page, &own.books[book], numbers, sequencer);
    Some(message)
}

/// The text that a key types.
#[derive(Debug, Clone)]
pub enum KeyText {
    Nothing,
    Space,
    Characters(String),
}

/// The characters that a key types.
pub open spec fn key_chars(t: KeyText) -> Seq<char> {
    match t {
        KeyText::Nothing => Seq::empty(),
        KeyText::Space => seq![' '],
        KeyText::Characters(s) => s@,
    }
}

/// A key that went down: the actions that it is bound to, and what it types.
#[derive(Debug, Clone)]
pub struct KeyPress {
    pub nav_cancel: bool,
    pub nav_left: bool,
    pub nav_right: bool,
    pub nav_up: bool,
    pub nav_down: bool,
    pub nav_confirm: bool,
    pub chat_submit: bool,
    pub chat_backspace: bool,
    pub chat_exit: bool,
    pub tab: bool,
    pub text: KeyText,
}

/// A draft after text has been typed: its printable characters are appended, as
/// many as there is room for.
pub open spec fn typed(draft: Seq<char>, cap: nat, text: Seq<char>) -> Seq<char> {
    draft + at_most(
        printable_part(text),
        if draft.len() < cap {
            (cap - draft.len()) as nat
        } else {
            0
        },
    )
}

/// A draft never grows beyond the room of its line.
pub proof fn drafts_stay_within_their_cap(draft: Seq<char>, cap: nat, text: Seq<char>)
    requires
        draft.len() <= cap,
    ensures
        typed(draft, cap, text).len() <= cap,
        draft.is_prefix_of(typed(draft, cap, text)),
        text.len() == 0 ==> typed(draft, cap, text) == draft,
{
    if text.len() == 0 {
        assert(printable_part(text).len() == 0) by {
            reveal(Seq::filter);
        }
        assert(typed(draft, cap, text) =~= draft);
    }
}

/// Typing appends: the draft stays at the front, and behind it come the printable
/// characters of the text, in their order, as long as there is room. One comes
/// behind as many as are printable before it.
pub proof fn typing_appends_in_order(draft: Seq<char>, cap: nat, text: Seq<char>, i: int)
    requires
        0 <= i < text.len(),
    ensures
        ({
            let shown = |c: char| '\u{20}' <= c <= '\u{7e}';
            let all = count_kept(text, shown, text.len() as int);
            let place = draft.len() + count_kept(text, shown, i);
            let after = typed(draft, cap, text);
            &&& after.len() == if draft.len() + all <= cap {
                draft.len() + all
            } else if draft.len() <= cap {
                cap as int
            } else {
                draft.len() as int
            }
            &&& after.take(draft.len() as int) == draft
            &&& '\u{20}' <= text[i] <= '\u{7e}' && place < cap ==> after[place] == text[i]
        }),
{
    let shown = |c: char| '\u{20}' <= c <= '\u{7e}';
    crate::text::printable_characters_stay_in_order(text, i);
    crate::kept::count_kept_grows(text, shown, 0, text.len() as int);
    crate::kept::count_kept_grows(text, shown, i, text.len() as int);
    assert(typed(draft, cap, text).take(draft.len() as int) =~= draft);
}

/// A space key types a space, other keys type their characters, and those without
/// any type nothing.
pub proof fn keys_type_their_characters(s: String)
    ensures
        key_chars(KeyText::Nothing).len() == 0,
        key_chars(KeyText::Space) == seq![' '],
        key_chars(KeyText::Characters(s)) == s@,
{
}

/// Appends a character to the draft, if there is room.
pub fn push_draft(editor: &mut MacroEditorState, c: char)
    ensures
        final(editor)@ == (Focus {
            draft: if old(editor)@.draft.len() < cap_of(old(editor).line as int) {
                old(editor)@.draft.push(c)
            } else {
                old(editor)@.draft
            },
            ..old(editor)@
        }),
{
    if editor.draft.as_str().unicode_len() < line_cap(editor.line) {
        editor.draft.push(c);
    }
}

fn type_text(editor: &mut MacroEditorState, text: &str)
    ensures
        final(editor)@ == (Focus {
            draft: typed(old(editor)@.draft, cap_of(old(editor).line as int), text@),
            ..old(editor)@
        }),
{
    let ghost draft = editor@.draft;
    let ghost cap = cap_of(editor.line as int);
    assert(printable_part(text@.take(0)) =~= Seq::<char>::empty());
    assert(editor@.draft =~= typed(draft, cap, text@.take(0)));
    for c in it: text.chars()
        invariant
            it.seq() == text@,
            draft == old(editor)@.draft,
            cap == cap_of(old(editor).line as int),
            editor.slot == old(editor).slot,
            editor.line == old(editor).line,
            editor.editing == old(editor).editing,
            editor@.draft == typed(draft, cap, text@.take(it.index() as int)),
    {
        let ghost shorter = text@.take(it.index() as int);
        let ghost longer = text@.take(it.index() as int + 1);
        proof {
            assert(longer.drop_last() =~= shorter);
            assert(longer.last() == c);
            reveal(Seq::filter);
            assert(printable_part(longer) == if printable(c) {
                printable_part(shorter).push(c)
            } else {
                printable_part(shorter)
            });
        }
        if is_printable(c) {
            push_draft(editor, c);
        }
        assert(editor@.draft =~= typed(draft, cap, longer));
    }
    assert(text@.take(text@.len() as int) =~= text@);
}

/// The line that a key leads to while a line is being typed: the one before or
/// the one after, wrapping around.
pub open spec fn line_after_key(key: KeyPress, line: int) -> int {
    if !key.nav_confirm && !key.chat_submit && key.nav_up {
        (line + MACRO_LINES - 1) % MACRO_LINES as int
    } else {
        (line + 1) % MACRO_LINES as int
    }
}

/// The key leaves the line that is being typed, so that the draft is stored.
pub open spec fn leaves_line(key: KeyPress) -> bool {
    &&& !key.chat_backspace
    &&& key.chat_exit || key.nav_cancel || key.nav_confirm || key.chat_submit || key.nav_up
        || key.nav_down
}

/// The line in focus can be left: it is one of the macro's lines, if there is the
/// macro, and the lines around it can be counted.
pub open spec fn can_leave(
    books: Map<Seq<char>, Seq<BookText>>,
    own_key: Seq<char>,
    book: usize,
    page: usize,
    focus: Focus,
) -> bool {
    &&& lines_at(books, own_key, book, page, focus.slot) is Some ==> focus.line < MACRO_LINES
    &&& focus.line + MACRO_LINES <= usize::MAX
}

/// The key goes to the line before or after, and does nothing else.
pub open spec fn moves_between_lines(key: KeyPress) -> bool {
    &&& key.nav_up != key.nav_down
    &&& !key.chat_backspace
    &&& !key.chat_exit
    &&& !key.nav_cancel
    &&& !key.nav_confirm
    &&& !key.chat_submit
}

/// The focus and the books after a key while a line is being typed.
///
/// Backspace takes the last character. Leaving stores the draft and goes back to
/// the slots. Confirming, up and down store the draft and open the next line or
/// the one before. Any other key types.
pub open spec fn line_edited(
    key: KeyPress,
    books: Map<Seq<char>, Seq<BookText>>,
    own_key: Seq<char>,
    book: usize,
    page: usize,
    focus: Focus,
) -> (Focus, Map<Seq<char>, Seq<BookText>>) {
    if key.chat_backspace {
        (
            Focus {
                draft: if focus.draft.len() > 0 {
                    focus.draft.drop_last()
                } else {
                    focus.draft
                },
                ..focus
            },
            books,
        )
    } else {
        let stored = committed(books, own_key, book, page, focus);
        if key.chat_exit || key.nav_cancel {
            (Focus { editing: false, draft: Seq::empty(), ..focus }, stored)
        } else if key.nav_confirm || key.chat_submit || key.nav_up || key.nav_down {
            let line = line_after_key(key, focus.line as int) as usize;
            (
                Focus {
                    line,
                    draft: stored_line(stored, own_key, book, page, focus.slot, line),
                    ..focus
                },
                stored,
            )
        } else {
            (
                Focus {
                    draft: typed(focus.draft, cap_of(focus.line as int), key_chars(key.text)),
                    ..focus
                },
                books,
            )
        }
    }
}

/// While a line is being typed, confirming goes on to the next line and from the
/// last one to the first. So does going down; going up goes to the line before,
/// and from the first one to the last. The slot stays, typing goes on, and the
/// draft is what is stored in the line that is now in focus.
pub proof fn confirming_goes_to_the_next_line(
    key: KeyPress,
    books: Map<Seq<char>, Seq<BookText>>,
    own_key: Seq<char>,
    book: usize,
    page: usize,
    focus: Focus,
)
    requires
        !key.chat_backspace,
        !key.chat_exit,
        !key.nav_cancel,
        focus.line < 6,
    ensures
        ({
            let (next, stored) = line_edited(key, books, own_key, book, page, focus);
            let confirms = key.nav_confirm || key.chat_submit;
            &&& confirms ==> next.line == if focus.line == 5 {
                0
            } else {
                focus.line + 1
            }
            &&& !confirms && key.nav_up ==> next.line == if focus.line == 0 {
                5
            } else {
                focus.line - 1
            }
            &&& !confirms && !key.nav_up && key.nav_down ==> next.line == if focus.line == 5 {
                0
            } else {
                focus.line + 1
            }
            &&& !confirms && !key.nav_up && !key.nav_down ==> next.line == focus.line
            &&& next.slot == focus.slot
            &&& next.editing == focus.editing
            &&& confirms || key.nav_up || key.nav_down ==> next.draft == stored_line(
                stored,
                own_key,
                book,
                page,
                focus.slot,
                next.line,
            )
        }),
{
}

/// Leaving a line for the slots stores the draft and then drops it; the slot and
/// the line stay where they were.
pub proof fn leaving_goes_back_to_the_slots(
    key: KeyPress,
    books: Map<Seq<char>, Seq<BookText>>,
    own_key: Seq<char>,
    book: usize,
    page: usize,
    focus: Focus,
)
    requires
        !key.chat_backspace,
        key.chat_exit || key.nav_cancel,
    ensures
        ({
            let (next, stored) = line_edited(key, books, own_key, book, page, focus);
            &&& !next.editing
            &&& next.draft.len() == 0
            &&& next.slot == focus.slot
            &&& next.line == focus.line
            &&& stored == committed(books, own_key, book, page, focus)
        }),
{
}

/// Backspace takes the last character of the draft, and other keys type into it.
/// Neither stores anything or changes anything else.
pub proof fn typing_changes_the_draft_alone(
    key: KeyPress,
    books: Map<Seq<char>, Seq<BookText>>,
    own_key: Seq<char>,
    book: usize,
    page: usize,
    focus: Focus,
)
    requires
        key.chat_backspace || !(key.chat_exit || key.nav_cancel || key.nav_confirm
            || key.chat_submit || key.nav_up || key.nav_down),
    ensures
        ({
            let (next, stored) = line_edited(key, books, own_key, book, page, focus);
            &&& stored == books
            &&& next.slot == focus.slot
            &&& next.line == focus.line
            &&& next.editing == focus.editing
            &&& key.chat_backspace && focus.draft.len() > 0 ==> next.draft == focus.draft.take(
                focus.draft.len() - 1,
            )
            &&& key.chat_backspace && focus.draft.len() == 0 ==> next.draft.len() == 0
            &&& !key.chat_backspace ==> next.draft == typed(
                focus.draft,
                if focus.line == 0 {
                    10
                } else {
                    256
                },
                key_chars(key.text),
            )
        }),
{
}

/// Leaving a line loses nothing: what was typed is what is stored.
pub proof fn leaving_a_line_stores_the_draft(
    key: KeyPress,
    books: Map<Seq<char>, Seq<BookText>>,
    own_key: Seq<char>,
    book: usize,
    page: usize,
    focus: Focus,
)
    requires
        leaves_line(key),
        lines_at(books, own_key, book, page, focus.slot) is Some,
        focus.line < MACRO_LINES,
        well_formed_book(seeded(books, own_key)[own_key][book as int]),
    ensures
        stored_line(
            line_edited(key, books, own_key, book, page, focus).1,
            own_key,
            book,
            page,
            focus.slot,
            focus.line,
        ) == focus.draft,
{
    what_is_stored_reads_back(books, own_key, book, page, focus, own_key, (0, 0, 0, 0));
}

/// Going down a line and up again, or up and down, comes back to the line with
/// the draft that was left there.
pub proof fn up_undoes_down(
    first: KeyPress,
    second: KeyPress,
    books: Map<Seq<char>, Seq<BookText>>,
    own_key: Seq<char>,
    book: usize,
    page: usize,
    focus: Focus,
)
    requires
        moves_between_lines(first),
        moves_between_lines(second),
        first.nav_up != second.nav_up,
        lines_at(books, own_key, book, page, focus.slot) is Some,
        focus.line < MACRO_LINES,
        well_formed_book(seeded(books, own_key)[own_key][book as int]),
    ensures
        ({
            let (between, stored) = line_edited(first, books, own_key, book, page, focus);
            line_edited(second, stored, own_key, book, page, between).0 == focus
        }),
{
    let (between, stored) = line_edited(first, books, own_key, book, page, focus);
    what_is_stored_reads_back(books, own_key, book, page, focus, own_key, (0, 0, 0, 0));
    let own = seeded(books, own_key)[own_key];
    assert(seeded(stored, own_key) == stored);
    assert(own[book as int].pages[page as int].macros[focus.slot as int].len() == MACRO_LINES);
    let after = stored[own_key][book as int];
    assert(well_formed_book(after));
    let at = (book, page, focus.slot, focus.line);
    what_is_stored_reads_back(stored, own_key, book, page, between, own_key, at);
    assert(between.line != focus.line);
    assert(line_edited(second, stored, own_key, book, page, between).0 =~= focus);
}

/// Handles a key while a line is being typed.
pub fn handle_line_edit_key(
    key: &KeyPress,
    book: usize,
    page: usize,
    self_char_id: Option<u32>,
    editor: &mut MacroEditorState,
    macro_books: &mut MacroBooks,
)
    requires
        old(macro_books).wf(),
        leaves_line(*key) ==> can_leave(
            old(macro_books)@,
            key_of(self_char_id),
            book,
            page,
            old(editor)@,
        ),
    ensures
        final(macro_books).wf(),
        old(editor).line < MACRO_LINES ==> final(editor).line < MACRO_LINES,
        (final(editor)@, final(macro_books)@) == line_edited(
            *key,
            old(macro_books)@,
            key_of(self_char_id),
            book,
            page,
            old(editor)@,
        ),
        old(editor).line < 6 ==> {
            let l = old(editor).line as int;
            let below: int = if l == 5 {
                0
            } else {
                l + 1
            };
            let above: int = if l == 0 {
                5
            } else {
                l - 1
            };
            let ends = !key.chat_backspace && (key.chat_exit || key.nav_cancel);
            let goes = !key.chat_backspace && !ends;
            let confirms = key.nav_confirm || key.chat_submit;
            &&& !goes ==> final(editor).line == l
            &&& goes && confirms ==> final(editor).line == below
            &&& goes && !confirms && key.nav_up ==> final(editor).line == above
            &&& goes && !confirms && !key.nav_up && key.nav_down ==> final(editor).line == below
            &&& goes && !confirms && !key.nav_up && !key.nav_down ==> final(editor).line == l
            &&& final(editor).slot == old(editor).slot
            &&& ends ==> !final(editor).editing && final(editor).draft@.len() == 0
            &&& !ends ==> final(editor).editing == old(editor).editing
        },
{
    let ghost own_key = key_of(self_char_id);
    if key.chat_backspace {
        let n: usize = editor.draft.as_str().unicode_len();
        if n > 0 {
            editor.draft = editor.draft.as_str().substring_char(0, n - 1).to_owned();
            assert(editor@.draft =~= old(editor)@.draft.drop_last());
        }
        return;
    }
    if key.chat_exit || key.nav_cancel {
        commit_line(book, page, editor, macro_books, self_char_id);
        editor.editing = false;
        editor.draft = String::new();
        return;
    }
    if key.nav_confirm || key.chat_submit || key.nav_up || key.nav_down {
        commit_line(book, page, editor, macro_books, self_char_id);
        proof {
            assert(seeded(macro_books@, own_key) == macro_books@);
        }
        editor.line = if !key.nav_confirm && !key.chat_submit && key.nav_up {
            (editor.line + MACRO_LINES - 1) % MACRO_LINES
        } else {
            (editor.line + 1) % MACRO_LINES
        };
        load_line(book, page, editor, macro_books, self_char_id);
        return;
    }
    match &key.text {
        KeyText::Nothing => {
            assert(printable_part(Seq::<char>::empty()) =~= Seq::<char>::empty());
            assert(editor@ =~= Focus {
                draft: typed(editor@.draft, cap_of(editor.line as int), Seq::empty()),
                ..editor@
            });
        },
        KeyText::Space => {
            let ghost draft = editor@.draft;
            push_draft(editor, ' ');
            proof {
                reveal(Seq::filter);
                assert(seq![' '].drop_last() =~= Seq::<char>::empty());
                assert(printable_part(seq![' ']) =~= seq![' ']);
                assert(editor@.draft =~= typed(draft, cap_of(editor.line as int), seq![' ']));
            }
        },
        KeyText::Characters(s) => {
            type_text(editor, s.as_str());
        },
    }
}

/// What a key in the editor asks of the menu: nothing, to close the editor, or to
/// show another page.
#[derive(Debug, Clone, Copy, PartialEq, Eq, Structural)]
pub enum EditorAction {
    Stay,
    Close,
    TurnPage(usize),
}

/// What the editor is and has after a key, and what the key asks for.
pub struct KeyOutcome {
    pub focus: Focus,
    pub books: Map<Seq<char>, Seq<BookText>>,
    pub sequence: Sequence,
    pub active_page: ActiveMacroPage,
    pub action: EditorAction,
    pub message: Option<Seq<char>>,
}

/// What a key does in the editor.
///
/// While a line is being typed the key goes there. Else cancelling closes the
/// editor, left and right move in the row, up and down turn the page, Tab opens
/// the first line of the slot, and confirming fires its macro.
pub open spec fn after_key(
    key: KeyPress,
    book: usize,
    page: usize,
    own_key: Seq<char>,
    focus: Focus,
    books: Map<Seq<char>, Seq<BookText>>,
    sequence: Sequence,
    numbers: Seq<Option<Scalar>>,
) -> KeyOutcome {
    let same = KeyOutcome {
        focus,
        books,
        sequence,
        active_page: ActiveMacroPage { book, page },
        action: EditorAction::Stay,
        message: None,
    };
    if focus.editing {
        let (focus, books) = line_edited(key, books, own_key, book, page, focus);
        KeyOutcome { focus, books, ..same }
    } else if key.nav_cancel {
        KeyOutcome { focus: no_focus(), action: EditorAction::Close, ..same }
    } else if key.nav_left {
        KeyOutcome {
            focus: Focus { slot: slot_stepped(focus.slot as int, -1) as usize, ..focus },
            ..same
        }
    } else if key.nav_right {
        KeyOutcome {
            focus: Focus { slot: slot_stepped(focus.slot as int, 1) as usize, ..focus },
            ..same
        }
    } else if key.nav_up || key.nav_down {
        let turned = page_stepped(
            page as int,
            if key.nav_up {
                -1
            } else {
                1
            },
        ) as usize;
        KeyOutcome {
            active_page: ActiveMacroPage { book, page: turned },
            action: EditorAction::TurnPage(turned),
            ..same
        }
    } else if key.tab {
        KeyOutcome {
            focus: opened(books, own_key, book, page, focus.slot, 0),
            books: seeded(books, own_key),
            ..same
        }
    } else if key.nav_confirm || key.chat_submit {
        KeyOutcome {
            books: seeded(books, own_key),
            sequence: after_firing_slot(
                sequence,
                books,
                own_key,
                book,
                page,
                focus.slot,
                numbers,
            ),
            message: fire_message(lines_at(books, own_key, book, page, focus.slot), focus.slot),
            ..same
        }
    } else {
        same
    }
}

/// While a line is being typed a key goes to the line alone: no macro fires, the
/// page stays, the editor stays open, and nothing is said.
pub proof fn typed_keys_go_to_the_line_alone(
    key: KeyPress,
    book: usize,
    page: usize,
    own_key: Seq<char>,
    focus: Focus,
    books: Map<Seq<char>, Seq<BookText>>,
    sequence: Sequence,
    numbers: Seq<Option<Scalar>>,
)
    requires
        focus.editing,
    ensures
        ({
            let out = after_key(key, book, page, own_key, focus, books, sequence, numbers);
            &&& (out.focus, out.books) == line_edited(key, books, own_key, book, page, focus)
            &&& out.sequence == sequence
            &&& out.active_page.book == book
            &&& out.active_page.page == page
            &&& out.action == EditorAction::Stay
            &&& out.message is None
        }),
{
}

/// What a key does among the slots. Cancelling closes the editor, which then has
/// nothing in focus. Left and right go to the slot beside, within the row of ten.
/// Up and down turn to the page before and after, of ten. Tab opens the first
/// line of the slot, and confirming fires its macro. The earlier of these counts,
/// and what a key does not do stays as it was.
pub proof fn keys_among_the_slots(
    key: KeyPress,
    book: usize,
    page: usize,
    own_key: Seq<char>,
    focus: Focus,
    books: Map<Seq<char>, Seq<BookText>>,
    sequence: Sequence,
    numbers: Seq<Option<Scalar>>,
)
    requires
        !focus.editing,
        focus.slot + 10 <= usize::MAX,
    ensures
        ({
            let out = after_key(key, book, page, own_key, focus, books, sequence, numbers);
            let moves = key.nav_left || key.nav_right;
            let turns = key.nav_up || key.nav_down;
            let fires = key.nav_confirm || key.chat_submit;
            &&& out.active_page.book == book
            &&& key.nav_cancel ==> {
                &&& out.action == EditorAction::Close
                &&& out.focus.slot == 0
                &&& out.focus.line == 0
                &&& out.focus.draft.len() == 0
                &&& !out.focus.editing
            }
            &&& !key.nav_cancel ==> out.action != EditorAction::Close
            &&& !key.nav_cancel && key.nav_left ==> out.focus.slot == if focus.slot % 10
                == 0 {
                focus.slot + 9
            } else {
                focus.slot - 1
            }
            &&& !key.nav_cancel && !key.nav_left && key.nav_right ==> out.focus.slot == if focus.slot
                % 10 == 9 {
                focus.slot - 9
            } else {
                focus.slot + 1
            }
            &&& !key.nav_cancel && !moves ==> out.focus.slot == focus.slot
            &&& !key.nav_cancel && !moves && turns ==> {
                &&& out.active_page.page == if key.nav_up {
                    (page + 9) % 10
                } else {
                    (page + 1) % 10
                }
                &&& out.action == EditorAction::TurnPage(out.active_page.page)
            }
            &&& key.nav_cancel || moves || !turns ==> out.active_page.page == page && out.action
                !is TurnPage
            &&& !key.nav_cancel && (moves || turns) ==> out.focus.line == focus.line
                && out.focus.draft == focus.draft && !out.focus.editing
            &&& !key.nav_cancel && !moves && !turns && key.tab ==> {
                &&& out.focus.editing
                &&& out.focus.line == 0
                &&& out.focus.draft == stored_line(books, own_key, book, page, focus.slot, 0)
                &&& out.books == seeded(books, own_key)
            }
            &&& !key.nav_cancel && !moves && !turns && !key.tab ==> out.focus == focus
            &&& !key.nav_cancel && !moves && !turns && !key.tab && fires ==> {
                let lines = lines_at(books, own_key, book, page, focus.slot);
                &&& out.books == seeded(books, own_key)
                &&& out.message == fire_message(lines, focus.slot)
                &&& lines is Some ==> out.sequence == after_firing(
                    sequence,
                    focus.slot,
                    page,
                    seeded(books, own_key)[own_key][book as int],
                    numbers,
                )
                &&& lines is None ==> out.sequence == sequence
            }
            &&& key.nav_cancel || moves || turns || key.tab || !fires ==> out.sequence == sequence
                && out.message is None
            &&& key.nav_cancel || moves || turns || !(key.tab || fires) ==> out.books == books
        }),
{
    steps_go_to_the_neighbour(focus.slot as int, 0);
}

/// Handles a key in the editor of a page, and returns what it asks of the menu
/// and what to tell the player. The numbers are those that the texts behind the
/// pauses of the macro in focus read as, line by line.
pub fn handle_macro_editor_key(
    key: &KeyPress,
    book: usize,
    page: usize,
    self_char_id: Option<u32>,
    editor: &mut MacroEditorState,
    macro_books: &mut MacroBooks,
    sequencer: &mut MacroSequencer,
    active_page: &mut ActiveMacroPage,
    numbers: &[Option<Scalar>; MACRO_LINES],
) -> (r: (EditorAction, Option<String>))
    requires
        old(macro_books).wf(),
        old(editor).editing && leaves_line(*key) ==> can_leave(
            old(macro_books)@,
            key_of(self_char_id),
            book,
            page,
            old(editor)@,
        ),
        !old(editor).editing && (key.nav_left || key.nav_right) ==> {
            &&& old(editor).slot + MACRO_EDITOR_COLUMNS <= usize::MAX
            &&& old(editor).slot + MACRO_EDITOR_COLUMNS <= i64::MAX
        },
        !old(editor).editing && (key.nav_up || key.nav_down) ==> page < i64::MAX,
    ensures
        final(macro_books).wf(),
        (old(editor).editing ==> old(editor).line < MACRO_LINES) ==> (final(editor).editing
            ==> final(editor).line < MACRO_LINES),
        ({
            let out = after_key(
                *key,
                book,
                page,
                key_of(self_char_id),
                old(editor)@,
                old(macro_books)@,
                old(sequencer)@,
                numbers@,
            );
            &&& final(editor)@ == out.focus
            &&& final(macro_books)@ == out.books
            &&& final(sequencer)@ == out.sequence
            &&& *final(active_page) == out.active_page
            &&& r.0 == out.action
            &&& text_of(r.1) == out.message
        }),
        old(editor).editing && old(editor).line < 6 ==> {
            let l = old(editor).line as int;
            let below: int = if l == 5 {
                0
            } else {
                l + 1
            };
            let above: int = if l == 0 {
                5
            } else {
                l - 1
            };
            let ends = !key.chat_backspace && (key.chat_exit || key.nav_cancel);
            let goes = !key.chat_backspace && !ends;
            let confirms = key.nav_confirm || key.chat_submit;
            &&& !goes ==> final(editor).line == l
            &&& goes && confirms ==> final(editor).line == below
            &&& goes && !confirms && key.nav_up ==> final(editor).line == above
            &&& goes && !confirms && !key.nav_up && key.nav_down ==> final(editor).line == below
            &&& goes && !confirms && !key.nav_up && !key.nav_down ==> final(editor).line == l
            &&& final(editor).slot == old(editor).slot
            &&& ends ==> !final(editor).editing && final(editor).draft@.len() == 0
            &&& !ends ==> final(editor).editing == old(editor).editing
        },
        !old(editor).editing && !key.nav_cancel && (key.nav_left || key.nav_right) ==> {
            let slot = old(editor).slot as int;
            &&& key.nav_left ==> final(editor).slot == if slot % 10 == 0 {
                slot + 9
            } else {
                slot - 1
            }
            &&& !key.nav_left ==> final(editor).slot == if slot % 10 == 9 {
                slot - 9
            } else {
                slot + 1
            }
        },
{
    *active_page = ActiveMacroPage { book, page };
    if editor.editing {
        handle_line_edit_key(key, book, page, self_char_id, editor, macro_books);
        return (EditorAction::Stay, None);
    }
    if key.nav_cancel {
        editor.reset();
        return (EditorAction::Close, None);
    }
    if key.nav_left {
        editor.slot = step_slot_in_row(editor.slot, -1);
        return (EditorAction::Stay, None);
    }
    if key.nav_right {
        editor.slot = step_slot_in_row(editor.slot, 1);
        return (EditorAction::Stay, None);
    }
    if key.nav_up || key.nav_down {
        let turned: usize = step_page(
            page,
            if key.nav_up {
                -1
            } else {
                1
            },
        );
        *active_page = ActiveMacroPage { book, page: turned };
        return (EditorAction::TurnPage(turned), None);
    }
    if key.tab {
        start_editing(book, page, editor, macro_books, self_char_id);
        return (EditorAction::Stay, None);
    }
    if key.nav_confirm || key.chat_submit {
        let message = fire_slot(
            book,
            page,
            editor.slot,
            self_char_id,
            macro_books,
            sequencer,
            numbers,
        );
        return (EditorAction::Stay, message);
    }
    (EditorAction::Stay, None)
}

/// A click: with the primary button or another, on the cell of a slot, counted
/// within the row, or on the row of a line.
#[derive(Debug, Clone, Copy, PartialEq, Eq, Structural)]
pub struct EditorClick {
    pub primary: bool,
    pub slot_cell: Option<usize>,
    pub line_row: Option<usize>,
}

/// The click is on something of the editor, with the primary button.
pub open spec fn hits(c: EditorClick) -> bool {
    c.primary && (c.slot_cell is Some || c.line_row is Some)
}

/// The focus and the books after a click that hits. What was being typed is
/// stored. A slot comes into focus with its first line open, if there is such a
/// slot on the page; a line of the slot in focus is opened.
pub open spec fn clicked(
    c: EditorClick,
    books: Map<Seq<char>, Seq<BookText>>,
    own_key: Seq<char>,
    book: usize,
    page: usize,
    focus: Focus,
) -> (Focus, Map<Seq<char>, Seq<BookText>>) {
    let stored = if focus.editing {
        committed(books, own_key, book, page, focus)
    } else {
        books
    };
    match c.slot_cell {
        Some(i) => {
            let slot = row_start(focus.slot as int) + i;
            if slot < MACROS_PER_PAGE {
                (
                    opened(stored, own_key, book, page, slot as usize, 0),
                    seeded(stored, own_key),
                )
            } else {
                (focus, stored)
            }
        },
        None => (
            opened(stored, own_key, book, page, focus.slot, c.line_row->0),
            seeded(stored, own_key),
        ),
    }
}

/// The first of the clicks that hits.
pub open spec fn first_hit(clicks: Seq<EditorClick>) -> Option<EditorClick>
    decreases clicks.len(),
{
    if clicks.len() == 0 {
        None
    } else if hits(clicks[0]) {
        Some(clicks[0])
    } else {
        first_hit(clicks.drop_first())
    }
}

proof fn lemma_first_hit(clicks: Seq<EditorClick>, i: int)
    requires
        0 <= i <= clicks.len(),
        forall|k: int| 0 <= k < i ==> !hits(#[trigger] clicks[k]),
    ensures
        i < clicks.len() && hits(clicks[i]) ==> first_hit(clicks) == Some(clicks[i])
            && clicks_taken(clicks) == i + 1,
        i == clicks.len() ==> first_hit(clicks) is None && clicks_taken(clicks) == i,
    decreases i,
{
    if i > 0 {
        assert(!hits(clicks[0]));
        let rest = clicks.drop_first();
        assert forall|k: int| 0 <= k < i - 1 implies !hits(#[trigger] rest[k]) by {
            assert(rest[k] == clicks[k + 1]);
        }
        lemma_first_hit(rest, i - 1);
    }
}

/// Of the clicks that wait the first counts that is made with the primary button on
/// a slot or a line. Those before it are taken with it and those behind it wait
/// on. Where there is none all are taken.
pub proof fn the_first_hit_counts(clicks: Seq<EditorClick>, i: int)
    requires
        0 <= i < clicks.len(),
        forall|k: int|
            0 <= k < i ==> !((#[trigger] clicks[k]).primary && (clicks[k].slot_cell is Some
                || clicks[k].line_row is Some)),
    ensures
        clicks[i].primary && (clicks[i].slot_cell is Some || clicks[i].line_row is Some)
            ==> first_hit(clicks) == Some(clicks[i]) && clicks_taken(clicks) == i + 1,
        i == clicks.len() - 1 && !(clicks[i].primary && (clicks[i].slot_cell is Some
            || clicks[i].line_row is Some)) ==> first_hit(clicks) is None && clicks_taken(clicks)
            == clicks.len(),
{
    assert forall|k: int| 0 <= k < i implies !hits(#[trigger] clicks[k]) by {
        assert(!(clicks[k].primary && (clicks[k].slot_cell is Some || clicks[k].line_row is Some)));
    }
    lemma_first_hit(clicks, i);
    if i == clicks.len() - 1 && !hits(clicks[i]) {
        lemma_first_hit(clicks, i + 1);
    }
}

/// A click on a slot, counted within the row of the one in focus, opens its first
/// line; a click on a line opens that line of the slot in focus. Either stores
/// first what was being typed. A click on a slot that the page does not have only
/// stores.
pub proof fn clicks_open_what_they_hit(
    c: EditorClick,
    books: Map<Seq<char>, Seq<BookText>>,
    own_key: Seq<char>,
    book: usize,
    page: usize,
    focus: Focus,
)
    requires
        c.slot_cell is Some || c.line_row is Some,
    ensures
        ({
            let stored = if focus.editing {
                committed(books, own_key, book, page, focus)
            } else {
                books
            };
            let (next, after) = clicked(c, books, own_key, book, page, focus);
            &&& c.slot_cell matches Some(i) ==> {
                let slot = focus.slot - focus.slot as int % 10 + i;
                &&& slot < 20 ==> {
                    &&& next.editing
                    &&& next.slot == slot
                    &&& next.line == 0
                    &&& next.draft == stored_line(stored, own_key, book, page, next.slot, 0)
                    &&& after == seeded(stored, own_key)
                }
                &&& slot >= 20 ==> next == focus && after == stored
            }
            &&& c.slot_cell is None ==> {
                &&& next.editing
                &&& next.slot == focus.slot
                &&& next.line == c.line_row->0
                &&& next.draft == stored_line(stored, own_key, book, page, next.slot, next.line)
                &&& after == seeded(stored, own_key)
            }
        }),
{
}

fn click(
    c: EditorClick,
    book: usize,
    page: usize,
    self_char_id: Option<u32>,
    editor: &mut MacroEditorState,
    macro_books: &mut MacroBooks,
)
    requires
        hits(c),
        old(macro_books).wf(),
        old(editor).editing && lines_at(
            old(macro_books)@,
            key_of(self_char_id),
            book,
            page,
            old(editor).slot,
        ) is Some ==> old(editor).line < MACRO_LINES,
        c.slot_cell matches Some(i) ==> row_start(old(editor).slot as int) + i <= usize::MAX,
    ensures
        final(macro_books).wf(),
        (final(editor)@, final(macro_books)@) == clicked(
            c,
            old(macro_books)@,
            key_of(self_char_id),
            book,
            page,
            old(editor)@,
        ),
{
    if editor.editing {
        commit_line(book, page, editor, macro_books, self_char_id);
    }
    if let Some(i) = c.slot_cell {
        let slot: usize = editor.slot / MACRO_EDITOR_COLUMNS * MACRO_EDITOR_COLUMNS + i;
        if slot < MACROS_PER_PAGE {
            editor.slot = slot;
            begin_editing(book, page, editor, macro_books, self_char_id, 0);
        }
    } else if let Some(line) = c.line_row {
        begin_editing(book, page, editor, macro_books, self_char_id, line);
    }
}

/// How many clicks are taken: those up to the first that hits, or all of them.
pub open spec fn clicks_taken(clicks: Seq<EditorClick>) -> nat
    decreases clicks.len(),
{
    if clicks.len() == 0 {
        0
    } else if hits(clicks[0]) {
        1
    } else {
        1 + clicks_taken(clicks.drop_first())
    }
}

/// Handles the clicks that wait while the editor shows a page: the first that
/// hits counts, and those behind it wait on. Returns how many were taken.
pub fn macro_editor_click_system(
    clicks: &Vec<EditorClick>,
    open_page: Option<(usize, usize)>,
    self_char_id: Option<u32>,
    editor: &mut MacroEditorState,
    macro_books: &mut MacroBooks,
) -> (taken: usize)
    requires
        old(macro_books).wf(),
        first_hit(clicks@) is Some ==> (open_page matches Some((book, page)) ==> (old(editor).editing
            && lines_at(
            old(macro_books)@,
            key_of(self_char_id),
            book,
            page,
            old(editor).slot,
        ) is Some ==> old(editor).line < MACRO_LINES)),
        first_hit(clicks@) matches Some(c) ==> (open_page is Some ==> (c.slot_cell matches Some(i)
            ==> row_start(old(editor).slot as int) + i <= usize::MAX)),
    ensures
        final(macro_books).wf(),
        match (open_page, first_hit(clicks@)) {
            (Some((book, page)), Some(c)) => (final(editor)@, final(macro_books)@) == clicked(
                c,
                old(macro_books)@,
                key_of(self_char_id),
                book,
                page,
                old(editor)@,
            ),
            _ => *final(editor) == *old(editor) && *final(macro_books) == *old(macro_books),
        },
        taken == (if open_page is Some {
            clicks_taken(clicks@)
        } else {
            0
        }),
        ({
            let was_in_range = old(editor).editing ==> old(editor).line < MACRO_LINES;
            let hit_in_range = first_hit(clicks@) matches Some(c) ==> (c.line_row matches Some(l)
                ==> l < MACRO_LINES);
            was_in_range && hit_in_range ==> (final(editor).editing ==> final(editor).line
                < MACRO_LINES)
        }),
{
    let (book, page) = match open_page {
        Some(p) => p,
        None => {
            return 0;
        },
    };
    let mut k: usize = 0;
    while k < clicks.len()
        invariant
            k <= clicks.len(),
            forall|j: int| 0 <= j < k ==> !hits(#[trigger] clicks@[j]),
            *editor == *old(editor),
            *macro_books == *old(macro_books),
            macro_books.wf(),
            open_page == Some((book, page)),
            first_hit(clicks@) is Some ==> (editor.editing && lines_at(
                macro_books@,
                key_of(self_char_id),
                book,
                page,
                editor.slot,
            ) is Some ==> editor.line < MACRO_LINES),
            first_hit(clicks@) matches Some(c) ==> (c.slot_cell matches Some(i) ==> row_start(
                editor.slot as int,
            ) + i <= usize::MAX),
        decreases clicks.len() - k,
    {
        let c = clicks[k];
        if c.primary && (c.slot_cell.is_some() || c.line_row.is_some()) {
            proof {
                lemma_first_hit(clicks@, k as int);
            }
            click(c, book, page, self_char_id, editor, macro_books);
            return k + 1;
        }
        k = k + 1;
    }
    proof {
        lemma_first_hit(clicks@, clicks@.len() as int);
    }
    clicks.len()
}

} // verus!
