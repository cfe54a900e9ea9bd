//! Macro books: forty books of ten pages, each page with twenty macros of six
//! lines.
use crate::text::{blank, decimal, decimal_text, is_blank};
use vstd::prelude::*;

verus! {

pub const MACRO_BOOKS: usize = 40;

pub const MACRO_PAGES: usize = 10;

pub const MACROS_PER_PAGE: usize = 20;

pub const MACRO_LINES: usize = 6;

pub const CTRL_MACRO_SLOTS: usize = 10;

pub const ALT_MACRO_SLOTS: usize = 10;

#[derive(Debug, Clone)]
pub struct MacroBook {
    pub name: String,
    pub pages: [MacroPage; MACRO_PAGES],
}

#[derive(Debug, Clone)]
pub struct MacroPage {
    pub name: String,
    pub macros: [Macro; MACROS_PER_PAGE],
}

#[derive(Debug, Clone)]
pub struct Macro {
    pub lines: [String; MACRO_LINES],
}

#[derive(Debug, Clone, Copy, PartialEq, Eq, Structural)]
pub struct ActiveMacroPage {
    pub book: usize,
    pub page: usize,
}

/// The text of a page: its name, and the lines of its macros.
#[verifier::ext_equal]
pub struct PageText {
    pub name: Seq<char>,
    pub macros: Seq<Seq<Seq<char>>>,
}

/// The text of a book: its name, and its pages.
#[verifier::ext_equal]
pub struct BookText {
    pub name: Seq<char>,
    pub pages: Seq<PageText>,
}

/// The texts of the lines of a macro.
pub open spec fn line_texts(lines: [String; MACRO_LINES]) -> Seq<Seq<char>> {
    Seq::new(MACRO_LINES as nat, |i: int| lines[i]@)
}

impl View for Macro {
    type V = Seq<Seq<char>>;

    open spec fn view(&self) -> Seq<Seq<char>> {
        line_texts(self.lines)
    }
}

impl View for MacroPage {
    type V = PageText;

    open spec fn view(&self) -> PageText {
        PageText {
            name: self.name@,
            macros: Seq::new(MACROS_PER_PAGE as nat, |i: int| self.macros[i]@),
        }
    }
}

impl View for MacroBook {
    type V = BookText;

    open spec fn view(&self) -> BookText {
        BookText {
            name: self.name@,
            pages: Seq::new(MACRO_PAGES as nat, |i: int| self.pages[i]@),
        }
    }
}

/// Every line is blank.
pub open spec fn all_blank(lines: Seq<Seq<char>>) -> bool {
    forall|i: int| 0 <= i < lines.len() ==> blank(#[trigger] lines[i])
}

/// The first line that is not blank.
pub open spec fn active_line(lines: Seq<Seq<char>>) -> Option<Seq<char>>
    decreases lines.len(),
{
    if lines.len() == 0 {
        None
    } else if !blank(lines[0]) {
        Some(lines[0])
    } else {
        active_line(lines.drop_first())
    }
}

/// The first active line, by its place: every line before it is blank.
pub proof fn active_line_is_first(lines: Seq<Seq<char>>, k: int)
    requires
        0 <= k < lines.len(),
        !blank(lines[k]),
        forall|i: int| 0 <= i < k ==> blank(#[trigger] lines[i]),
    ensures
        active_line(lines) == Some(lines[k]),
    decreases k,
{
    if k > 0 {
        assert(blank(lines[0]));
        let rest = lines.drop_first();
        assert forall|i: int| 0 <= i < k - 1 implies blank(#[trigger] rest[i]) by {
            assert(rest[i] == lines[i + 1]);
        }
        active_line_is_first(rest, k - 1);
    }
}

/// A macro has an active line exactly where not all of its lines are blank.
pub proof fn active_line_exists(lines: Seq<Seq<char>>)
    ensures
        active_line(lines) is None <==> all_blank(lines),
    decreases lines.len(),
{
    if lines.len() > 0 {
        let rest = lines.drop_first();
        active_line_exists(rest);
        if blank(lines[0]) {
            if all_blank(rest) {
                assert forall|i: int| 0 <= i < lines.len() implies blank(#[trigger] lines[i]) by {
                    if i > 0 {
                        assert(rest[i - 1] == lines[i]);
                    }
                }
            } else {
                let k = choose|k: int| 0 <= k < rest.len() && !blank(#[trigger] rest[k]);
                assert(lines[k + 1] == rest[k]);
            }
        }
    }
}

/// The lines of a macro that holds nothing.
pub open spec fn no_lines() -> Seq<Seq<char>> {
    Seq::new(MACRO_LINES as nat, |i: int| Seq::<char>::empty())
}

/// A page under a name, with macros that hold nothing.
pub open spec fn blank_page(name: Seq<char>) -> PageText {
    PageText { name, macros: Seq::new(MACROS_PER_PAGE as nat, |i: int| no_lines()) }
}

/// A book under a name, with pages that have no name and hold nothing.
pub open spec fn blank_book(name: Seq<char>) -> BookText {
    BookText {
        name,
        pages: Seq::new(MACRO_PAGES as nat, |i: int| blank_page(Seq::<char>::empty())),
    }
}

/// The name that a book is given by its place, counted from one.
pub open spec fn book_name(index: nat) -> Seq<char> {
    "Book "@ + decimal(index + 1)
}

/// The name that a page is given by its place, counted from one.
pub open spec fn page_name(index: nat) -> Seq<char> {
    "Page "@ + decimal(index + 1)
}

/// The book that stands at a place until it is edited.
pub open spec fn fresh_book(index: nat) -> BookText {
    BookText {
        name: book_name(index),
        pages: Seq::new(MACRO_PAGES as nat, |i: int| blank_page(page_name(i as nat))),
    }
}

/// A fresh book is named by its place and its ten pages by theirs, counted from
/// one, and every line of every macro of it is empty. A book that is only given a
/// name has pages without one.
pub proof fn fresh_books_are_named_and_empty(
    index: nat,
    name: Seq<char>,
    page: int,
    slot: int,
    line: int,
)
    requires
        0 <= page < 10,
        0 <= slot < 20,
        0 <= line < 6,
    ensures
        fresh_book(index).name == "Book "@ + decimal(index + 1),
        fresh_book(index).pages.len() == 10,
        fresh_book(index).pages[page].name == "Page "@ + decimal((page + 1) as nat),
        fresh_book(index).pages[page].macros.len() == 20,
        fresh_book(index).pages[page].macros[slot].len() == 6,
        fresh_book(index).pages[page].macros[slot][line].len() == 0,
        blank_book(name).name == name,
        blank_book(name).pages.len() == 10,
        blank_book(name).pages[page].name.len() == 0,
        blank_book(name).pages[page].macros.len() == 20,
        blank_book(name).pages[page].macros[slot].len() == 6,
        blank_book(name).pages[page].macros[slot][line].len() == 0,
{
}

impl Default for Macro {
    fn default() -> (m: Macro)
        ensures
            m@ == no_lines(),
    {
        Macro {
            lines: [
                String::new(),
                String::new(),
                String::new(),
                String::new(),
                String::new(),
                String::new(),
            ],
        }
    }
}

impl Default for MacroPage {
    fn default() -> (p: MacroPage)
        ensures
            p@ == blank_page(Seq::<char>::empty()),
    {
        MacroPage {
            name: String::new(),
            macros: [
                Macro::default(),
                Macro::default(),
                Macro::default(),
                Macro::default(),
                Macro::default(),
                Macro::default(),
                Macro::default(),
                Macro::default(),
                Macro::default(),
                Macro::default(),
                Macro::default(),
                Macro::default(),
                Macro::default(),
                Macro::default(),
                Macro::default(),
                Macro::default(),
                Macro::default(),
                Macro::default(),
                Macro::default(),
                Macro::default(),
            ],
        }
    }
}

impl Default for MacroBook {
    fn default() -> (b: MacroBook)
        ensures
            b@ == blank_book(Seq::<char>::empty()),
    {
        MacroBook::with_name(String::new())
    }
}

impl Default for ActiveMacroPage {
    fn default() -> (a: ActiveMacroPage)
        ensures
            a.book == 0,
            a.page == 0,
    {
        ActiveMacroPage { book: 0, page: 0 }
    }
}

impl MacroBook {
    /// A book under the name, with nothing in it.
    pub fn with_name(name: String) -> (b: MacroBook)
        ensures
            b@ == blank_book(name@),
    {
        MacroBook {
            name,
            pages: [
                MacroPage::default(),
                MacroPage::default(),
                MacroPage::default(),
                MacroPage::default(),
                MacroPage::default(),
                MacroPage::default(),
                MacroPage::default(),
                MacroPage::default(),
                MacroPage::default(),
                MacroPage::default(),
            ],
        }
    }

    /// The macro in a slot of a page, where both are in range.
    pub fn macro_at(&self, page: usize, slot: usize) -> (m: Option<&Macro>)
        ensures
            match m {
                Some(m) => page < MACRO_PAGES && slot < MACROS_PER_PAGE && m@
                    == self@.pages[page as int].macros[slot as int],
                None => page >= MACRO_PAGES || slot >= MACROS_PER_PAGE,
            },
    {
        if page < MACRO_PAGES && slot < MACROS_PER_PAGE {
            Some(&self.pages[page].macros[slot])
        } else {
            None
        }
    }
}

/// The first of the lines that is not blank.
pub fn first_active_of(lines: &[String; MACRO_LINES]) -> (r: Option<&str>)
    ensures
        match r {
            Some(line) => active_line(line_texts(*lines)) == Some(line@),
            None => active_line(line_texts(*lines)) is None,
        },
        r is None <==> forall|j: int| 0 <= j < 6 ==> blank(#[trigger] lines[j]@),
        r matches Some(line) ==> exists|k: int|
            0 <= k < 6 && line@ == (#[trigger] lines[k])@ && !blank(lines[k]@) && forall|j: int|
                0 <= j < k ==> blank(#[trigger] lines[j]@),
{
    let mut i: usize = 0;
    while i < MACRO_LINES
        invariant
            i <= MACRO_LINES,
            forall|j: int| 0 <= j < i ==> blank(#[trigger] line_texts(*lines)[j]),
            forall|j: int| 0 <= j < i ==> blank(#[trigger] lines[j]@),
        decreases MACRO_LINES - i,
    {
        if !is_blank(lines[i].as_str()) {
            proof {
                active_line_is_first(line_texts(*lines), i as int);
            }
            return Some(lines[i].as_str());
        }
        i = i + 1;
    }
    proof {
        active_line_exists(line_texts(*lines));
    }
    None
}

impl Macro {
    /// The first line that is not blank.
    pub fn first_active_line(&self) -> (r: Option<&str>)
        ensures
            match r {
                Some(line) => active_line(self@) == Some(line@),
                None => active_line(self@) is None,
            },
            r is None <==> forall|i: int| 0 <= i < 6 ==> blank(#[trigger] self.lines[i]@),
            r matches Some(line) ==> exists|k: int|
                0 <= k < 6 && line@ == (#[trigger] self.lines[k])@ && !blank(self.lines[k]@)
                    && forall|j: int| 0 <= j < k ==> blank(#[trigger] self.lines[j]@),
    {
        first_active_of(&self.lines)
    }

    /// Whether every line is blank.
    pub fn is_empty(&self) -> (b: bool)
        ensures
            b == all_blank(self@),
            b <==> forall|i: int| 0 <= i < 6 ==> blank(#[trigger] self.lines[i]@),
    {
        proof {
            active_line_exists(self@);
        }
        self.first_active_line().is_none()
    }
}

/// The name of the book at a place.
pub fn default_book_name(index: usize) -> (s: String)
    requires
        index < usize::MAX,
    ensures
        s@ == book_name(index as nat),
{
    let mut s = "Book ".to_owned();
    s.append(decimal_text((index + 1) as u64).as_str());
    s
}

/// The name of the page at a place.
pub fn default_page_name(index: usize) -> (s: String)
    requires
        index < usize::MAX,
    ensures
        s@ == page_name(index as nat),
{
    let mut s = "Page ".to_owned();
    s.append(decimal_text((index + 1) as u64).as_str());
    s
}

/// The book at a place before anything is written into it: it and its pages
/// have names, and every macro is empty.
pub fn default_macro_book(index: usize) -> (b: MacroBook)
    requires
        index < usize::MAX,
    ensures
        b@ == fresh_book(index as nat),
{
    let mut book = MacroBook::with_name(default_book_name(index));
    let mut pi: usize = 0;
    while pi < MACRO_PAGES
        invariant
            pi <= MACRO_PAGES,
            book.name@ == book_name(index as nat),
            forall|i: int|
                0 <= i < pi ==> #[trigger] book@.pages[i] == blank_page(page_name(i as nat)),
            forall|i: int|
                pi <= i < MACRO_PAGES ==> #[trigger] book@.pages[i] == blank_page(
                    Seq::<char>::empty(),
                ),
        decreases MACRO_PAGES - pi,
    {
        let ghost before = book;
        book.pages[pi].name = default_page_name(pi);
        assert(before@.pages[pi as int] == blank_page(Seq::<char>::empty()));
        assert(book@.pages[pi as int].macros =~= before@.pages[pi as int].macros);
        assert(book@.pages[pi as int] == blank_page(page_name(pi as nat)));
        assert forall|i: int| 0 <= i < MACRO_PAGES && i != pi implies #[trigger] book@.pages[i]
            == before@.pages[i] by {
            assert(book.pages[i] == before.pages[i]);
        }
        pi = pi + 1;
    }
    assert(book@ =~= fresh_book(index as nat));
    book
}

/// The macro of a page that Ctrl or Alt with a digit key stands for: Ctrl
/// reaches the upper row, Alt the lower one, and the keys run from 1 to 9 and
/// then 0. Ctrl counts where both are held.
pub open spec fn slot_of_hotkey(ctrl: bool, alt: bool, digit: int) -> Option<int> {
    if !ctrl && !alt || digit < 0 || digit > 9 {
        None
    } else {
        Some((if ctrl { 0int } else { CTRL_MACRO_SLOTS as int }) + (digit + 9) % 10)
    }
}

/// The macro slot that a modifier and a digit key stand for. `None` without a
/// modifier, and for what is no digit.
pub fn slot_from_modifier_digit(ctrl: bool, alt: bool, digit: u8) -> (r: Option<usize>)
    ensures
        match r {
            Some(slot) => slot_of_hotkey(ctrl, alt, digit as int) == Some(slot as int),
            None => slot_of_hotkey(ctrl, alt, digit as int) is None,
        },
        r is Some <==> (ctrl || alt) && digit <= 9,
        r matches Some(slot) ==> slot == if digit == 0 {
            9int
        } else {
            digit - 1
        } + if ctrl {
            0int
        } else {
            10int
        },
{
    if !ctrl && !alt {
        return None;
    }
    let base: usize = if ctrl {
        0
    } else {
        CTRL_MACRO_SLOTS
    };
    if digit > 9 {
        return None;
    }
    let slot_in_row: usize = if digit == 0 {
        9
    } else {
        (digit - 1) as usize
    };
    Some(base + slot_in_row)
}

/// Every hotkey stands for a slot of the page: Ctrl for one of the upper row,
/// Alt alone for one of the lower row.
pub proof fn hotkeys_stay_on_the_page(ctrl: bool, alt: bool, digit: int)
    requires
        slot_of_hotkey(ctrl, alt, digit) is Some,
    ensures
        0 <= slot_of_hotkey(ctrl, alt, digit)->0 < MACROS_PER_PAGE,
        ctrl <==> slot_of_hotkey(ctrl, alt, digit)->0 < CTRL_MACRO_SLOTS,
{
}

/// A digit key stands for something where Ctrl or Alt is held. The keys 1 to 9
/// stand for the first nine macros of the row and 0 for the tenth; Ctrl gives the
/// upper row, also with Alt, and Alt alone the lower one.
pub proof fn hotkeys_go_by_row_and_digit(ctrl: bool, alt: bool, digit: int)
    ensures
        slot_of_hotkey(ctrl, alt, digit) is Some <==> (ctrl || alt) && 0 <= digit <= 9,
        ctrl && 1 <= digit <= 9 ==> slot_of_hotkey(ctrl, alt, digit) == Some(digit - 1),
        ctrl && digit == 0 ==> slot_of_hotkey(ctrl, alt, digit) == Some(9int),
        !ctrl && alt && 1 <= digit <= 9 ==> slot_of_hotkey(ctrl, alt, digit) == Some(digit + 9),
        !ctrl && alt && digit == 0 ==> slot_of_hotkey(ctrl, alt, digit) == Some(19int),
{
}

/// Different digits under the same modifiers stand for different slots, and
/// every slot of a page has a hotkey.
pub proof fn hotkeys_reach_every_slot(slot: int)
    requires
        0 <= slot < MACROS_PER_PAGE,
    ensures
        slot_of_hotkey(
            slot < CTRL_MACRO_SLOTS,
            slot >= CTRL_MACRO_SLOTS,
            (slot % 10 + 1) % 10,
        ) == Some(slot),
        forall|ctrl: bool, alt: bool, a: int, b: int|
            slot_of_hotkey(ctrl, alt, a) is Some && #[trigger] slot_of_hotkey(ctrl, alt, a)
                == #[trigger] slot_of_hotkey(ctrl, alt, b) ==> a == b,
{
}

} // verus!
