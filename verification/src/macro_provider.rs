//! What the palette and the editor are to show, from the books and from what is
//! in focus.
use crate::macro_editor::{
    no_content, EditorContent, Focus, MacroEditorData, MacroEditorState,
};
use crate::macro_exec::{busy, MacroSequencer, Sequence};
use crate::macro_palette::{
    label_of, no_palette, slot_label, texts, MacroPaletteData, PaletteContent,
};
use crate::macro_store::{char_key, key_of, seeded, MacroBooks};
use crate::macros::{
    line_texts, ActiveMacroPage, BookText, MacroPage, PageText, MACROS_PER_PAGE, MACRO_LINES,
    MACRO_PAGES,
};
use crate::text::{decimal, decimal_text};
use vstd::prelude::*;

verus! {

/// The labels of a page.
pub open spec fn page_labels(page: PageText) -> Seq<Seq<char>> {
    page.macros.map_values(|lines: Seq<Seq<char>>| label_of(lines))
}

/// The header of the palette: book and page, counted from one.
pub open spec fn palette_header(book: nat, page: nat) -> Seq<char> {
    "Book "@ + decimal(book + 1) + " / Page "@ + decimal(page + 1)
}

/// The slot to highlight: that of the running macro, while something of it is to
/// come, and unless its label is empty.
pub open spec fn highlighted_slot(s: Sequence, labels: Seq<Seq<char>>) -> Option<usize> {
    match s.active_slot {
        Some(slot) => if busy(s) && (slot >= labels.len() || labels[slot as int].len() > 0) {
            Some(slot)
        } else {
            None
        },
        None => None,
    }
}

/// What the palette shows of a page.
pub open spec fn page_palette(
    active_page: ActiveMacroPage,
    page: PageText,
    s: Sequence,
) -> PaletteContent {
    PaletteContent {
        header: palette_header(active_page.book as nat, active_page.page as nat),
        slots: page_labels(page),
        active: highlighted_slot(s, page_labels(page)),
    }
}

/// The palette shows a label for each macro of the page, in their order, under a
/// header that counts book and page from one.
pub proof fn the_palette_shows_every_macro(
    active_page: ActiveMacroPage,
    page: PageText,
    s: Sequence,
    i: int,
)
    requires
        0 <= i < page.macros.len(),
    ensures
        ({
            let shown = page_palette(active_page, page, s);
            &&& shown.header == "Book "@ + decimal((active_page.book + 1) as nat) + " / Page "@
                + decimal((active_page.page + 1) as nat)
            &&& shown.slots.len() == page.macros.len()
            &&& shown.slots[i] == label_of(page.macros[i])
        }),
{
}

/// Only the slot that is executing is highlighted, and only while its macro is
/// armed or has lines left. A slot of the page without a label is not.
pub proof fn only_a_running_macro_is_highlighted(
    active_page: ActiveMacroPage,
    page: PageText,
    s: Sequence,
    slot: usize,
)
    ensures
        page_palette(active_page, page, s).active == Some(slot) <==> s.active_slot == Some(slot)
            && (s.armed || s.pending.len() > 0) && (slot < page.macros.len() ==> label_of(
            page.macros[slot as int],
        ).len() > 0),
{
}

/// Whether the texts are the same.
fn same_texts(a: &Vec<String>, b: &Vec<String>) -> (r: bool)
    ensures
        r == (texts(a@) == texts(b@)),
{
    if a.len() != b.len() {
        assert(texts(a@).len() != texts(b@).len());
        return false;
    }
    let mut i: usize = 0;
    while i < a.len()
        invariant
            i <= a.len(),
            a@.len() == b@.len(),
            forall|k: int| 0 <= k < i ==> (#[trigger] a@[k])@ == b@[k]@,
        decreases a.len() - i,
    {
        if !(a[i] == b[i]) {
            assert(texts(a@)[i as int] != texts(b@)[i as int]);
            return false;
        }
        i = i + 1;
    }
    assert(texts(a@) =~= texts(b@));
    true
}

fn labels(page: &MacroPage) -> (out: Vec<String>)
    ensures
        texts(out@) == page_labels(page@),
{
    let mut out: Vec<String> = Vec::new();
    let mut i: usize = 0;
    while i < MACROS_PER_PAGE
        invariant
            i <= MACROS_PER_PAGE,
            out@.len() == i,
            forall|k: int| 0 <= k < i ==> (#[trigger] out@[k])@ == label_of(page@.macros[k]),
        decreases MACROS_PER_PAGE - i,
    {
        assert(page@.macros[i as int] == page.macros[i as int]@);
        out.push(slot_label(&page.macros[i].lines));
        i = i + 1;
    }
    assert(texts(out@) =~= page_labels(page@));
    out
}

/// What the palette shows after it has been provided for.
pub open spec fn palette_provided(
    old_content: PaletteContent,
    self_char_id: Option<u32>,
    active_page: ActiveMacroPage,
    books: Map<Seq<char>, Seq<BookText>>,
    s: Sequence,
) -> PaletteContent {
    match self_char_id {
        None => if old_content.header.len() > 0 {
            no_palette()
        } else {
            old_content
        },
        Some(_) => {
            let own = seeded(books, key_of(self_char_id))[key_of(self_char_id)];
            if active_page.book < own.len() && active_page.page < MACRO_PAGES {
                page_palette(
                    active_page,
                    own[active_page.book as int].pages[active_page.page as int],
                    s,
                )
            } else {
                old_content
            }
        },
    }
}

/// Fills the palette from the active page of the character's books. Without a
/// character it is emptied; where the page is out of range it is left alone. The
/// result says whether the palette was written, which is where it changes.
pub fn macro_palette_provider_system(
    self_char_id: Option<u32>,
    active_page: ActiveMacroPage,
    macro_books: &mut MacroBooks,
    sequencer: &MacroSequencer,
    palette: &mut MacroPaletteData,
) -> (written: bool)
    requires
        old(macro_books).wf(),
    ensures
        final(macro_books).wf(),
        final(macro_books)@ == (if self_char_id is Some {
            seeded(old(macro_books)@, key_of(self_char_id))
        } else {
            old(macro_books)@
        }),
        final(palette)@ == palette_provided(
            old(palette)@,
            self_char_id,
            active_page,
            old(macro_books)@,
            sequencer@,
        ),
        written == (final(palette)@ != old(palette)@),
{
    if self_char_id.is_none() {
        if palette.header.as_str().is_empty() {
            return false;
        }
        *palette = MacroPaletteData::default();
        assert(palette@ =~= no_palette());
        assert(palette@.header.len() != old(palette)@.header.len());
        return true;
    }
    let key = char_key(self_char_id);
    let books = macro_books.get_or_default(key.as_str());
    if active_page.book >= books.books.len() || active_page.page >= MACRO_PAGES {
        return false;
    }
    let page = &books.books[active_page.book].pages[active_page.page];
    let mut header = "Book ".to_owned();
    header.append(decimal_text((active_page.book + 1) as u64).as_str());
    header.append(" / Page ");
    header.append(decimal_text((active_page.page + 1) as u64).as_str());
    let slots = labels(page);
    let active = match sequencer.active_slot {
        Some(slot) => if sequencer.is_busy() && (slot >= slots.len()
            || !slots[slot].as_str().is_empty()) {
            Some(slot)
        } else {
            None
        },
        None => None,
    };
    let same_active = match (palette.active, active) {
        (Some(a), Some(b)) => a == b,
        (None, None) => true,
        _ => false,
    };
    proof {
        let label = page_labels(page@);
        assert forall|i: int| 0 <= i < slots@.len() implies (#[trigger] slots@[i])@ == label[i] by {
            assert(texts(slots@)[i] == slots@[i]@);
        }
        assert(slots@.len() == texts(slots@).len());
    }
    if palette.header == header && same_texts(&palette.slots, &slots) && same_active {
        assert(palette@ =~= page_palette(active_page, page@, sequencer@));
        false
    } else {
        *palette = MacroPaletteData { header, slots, active };
        assert(palette@ =~= page_palette(active_page, page@, sequencer@));
        true
    }
}

/// The lines of the macros of a page, with the draft in place of the line that is
/// being typed.
pub open spec fn overlaid(macros: Seq<Seq<Seq<char>>>, focus: Focus) -> Seq<Seq<Seq<char>>> {
    if focus.editing && focus.slot < macros.len() && focus.line < MACRO_LINES {
        macros.update(
            focus.slot as int,
            macros[focus.slot as int].update(focus.line as int, focus.draft),
        )
    } else {
        macros
    }
}

/// The draft stands in place of the line that is being typed, and every other line
/// of every macro is shown as it is stored.
pub proof fn only_the_typed_line_is_overlaid(
    macros: Seq<Seq<Seq<char>>>,
    focus: Focus,
    slot: int,
    line: int,
)
    requires
        0 <= slot < macros.len(),
        0 <= line < macros[slot].len(),
        forall|i: int| 0 <= i < macros.len() ==> (#[trigger] macros[i]).len() == 6,
    ensures
        overlaid(macros, focus).len() == macros.len(),
        overlaid(macros, focus)[slot].len() == macros[slot].len(),
        overlaid(macros, focus)[slot][line] == if focus.editing && slot == focus.slot && line
            == focus.line {
            focus.draft
        } else {
            macros[slot][line]
        },
{
}

/// What the editor shows of a page.
pub open spec fn page_content(
    book: usize,
    page: usize,
    content: PageText,
    focus: Focus,
) -> EditorContent {
    EditorContent {
        book,
        page,
        slot_labels: page_labels(content),
        lines: overlaid(content.macros, focus),
        focus,
    }
}

fn copy_lines(lines: &[String; MACRO_LINES]) -> (out: [String; MACRO_LINES])
    ensures
        line_texts(out) == line_texts(*lines),
{
    let out = [
        lines[0].clone(),
        lines[1].clone(),
        lines[2].clone(),
        lines[3].clone(),
        lines[4].clone(),
        lines[5].clone(),
    ];
    assert(line_texts(out) =~= line_texts(*lines));
    out
}

/// Lines of macros as sequences of characters.
pub open spec fn all_texts(v: Seq<[String; MACRO_LINES]>) -> Seq<Seq<Seq<char>>> {
    v.map_values(|l: [String; MACRO_LINES]| line_texts(l))
}

fn same_line_texts(a: &[String; MACRO_LINES], b: &[String; MACRO_LINES]) -> (r: bool)
    ensures
        r == (line_texts(*a) == line_texts(*b)),
{
    let mut i: usize = 0;
    while i < MACRO_LINES
        invariant
            i <= MACRO_LINES,
            forall|k: int| 0 <= k < i ==> (#[trigger] a[k])@ == b[k]@,
        decreases MACRO_LINES - i,
    {
        if !(a[i] == b[i]) {
            assert(line_texts(*a)[i as int] != line_texts(*b)[i as int]);
            return false;
        }
        i = i + 1;
    }
    assert(line_texts(*a) =~= line_texts(*b));
    true
}

fn same_lines(a: &Vec<[String; MACRO_LINES]>, b: &Vec<[String; MACRO_LINES]>) -> (r: bool)
    ensures
        r == (all_texts(a@) == all_texts(b@)),
{
    if a.len() != b.len() {
        assert(all_texts(a@).len() != all_texts(b@).len());
        return false;
    }
    let mut i: usize = 0;
    while i < a.len()
        invariant
            i <= a.len(),
            a@.len() == b@.len(),
            forall|k: int| 0 <= k < i ==> line_texts(#[trigger] a@[k]) == line_texts(b@[k]),
        decreases a.len() - i,
    {
        if !same_line_texts(&a[i], &b[i]) {
            assert(all_texts(a@)[i as int] != all_texts(b@)[i as int]);
            return false;
        }
        i = i + 1;
    }
    assert(all_texts(a@) =~= all_texts(b@));
    true
}

fn lines_of_page(page: &MacroPage, editor: &MacroEditorState) -> (out: Vec<[String; MACRO_LINES]>)
    ensures
        all_texts(out@) == overlaid(page@.macros, editor@),
{
    let mut out: Vec<[String; MACRO_LINES]> = Vec::new();
    let mut i: usize = 0;
    while i < MACROS_PER_PAGE
        invariant
            i <= MACROS_PER_PAGE,
            out@.len() == i,
            forall|k: int| 0 <= k < i ==> line_texts(#[trigger] out@[k]) == page@.macros[k],
        decreases MACROS_PER_PAGE - i,
    {
        assert(page@.macros[i as int] == page.macros[i as int]@);
        out.push(copy_lines(&page.macros[i].lines));
        i = i + 1;
    }
    assert(all_texts(out@) =~= page@.macros);
    if editor.editing && editor.slot < out.len() && editor.line < MACRO_LINES {
        let ghost before = out@;
        let slot: usize = editor.slot;
        let line: usize = editor.line;
        out[slot][line] = editor.draft.clone();
        proof {
            assert(line_texts(before[slot as int]) == page@.macros[slot as int]);
            assert(line_texts(out@[slot as int]) =~= page@.macros[slot as int].update(
                line as int,
                editor@.draft,
            ));
            assert(all_texts(out@) =~= overlaid(page@.macros, editor@));
        }
    }
    out
}

/// What the editor shows after it has been provided for.
pub open spec fn editor_provided(
    old_content: EditorContent,
    open_page: Option<(usize, usize)>,
    self_char_id: Option<u32>,
    books: Map<Seq<char>, Seq<BookText>>,
    focus: Focus,
) -> EditorContent {
    match open_page {
        None => if old_content.slot_labels.len() > 0 {
            no_content()
        } else {
            old_content
        },
        Some((book, page)) => {
            let own = seeded(books, key_of(self_char_id))[key_of(self_char_id)];
            if self_char_id is Some && book < own.len() && page < MACRO_PAGES {
                page_content(book, page, own[book as int].pages[page as int], focus)
            } else {
                no_content()
            }
        },
    }
}

/// Fills the editor from the page that it is open on, with the draft in place of
/// the line that is being typed. While it is closed, without a character, and
/// where the page is out of range it is emptied. The result says whether the
/// data was written: where it changes, and wherever an open editor is emptied.
pub fn macro_editor_provider_system(
    open_page: Option<(usize, usize)>,
    self_char_id: Option<u32>,
    macro_books: &mut MacroBooks,
    editor: &MacroEditorState,
    data: &mut MacroEditorData,
) -> (written: bool)
    requires
        old(macro_books).wf(),
    ensures
        final(macro_books).wf(),
        final(macro_books)@ == (if open_page is Some && self_char_id is Some {
            seeded(old(macro_books)@, key_of(self_char_id))
        } else {
            old(macro_books)@
        }),
        final(data)@ == editor_provided(
            old(data)@,
            open_page,
            self_char_id,
            old(macro_books)@,
            editor@,
        ),
        written == (match open_page {
            None => old(data)@.slot_labels.len() > 0,
            Some((book, page)) => {
                let own = seeded(old(macro_books)@, key_of(self_char_id))[key_of(self_char_id)];
                self_char_id is None || book >= own.len() || page >= MACRO_PAGES || final(data)@
                    != old(data)@
            },
        }),
{
    let (book, page) = match open_page {
        Some(p) => p,
        None => {
            if data.slot_labels.len() > 0 {
                *data = MacroEditorData::default();
                return true;
            }
            return false;
        },
    };
    if self_char_id.is_none() {
        *data = MacroEditorData::default();
        return true;
    }
    let key = char_key(self_char_id);
    let books = macro_books.get_or_default(key.as_str());
    if book >= books.books.len() || page >= MACRO_PAGES {
        *data = MacroEditorData::default();
        return true;
    }
    let content = &books.books[book].pages[page];
    let next = MacroEditorData {
        book,
        page,
        slot_labels: labels(content),
        lines: lines_of_page(content, editor),
        state: editor.snapshot(),
    };
    proof {
        assert(next@.slot_labels =~= texts(next.slot_labels@));
        assert(next@.lines =~= all_texts(next.lines@));
        assert(data@.slot_labels =~= texts(data.slot_labels@));
        assert(data@.lines =~= all_texts(data.lines@));
        assert(next@ =~= page_content(book, page, content@, editor@));
    }
    if data.book == next.book && data.page == next.page && same_texts(
        &data.slot_labels,
        &next.slot_labels,
    ) && same_lines(&data.lines, &next.lines) && data.state.slot == next.state.slot
        && data.state.line == next.state.line && data.state.editing == next.state.editing
        && data.state.draft == next.state.draft {
        assert(data@ =~= next@);
        false
    } else {
        *data = next;
        true
    }
}

/// Without a character the palette is empty. With one it shows the active page of
/// the character's books, and where there is no such page it stays as it is.
pub proof fn the_palette_follows_the_active_page(
    old_content: PaletteContent,
    self_char_id: Option<u32>,
    active_page: ActiveMacroPage,
    books: Map<Seq<char>, Seq<BookText>>,
    s: Sequence,
    i: int,
)
    ensures
        ({
            let shown = palette_provided(old_content, self_char_id, active_page, books, s);
            let own = seeded(books, key_of(self_char_id))[key_of(self_char_id)];
            let macros = own[active_page.book as int].pages[active_page.page as int].macros;
            let there = active_page.book < own.len() && active_page.page < 10;
            &&& self_char_id is None ==> shown.header.len() == 0
            &&& self_char_id is None && old_content.header.len() > 0 ==> shown.slots.len() == 0
                && shown.active is None
            &&& self_char_id is None && old_content.header.len() == 0 ==> shown == old_content
            &&& self_char_id is Some && !there ==> shown == old_content
            &&& self_char_id is Some && there ==> {
                &&& shown.header == "Book "@ + decimal((active_page.book + 1) as nat) + " / Page "@
                    + decimal((active_page.page + 1) as nat)
                &&& shown.slots.len() == macros.len()
                &&& 0 <= i < macros.len() ==> shown.slots[i] == label_of(macros[i])
            }
        }),
{
}

/// The editor is empty while it is closed, without a character, and on a page that
/// there is not. Else it shows that page of the character's books and the focus.
pub proof fn the_editor_follows_the_open_page(
    old_content: EditorContent,
    open_page: Option<(usize, usize)>,
    self_char_id: Option<u32>,
    books: Map<Seq<char>, Seq<BookText>>,
    focus: Focus,
    i: int,
)
    ensures
        ({
            let shown = editor_provided(old_content, open_page, self_char_id, books, focus);
            let own = seeded(books, key_of(self_char_id))[key_of(self_char_id)];
            let there = self_char_id is Some && (open_page matches Some((book, page)) && book
                < own.len() && page < 10);
            &&& !there ==> shown.slot_labels.len() == 0
            &&& !there && (open_page is Some || old_content.slot_labels.len() > 0)
                ==> shown.lines.len() == 0 && shown.book == 0 && shown.page == 0
                && !shown.focus.editing && shown.focus.slot == 0 && shown.focus.line == 0
                && shown.focus.draft.len() == 0
            &&& open_page is None && old_content.slot_labels.len() == 0 ==> shown == old_content
            &&& there ==> {
                let (book, page) = open_page->0;
                let macros = own[book as int].pages[page as int].macros;
                &&& shown.book == book
                &&& shown.page == page
                &&& shown.focus == focus
                &&& shown.slot_labels.len() == macros.len()
                &&& 0 <= i < macros.len() ==> shown.slot_labels[i] == label_of(macros[i])
                &&& 0 <= i < macros.len() && !(focus.editing && i == focus.slot) ==> shown.lines[i]
                    == macros[i]
                &&& focus.editing && focus.slot < macros.len() && focus.line < 6
                    ==> shown.lines[focus.slot as int] == macros[focus.slot as int].update(
                    focus.line as int,
                    focus.draft,
                )
            }
        }),
{
}

/// Providing a second time with the same books and focus writes nothing: what is
/// shown is already what it would be.
pub proof fn providing_is_idempotent(
    palette: PaletteContent,
    content: EditorContent,
    open_page: Option<(usize, usize)>,
    self_char_id: Option<u32>,
    active_page: ActiveMacroPage,
    books: Map<Seq<char>, Seq<BookText>>,
    s: Sequence,
    focus: Focus,
)
    ensures
        ({
            let once = palette_provided(palette, self_char_id, active_page, books, s);
            palette_provided(once, self_char_id, active_page, books, s) == once
        }),
        ({
            let once = editor_provided(content, open_page, self_char_id, books, focus);
            editor_provided(once, open_page, self_char_id, books, focus) == once
        }),
{
}

} // verus!
