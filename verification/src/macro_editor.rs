//! The macro editor: which slot and line are in focus, what is being typed, and
//! what the screen shows of it.
use crate::macro_palette::{text_at, text_or_empty, Cell};
use crate::macros::{line_texts, MACRO_LINES};
use crate::text::{decimal, decimal_text};
use vstd::prelude::*;

verus! {

/// How many slots a row has.
pub const MACRO_EDITOR_COLUMNS: usize = 10;

/// What is in focus: a slot of the page, and while a line is being typed that
/// line and the draft of it.
#[derive(Debug, Clone)]
pub struct MacroEditorState {
    /// The slot in focus: the upper row counts from 0, the lower from 10.
    pub slot: usize,
    /// The line in focus while editing.
    pub line: usize,
    /// What has been typed for the line.
    pub draft: String,
    /// Whether a line is being typed.
    pub editing: bool,
}

/// The focus with its draft as text.
#[verifier::ext_equal]
pub struct Focus {
    pub slot: usize,
    pub line: usize,
    pub draft: Seq<char>,
    pub editing: bool,
}

impl View for MacroEditorState {
    type V = Focus;

    open spec fn view(&self) -> Focus {
        Focus { slot: self.slot, line: self.line, draft: self.draft@, editing: self.editing }
    }
}

/// The first slot, with nothing being typed.
pub open spec fn no_focus() -> Focus {
    Focus { slot: 0, line: 0, draft: Seq::empty(), editing: false }
}

impl Default for MacroEditorState {
    fn default() -> (s: MacroEditorState)
        ensures
            s@ == no_focus(),
    {
        MacroEditorState { slot: 0, line: 0, draft: String::new(), editing: false }
    }
}

impl MacroEditorState {
    /// Goes back to the first slot and drops the draft.
    pub fn reset(&mut self)
        ensures
            final(self)@ == no_focus(),
    {
        *self = MacroEditorState::default();
    }

    /// A copy of the state.
    pub fn snapshot(&self) -> (s: MacroEditorState)
        ensures
            s@ == self@,
    {
        MacroEditorState {
            slot: self.slot,
            line: self.line,
            draft: self.draft.clone(),
            editing: self.editing,
        }
    }
}

/// What the editor shows: the labels and the lines of every macro of a page, and
/// the focus. It is empty while the editor is closed.
#[derive(Debug, Clone)]
pub struct MacroEditorData {
    pub book: usize,
    pub page: usize,
    pub slot_labels: Vec<String>,
    pub lines: Vec<[String; MACRO_LINES]>,
    pub state: MacroEditorState,
}

/// The content of the editor as text.
#[verifier::ext_equal]
pub struct EditorContent {
    pub book: usize,
    pub page: usize,
    pub slot_labels: Seq<Seq<char>>,
    pub lines: Seq<Seq<Seq<char>>>,
    pub focus: Focus,
}

impl View for MacroEditorData {
    type V = EditorContent;

    open spec fn view(&self) -> EditorContent {
        EditorContent {
            book: self.book,
            page: self.page,
            slot_labels: self.slot_labels@.map_values(|s: String| s@),
            lines: self.lines@.map_values(|l: [String; MACRO_LINES]| line_texts(l)),
            focus: self.state@,
        }
    }
}

/// The content while the editor is closed.
pub open spec fn no_content() -> EditorContent {
    EditorContent {
        book: 0,
        page: 0,
        slot_labels: Seq::empty(),
        lines: Seq::empty(),
        focus: no_focus(),
    }
}

impl Default for MacroEditorData {
    fn default() -> (d: MacroEditorData)
        ensures
            d@ == no_content(),
    {
        let d = MacroEditorData {
            book: 0,
            page: 0,
            slot_labels: Vec::new(),
            lines: Vec::new(),
            state: MacroEditorState::default(),
        };
        assert(d@ =~= no_content());
        d
    }
}

impl MacroEditorData {
    /// Whether the editor is open: it then has slots.
    pub fn visible(&self) -> (b: bool)
        ensures
            b == (self@.slot_labels.len() > 0),
    {
        self.slot_labels.len() > 0
    }
}

/// The place of a slot that starts its row.
pub open spec fn row_start(slot: int) -> int {
    slot / MACRO_EDITOR_COLUMNS as int * MACRO_EDITOR_COLUMNS as int
}

/// The place of a slot in its row.
pub open spec fn column(slot: int) -> int {
    slot % MACRO_EDITOR_COLUMNS as int
}

/// The header: book and page counted from one, and the hotkey of the slot. The
/// first row is under Ctrl, and the last key of a row is the zero.
pub open spec fn editor_header(book: nat, page: nat, slot: nat) -> Seq<char> {
    let key = if column(slot as int) == MACRO_EDITOR_COLUMNS - 1 {
        0
    } else {
        (column(slot as int) + 1) as nat
    };
    "Book "@ + decimal(book + 1) + " / Page "@ + decimal(page + 1) + " - "@ + (if row_start(
        slot as int,
    ) == 0 {
        "Ctrl"@
    } else {
        "Alt"@
    }) + " macro "@ + decimal(key)
}

/// What line `i` shows: the draft with the caret behind it where the line is
/// being typed, else the line of the macro in focus.
pub open spec fn line_shown(data: EditorContent, i: int) -> Seq<char> {
    if data.focus.editing && i == data.focus.line {
        data.focus.draft + "_"@
    } else if data.focus.slot < data.lines.len() && 0 <= i < MACRO_LINES {
        data.lines[data.focus.slot as int][i]
    } else {
        Seq::empty()
    }
}

/// Rows have ten slots: a slot is its place in its row behind the start of the
/// row, and that is a multiple of ten.
pub proof fn rows_have_ten_slots(slot: int)
    requires
        slot >= 0,
    ensures
        row_start(slot) + column(slot) == slot,
        row_start(slot) % 10 == 0,
        0 <= column(slot) < 10,
{
}

/// The header names the book and the page, counted from one, and the hotkey that
/// stands for the slot: Ctrl for the first ten slots and Alt for the others, with
/// the digits 1 to 9 and then 0 along a row.
pub proof fn the_header_names_the_hotkey(book: nat, page: nat, row: nat, digit: nat)
    requires
        digit <= 9,
    ensures
        ({
            let column = if digit == 0 {
                9
            } else {
                (digit - 1) as nat
            };
            editor_header(book, page, 10 * row + column) == "Book "@ + decimal(book + 1)
                + " / Page "@ + decimal(page + 1) + " - "@ + (if row == 0 {
                "Ctrl"@
            } else {
                "Alt"@
            }) + " macro "@ + decimal(digit)
        }),
{
}

/// Every line shows what the macro in focus has there, but the one that is being
/// typed shows the draft and the caret. Behind the lines of a macro, and without a
/// macro in focus, nothing is shown.
pub proof fn only_the_typed_line_shows_the_draft(data: EditorContent, i: int)
    requires
        0 <= i,
    ensures
        data.focus.editing && i == data.focus.line ==> line_shown(data, i)
            == data.focus.draft.push('_'),
        !(data.focus.editing && i == data.focus.line) && data.focus.slot < data.lines.len() && i
            < 6 ==> line_shown(data, i) == data.lines[data.focus.slot as int][i],
        !(data.focus.editing && i == data.focus.line) && (data.focus.slot >= data.lines.len() || i
            >= 6) ==> line_shown(data, i).len() == 0,
{
    reveal_strlit("_");
    assert(data.focus.draft + "_"@ =~= data.focus.draft.push('_'));
}

/// The editor as it is drawn.
#[derive(Debug, Clone)]
pub struct EditorView {
    pub header: String,
    pub slots: Vec<Cell>,
    pub lines: Vec<Cell>,
}

fn header_text(book: usize, page: usize, slot: usize) -> (s: String)
    requires
        book < usize::MAX,
        page < usize::MAX,
    ensures
        s@ == editor_header(book as nat, page as nat, slot as nat),
{
    let col: usize = slot % MACRO_EDITOR_COLUMNS;
    let key: usize = if col == MACRO_EDITOR_COLUMNS - 1 {
        0
    } else {
        col + 1
    };
    let mut s = "Book ".to_owned();
    s.append(decimal_text((book + 1) as u64).as_str());
    s.append(" / Page ");
    s.append(decimal_text((page + 1) as u64).as_str());
    s.append(" - ");
    s.append(
        if slot / MACRO_EDITOR_COLUMNS * MACRO_EDITOR_COLUMNS == 0 {
            "Ctrl"
        } else {
            "Alt"
        },
    );
    s.append(" macro ");
    s.append(decimal_text(key as u64).as_str());
    s
}

fn line_text(data: &MacroEditorData, i: usize) -> (s: String)
    ensures
        s@ == line_shown(data@, i as int),
{
    if data.state.editing && i == data.state.line {
        let mut s = data.state.draft.clone();
        s.append("_");
        s
    } else if data.state.slot < data.lines.len() && i < MACRO_LINES {
        data.lines[data.state.slot][i].clone()
    } else {
        String::new()
    }
}

/// The editor as it is drawn with the given numbers of cells, or `None` where it
/// is hidden: the header, the row of the slot in focus with that slot
/// highlighted, and the lines of its macro. The line that is being typed is
/// highlighted.
pub fn update_macro_editor(data: &MacroEditorData, columns: usize, rows: usize) -> (v: Option<
    EditorView,
>)
    requires
        data.slot_labels@.len() > 0 ==> {
            &&& data.book < usize::MAX
            &&& data.page < usize::MAX
            &&& data.state.slot + columns <= usize::MAX
        },
    ensures
        v is Some <==> data@.slot_labels.len() > 0,
        v matches Some(v) ==> {
            &&& v.header@ == editor_header(
                data.book as nat,
                data.page as nat,
                data.state.slot as nat,
            )
            &&& v.slots@.len() == columns
            &&& forall|i: int|
                0 <= i < columns ==> {
                    &&& (#[trigger] v.slots@[i]).text@ == text_at(
                        data.slot_labels@,
                        row_start(data.state.slot as int) + i,
                    )
                    &&& v.slots@[i].highlighted == (i == column(data.state.slot as int))
                }
            &&& v.lines@.len() == rows
            &&& forall|i: int|
                0 <= i < rows ==> {
                    &&& (#[trigger] v.lines@[i]).text@ == line_shown(data@, i)
                    &&& v.lines@[i].highlighted == (data.state.editing && i == data.state.line)
                }
            &&& forall|i: int|
                0 <= i < columns ==> {
                    let slot = data.state.slot - data.state.slot as int % 10 + i;
                    &&& slot < data.slot_labels@.len() ==> (#[trigger] v.slots@[i]).text@
                        == data.slot_labels@[slot]@
                    &&& slot >= data.slot_labels@.len() ==> v.slots@[i].text@.len() == 0
                    &&& v.slots@[i].highlighted <==> slot == data.state.slot
                }
        },
{
    if !data.visible() {
        return None;
    }
    let row_base: usize = data.state.slot / MACRO_EDITOR_COLUMNS * MACRO_EDITOR_COLUMNS;
    let col: usize = data.state.slot % MACRO_EDITOR_COLUMNS;
    let mut slots: Vec<Cell> = Vec::new();
    let mut i: usize = 0;
    while i < columns
        invariant
            i <= columns,
            data.state.slot + columns <= usize::MAX,
            row_base == row_start(data.state.slot as int),
            row_base <= data.state.slot,
            col == column(data.state.slot as int),
            slots@.len() == i,
            forall|k: int|
                0 <= k < i ==> {
                    &&& (#[trigger] slots@[k]).text@ == text_at(data.slot_labels@, row_base + k)
                    &&& slots@[k].highlighted == (k == col)
                },
        decreases columns - i,
    {
        slots.push(
            Cell { text: text_or_empty(&data.slot_labels, row_base + i), highlighted: i == col },
        );
        i = i + 1;
    }
    let mut lines: Vec<Cell> = Vec::new();
    let mut j: usize = 0;
    while j < rows
        invariant
            j <= rows,
            lines@.len() == j,
            forall|k: int|
                0 <= k < j ==> {
                    &&& (#[trigger] lines@[k]).text@ == line_shown(data@, k)
                    &&& lines@[k].highlighted == (data.state.editing && k == data.state.line)
                },
        decreases rows - j,
    {
        lines.push(
            Cell {
                text: line_text(data, j),
                highlighted: data.state.editing && j == data.state.line,
            },
        );
        j = j + 1;
    }
    Some(EditorView { header: header_text(data.book, data.page, data.state.slot), slots, lines })
}

} // verus!
