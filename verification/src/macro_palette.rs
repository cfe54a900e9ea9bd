//! The palette: the macros of the active page, as short labels.
use crate::macros::{active_line, all_blank, first_active_of, line_texts, MACRO_LINES};
use crate::text::{is_printable, printable, printable_part, trim, trimmed, white_space};
use vstd::prelude::*;

verus! {

/// How many characters of a macro the palette shows.
pub const SLOT_LABEL_MAX_CHARS: usize = 10;

/// What the palette shows: a header, the labels of the slots, and the slot whose
/// macro is running.
#[derive(Debug, Clone)]
pub struct MacroPaletteData {
    pub header: String,
    pub slots: Vec<String>,
    pub active: Option<usize>,
}

/// Texts as sequences of characters.
pub open spec fn texts(v: Seq<String>) -> Seq<Seq<char>> {
    v.map_values(|s: String| s@)
}

/// What the palette shows, as text.
#[verifier::ext_equal]
pub struct PaletteContent {
    pub header: Seq<char>,
    pub slots: Seq<Seq<char>>,
    pub active: Option<usize>,
}

impl View for MacroPaletteData {
    type V = PaletteContent;

    open spec fn view(&self) -> PaletteContent {
        PaletteContent { header: self.header@, slots: texts(self.slots@), active: self.active }
    }
}

/// An empty palette.
pub open spec fn no_palette() -> PaletteContent {
    PaletteContent { header: Seq::empty(), slots: Seq::empty(), active: None }
}

/// A cell of text on the screen, highlighted or not.
#[derive(Debug, Clone)]
pub struct Cell {
    pub text: String,
    pub highlighted: bool,
}

/// The palette as it is drawn.
#[derive(Debug, Clone)]
pub struct PaletteView {
    pub visible: bool,
    pub header: String,
    pub cells: Vec<Cell>,
}

/// The text at a place, or none behind the last.
pub open spec fn text_at(texts: Seq<String>, i: int) -> Seq<char> {
    if 0 <= i < texts.len() {
        texts[i]@
    } else {
        Seq::empty()
    }
}

/// The text at a place, or none behind the last.
pub fn text_or_empty(texts: &Vec<String>, i: usize) -> (s: String)
    ensures
        s@ == text_at(texts@, i as int),
        i < texts@.len() ==> s@ == texts@[i as int]@,
        i >= texts@.len() ==> s@.len() == 0,
{
    if i < texts.len() {
        texts[i].clone()
    } else {
        String::new()
    }
}

impl Default for MacroPaletteData {
    fn default() -> (d: MacroPaletteData)
        ensures
            d@ == no_palette(),
    {
        let d = MacroPaletteData { header: String::new(), slots: Vec::new(), active: None };
        assert(d@ =~= no_palette());
        d
    }
}

impl MacroPaletteData {
    /// Whether there is anything to show: a palette without a header is hidden.
    pub fn visible(&self) -> (b: bool)
        ensures
            b == (self.header@.len() > 0),
    {
        !self.header.as_str().is_empty()
    }
}

/// The first characters of a text, no more than `most`.
pub open spec fn at_most(s: Seq<char>, most: nat) -> Seq<char> {
    if s.len() <= most {
        s
    } else {
        s.take(most as int)
    }
}

/// The label of a macro: of its first line that is not blank the first ten
/// printable characters, without white space at either end. Nothing where every
/// line is blank.
pub open spec fn label_of(lines: Seq<Seq<char>>) -> Seq<char> {
    match active_line(lines) {
        Some(line) => trimmed(at_most(printable_part(line), SLOT_LABEL_MAX_CHARS as nat)),
        None => Seq::empty(),
    }
}

/// The first printable characters of a line.
fn shortened(line: &str) -> (s: String)
    ensures
        s@ == at_most(printable_part(line@), SLOT_LABEL_MAX_CHARS as nat),
{
    let mut s = String::new();
    let mut kept: usize = 0;
    let ghost keep = |c: char| printable(c);
    assert(s@ =~= at_most(printable_part(line@.take(0)), SLOT_LABEL_MAX_CHARS as nat));
    for c in it: line.chars()
        invariant
            it.seq() == line@,
            keep == (|c: char| printable(c)),
            kept == s@.len(),
            kept <= SLOT_LABEL_MAX_CHARS,
            s@ == at_most(
                printable_part(line@.take(it.index() as int)),
                SLOT_LABEL_MAX_CHARS as nat,
            ),
    {
        proof {
            let shorter = line@.take(it.index() as int);
            let longer = line@.take(it.index() as int + 1);
            assert(longer.drop_last() =~= shorter);
            assert(longer.last() == c);
            reveal(Seq::filter);
            assert(printable_part(longer) == if printable(c) {
                printable_part(shorter).push(c)
            } else {
                printable_part(shorter)
            });
        }
        let ghost before = s@;
        if is_printable(c) && kept < SLOT_LABEL_MAX_CHARS {
            s.push(c);
            kept = kept + 1;
        }
        proof {
            let shorter = printable_part(line@.take(it.index() as int));
            let longer = printable_part(line@.take(it.index() as int + 1));
            assert(s@ =~= at_most(longer, SLOT_LABEL_MAX_CHARS as nat));
        }
    }
    assert(line@.take(line@.len() as int) =~= line@);
    s
}

/// The label of a macro with these lines.
pub fn slot_label(macro_lines: &[String; MACRO_LINES]) -> (s: String)
    ensures
        s@ == label_of(line_texts(*macro_lines)),
{
    match first_active_of(macro_lines) {
        Some(line) => trim(shortened(line).as_str()).to_owned(),
        None => String::new(),
    }
}

/// A label is short, consists of printable characters, and has no white space at
/// either end. A macro that holds nothing has none.
pub proof fn labels_are_short_and_printable(lines: Seq<Seq<char>>)
    ensures
        label_of(lines).len() <= SLOT_LABEL_MAX_CHARS,
        forall|i: int| 0 <= i < label_of(lines).len() ==> printable(#[trigger] label_of(lines)[i]),
        label_of(lines).len() > 0 ==> !white_space(label_of(lines).first()) && !white_space(
            label_of(lines).last(),
        ),
        all_blank(lines) ==> label_of(lines).len() == 0,
{
    crate::macros::active_line_exists(lines);
    if let Some(line) = active_line(lines) {
        let keep = |c: char| printable(c);
        let kept = at_most(printable_part(line), SLOT_LABEL_MAX_CHARS as nat);
        crate::text::trimming_is_idempotent(kept);
        let (a, b) = crate::text::trimmed_is_a_part(kept);
        assert forall|i: int| 0 <= i < label_of(lines).len() implies printable(
            #[trigger] label_of(lines)[i],
        ) by {
            assert(trimmed(kept)[i] == kept[a + i]);
            line.lemma_filter_pred(keep, a + i);
        }
    }
}

/// A label shows the first line that is not blank: of its printable characters
/// the first ten, or all where there are fewer, without white space at either
/// end. A short line of printable characters is shown whole.
pub proof fn labels_show_the_first_active_line(lines: Seq<Seq<char>>, k: int)
    requires
        0 <= k < lines.len(),
        !crate::text::blank(lines[k]),
        forall|i: int| 0 <= i < k ==> crate::text::blank(#[trigger] lines[i]),
    ensures
        ({
            let shown = printable_part(lines[k]);
            let n = if shown.len() < 10 {
                shown.len() as int
            } else {
                10
            };
            label_of(lines) == trimmed(shown.take(n))
        }),
        lines[k].len() <= 10 && (forall|i: int|
            0 <= i < lines[k].len() ==> '\u{20}' <= #[trigger] lines[k][i] <= '\u{7e}')
            ==> label_of(lines) == trimmed(lines[k]),
{
    crate::macros::active_line_is_first(lines, k);
    let shown = printable_part(lines[k]);
    assert(shown.take(shown.len() as int) =~= shown);
    if lines[k].len() <= 10 && (forall|i: int|
        0 <= i < lines[k].len() ==> '\u{20}' <= #[trigger] lines[k][i] <= '\u{7e}') {
        crate::text::printable_text_stays(lines[k]);
    }
}

/// The palette as it is drawn with the given number of cells: the header, and in
/// each cell the label of its slot. The cell of the running macro is highlighted.
pub fn update_macro_palette(data: &MacroPaletteData, cells: usize) -> (v: PaletteView)
    ensures
        v.visible == (data.header@.len() > 0),
        v.header@ == data.header@,
        v.cells@.len() == cells,
        forall|i: int|
            0 <= i < cells ==> {
                &&& (#[trigger] v.cells@[i]).text@ == text_at(data.slots@, i)
                &&& v.cells@[i].highlighted == (data.active == Some(i as usize))
                &&& i < data.slots@.len() ==> v.cells@[i].text@ == data.slots@[i]@
                &&& i >= data.slots@.len() ==> v.cells@[i].text@.len() == 0
            },
{
    let mut out: Vec<Cell> = Vec::new();
    let mut i: usize = 0;
    while i < cells
        invariant
            i <= cells,
            out@.len() == i,
            forall|k: int|
                0 <= k < i ==> {
                    &&& (#[trigger] out@[k]).text@ == text_at(data.slots@, k)
                    &&& out@[k].highlighted == (data.active == Some(k as usize))
                },
        decreases cells - i,
    {
        let highlighted = match data.active {
            Some(slot) => slot == i,
            None => false,
        };
        out.push(Cell { text: text_or_empty(&data.slots, i), highlighted });
        i = i + 1;
    }
    PaletteView { visible: data.visible(), header: data.header.clone(), cells: out }
}

} // verus!
