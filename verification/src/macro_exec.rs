//! Running a macro: its lines are queued, and leave the queue one by one, with
//! the waits that stand between them.
use crate::kept::{count_kept, count_kept_grows};
use crate::macro_store::{char_key, key_of, seeded, MacroBooks};
use crate::macros::{
    all_blank, no_lines, slot_from_modifier_digit, slot_of_hotkey, ActiveMacroPage, BookText, Macro,
    MacroBook, MACROS_PER_PAGE, MACRO_BOOKS, MACRO_LINES, MACRO_PAGES,
};
use crate::scalar::{Scalar, ZERO_BITS};
use crate::text::{blank, starts_with_char, strip_prefix, trim, trimmed, white_space};
use std::collections::VecDeque;
use vstd::prelude::*;

verus! {

/// The chat channel that lines without a command go to.
pub const SAY_KIND: u8 = 0;

/// A line of a macro that waits for its turn: one to be sent, or a pause in
/// seconds.
#[derive(Debug, Clone)]
pub enum QueuedLine {
    Chat(String),
    Wait(Scalar),
}

/// A queued line as text.
pub enum LineText {
    Chat(Seq<char>),
    Wait(Scalar),
}

impl View for QueuedLine {
    type V = LineText;

    open spec fn view(&self) -> LineText {
        match *self {
            QueuedLine::Chat(s) => LineText::Chat(s@),
            QueuedLine::Wait(d) => LineText::Wait(d),
        }
    }
}

/// The macro that is running.
#[derive(Debug)]
pub struct MacroSequencer {
    /// The lines that are left.
    pub pending: VecDeque<QueuedLine>,
    /// The seconds that are left of a pause.
    pub wait_remaining: Scalar,
    /// A macro was fired, and nothing of it has run.
    pub armed: bool,
    /// The slot that is executing, which the palette highlights. `None` when
    /// idle.
    pub active_slot: Option<usize>,
}

/// The running macro as text.
#[verifier::ext_equal]
pub struct Sequence {
    pub pending: Seq<LineText>,
    pub wait_remaining: Scalar,
    pub armed: bool,
    pub active_slot: Option<usize>,
}

impl View for MacroSequencer {
    type V = Sequence;

    open spec fn view(&self) -> Sequence {
        Sequence {
            pending: self.pending@.map_values(|l: QueuedLine| l@),
            wait_remaining: self.wait_remaining,
            armed: self.armed,
            active_slot: self.active_slot,
        }
    }
}

/// Zero seconds.
pub open spec fn no_time() -> Scalar {
    Scalar { bits: ZERO_BITS }
}

/// No macro is running.
pub open spec fn idle() -> Sequence {
    Sequence {
        pending: Seq::empty(),
        wait_remaining: no_time(),
        armed: false,
        active_slot: None,
    }
}

/// Something of a macro is still to come.
pub open spec fn busy(s: Sequence) -> bool {
    s.armed || s.pending.len() > 0
}

impl Default for MacroSequencer {
    fn default() -> (s: MacroSequencer)
        ensures
            s@ == idle(),
            s.pending@.len() == 0,
            s.wait_remaining.bits == 0,
            !s.armed,
            s.active_slot is None,
    {
        let s = MacroSequencer {
            pending: VecDeque::new(),
            wait_remaining: Scalar { bits: ZERO_BITS },
            armed: false,
            active_slot: None,
        };
        assert(s@ =~= idle());
        s
    }
}

impl MacroSequencer {
    /// Whether something of a macro is still to come.
    pub fn is_busy(&self) -> (b: bool)
        ensures
            b == busy(self@),
            b <==> self.armed || self.pending@.len() > 0,
    {
        self.armed || self.pending.len() > 0
    }

    /// Drops the macro that is running.
    pub fn clear(&mut self)
        ensures
            final(self)@ == idle(),
            final(self).pending@.len() == 0,
            final(self).wait_remaining.bits == 0,
            !final(self).armed,
            final(self).active_slot is None,
    {
        *self = MacroSequencer::default();
    }
}

/// The text behind the word that asks for a pause, without white space at either
/// end. `None` where the line does not start with the word.
pub open spec fn wait_argument_of(line: Seq<char>) -> Option<Seq<char>> {
    if "/wait"@.is_prefix_of(line) {
        Some(trimmed(line.skip("/wait"@.len() as int)))
    } else if "/Wait"@.is_prefix_of(line) {
        Some(trimmed(line.skip("/Wait"@.len() as int)))
    } else {
        None
    }
}

/// The line starts with the word that asks for a pause, with a small or a capital
/// letter behind the slash.
pub open spec fn starts_a_pause(line: Seq<char>) -> bool {
    &&& line.len() >= 5
    &&& line[0] == '/'
    &&& line[1] == 'w' || line[1] == 'W'
    &&& line[2] == 'a'
    &&& line[3] == 'i'
    &&& line[4] == 't'
}

/// A line that starts with the word has what comes behind its five characters as
/// the number to read, without white space at either end. No other line has one.
pub proof fn pauses_are_read_behind_the_word(line: Seq<char>)
    ensures
        starts_a_pause(line) ==> wait_argument_of(line) == Some(trimmed(line.skip(5))),
        !starts_a_pause(line) ==> wait_argument_of(line) is None,
{
    reveal_strlit("/wait");
    reveal_strlit("/Wait");
    if line.len() >= 5 {
        let start = line.subrange(0, 5);
        assert(start[0] == line[0] && start[1] == line[1] && start[2] == line[2] && start[3]
            == line[3] && start[4] == line[4]);
        if starts_a_pause(line) {
            if line[1] == 'w' {
                assert("/wait"@ =~= start);
            } else {
                assert("/Wait"@ =~= start);
            }
        }
    }
}

/// The text behind the word that asks for a pause: what is to be read as a
/// number of seconds.
pub fn wait_argument(line: &str) -> (r: Option<&str>)
    ensures
        match r {
            Some(s) => wait_argument_of(line@) == Some(s@),
            None => wait_argument_of(line@) is None,
        },
{
    match strip_prefix(line, "/wait") {
        Some(rest) => Some(trim(rest)),
        None => match strip_prefix(line, "/Wait") {
            Some(rest) => Some(trim(rest)),
            None => None,
        },
    }
}

/// The pause that a line asks for, given the number that the text behind the
/// word reads as. A pause is finite and longer than nothing.
pub open spec fn wait_delay(line: Seq<char>, number: Option<Scalar>) -> Option<Scalar> {
    match number {
        Some(d) => if wait_argument_of(line) is Some && d.finite() && d.exceeds(no_time()) {
            Some(d)
        } else {
            None
        },
        None => None,
    }
}

/// A line asks for a pause where it starts with the word and the text behind that
/// reads as a finite number above zero. The pause is that number.
pub proof fn pauses_are_finite_and_positive(line: Seq<char>, number: Option<Scalar>)
    ensures
        wait_delay(line, number) is Some <==> starts_a_pause(line) && (number matches Some(d)
            && d.finite() && d.ordinal() > 0),
        wait_delay(line, number) is Some ==> wait_delay(line, number) == number,
{
    pauses_are_read_behind_the_word(line);
}

/// The pause that a line asks for, if it asks for one. The number is the one
/// that the text behind the word reads as.
pub fn parse_wait_delay(line: &str, number: Option<Scalar>) -> (r: Option<Scalar>)
    ensures
        r == wait_delay(line@, number),
{
    match number {
        Some(d) => if wait_argument(line).is_some() && d.is_finite() && d.gt(
            Scalar { bits: ZERO_BITS },
        ) {
            Some(d)
        } else {
            None
        },
        None => None,
    }
}

/// The texts that a macro's lines ask to be read as numbers, line by line.
pub fn wait_arguments(m: &Macro) -> (out: Vec<Option<String>>)
    ensures
        out@.len() == MACRO_LINES,
        forall|i: int|
            0 <= i < MACRO_LINES ==> match #[trigger] out@[i] {
                Some(s) => wait_argument_of(trimmed(m@[i])) == Some(s@),
                None => wait_argument_of(trimmed(m@[i])) is None,
            },
{
    let mut out: Vec<Option<String>> = Vec::new();
    let mut i: usize = 0;
    while i < MACRO_LINES
        invariant
            i <= MACRO_LINES,
            out@.len() == i,
            forall|k: int|
                0 <= k < i ==> match #[trigger] out@[k] {
                    Some(s) => wait_argument_of(trimmed(m@[k])) == Some(s@),
                    None => wait_argument_of(trimmed(m@[k])) is None,
                },
        decreases MACRO_LINES - i,
    {
        assert(m@[i as int] == m.lines[i as int]@);
        let text = match wait_argument(trim(m.lines[i].as_str())) {
            Some(s) => Some(s.to_owned()),
            None => None,
        };
        out.push(text);
        i = i + 1;
    }
    out
}

/// A line as it is queued: a pause where it asks for one, else as it is.
pub open spec fn queued(line: Seq<char>, number: Option<Scalar>) -> LineText {
    match wait_delay(line, number) {
        Some(d) => LineText::Wait(d),
        None => LineText::Chat(line),
    }
}

/// What the first lines of a macro queue: each line that is not blank, without
/// white space at either end, in their order.
pub open spec fn queued_lines(
    lines: Seq<Seq<char>>,
    numbers: Seq<Option<Scalar>>,
    count: nat,
) -> Seq<LineText>
    decreases count,
{
    if count == 0 {
        Seq::empty()
    } else {
        let before = queued_lines(lines, numbers, (count - 1) as nat);
        if blank(lines[count - 1]) {
            before
        } else {
            before.push(queued(trimmed(lines[count - 1]), numbers[count - 1]))
        }
    }
}

/// Everything that is queued can be carried out: no line is empty or has white
/// space at either end, and every pause is finite and longer than nothing.
pub proof fn queued_lines_can_be_carried_out(
    lines: Seq<Seq<char>>,
    numbers: Seq<Option<Scalar>>,
    count: nat,
)
    ensures
        queued_lines(lines, numbers, count).len() <= count,
        forall|i: int|
            0 <= i < queued_lines(lines, numbers, count).len() ==> match #[trigger] queued_lines(
                lines,
                numbers,
                count,
            )[i] {
                LineText::Chat(t) => t.len() > 0 && !white_space(t.first()) && !white_space(
                    t.last(),
                ),
                LineText::Wait(d) => d.finite() && d.exceeds(no_time()),
            },
    decreases count,
{
    if count > 0 {
        queued_lines_can_be_carried_out(lines, numbers, (count - 1) as nat);
        crate::text::blank_trims_to_nothing(lines[count - 1]);
        crate::text::trimming_is_idempotent(lines[count - 1]);
    }
}

proof fn lemma_queued_in_order(
    lines: Seq<Seq<char>>,
    numbers: Seq<Option<Scalar>>,
    count: nat,
    i: int,
)
    requires
        0 <= i < count,
    ensures
        ({
            let full = |l: Seq<char>| !blank(l);
            let out = queued_lines(lines, numbers, count);
            let place = count_kept(lines, full, i);
            &&& out.len() == count_kept(lines, full, count as int)
            &&& !blank(lines[i]) ==> 0 <= place < out.len() && out[place] == queued(
                trimmed(lines[i]),
                numbers[i],
            )
        }),
    decreases count,
{
    let full = |l: Seq<char>| !blank(l);
    let shorter = (count - 1) as nat;
    count_kept_grows(lines, full, i, count as int);
    if count == 1 {
        assert(queued_lines(lines, numbers, 0).len() == 0);
        assert(count_kept(lines, full, 0) == 0);
    } else if i < count - 1 {
        count_kept_grows(lines, full, i, shorter as int);
        lemma_queued_in_order(lines, numbers, shorter, i);
    } else {
        lemma_queued_in_order(lines, numbers, shorter, 0);
    }
}

/// The queued line is what a line of a macro, which is not blank, comes to: the
/// pause of its number where it starts one and that is finite and above zero,
/// else the line itself without white space at either end.
pub open spec fn queued_as(entry: LineText, line: Seq<char>, number: Option<Scalar>) -> bool {
    if starts_a_pause(trimmed(line)) && (number matches Some(d) && d.finite() && d.ordinal() > 0) {
        entry == LineText::Wait(number->0)
    } else {
        entry == LineText::Chat(trimmed(line))
    }
}

/// Firing a macro queues all of it: as many entries as it has lines that are not
/// blank, each of them, and in their order. A line comes behind as many as are
/// not blank before it. Nothing of a pause is left, and the slot executes.
pub proof fn every_line_is_queued_in_order(
    s: Sequence,
    slot: usize,
    page: usize,
    book: BookText,
    numbers: Seq<Option<Scalar>>,
    i: int,
)
    requires
        page < 10,
        slot < 20,
        0 <= i < 6,
        !all_blank(book.pages[page as int].macros[slot as int]),
    ensures
        ({
            let lines = book.pages[page as int].macros[slot as int];
            let full = |l: Seq<char>| !blank(l);
            let after = after_firing(s, slot, page, book, numbers);
            let place = count_kept(lines, full, i);
            &&& after.pending.len() == count_kept(lines, full, 6)
            &&& !blank(lines[i]) ==> 0 <= place < after.pending.len() && queued_as(
                after.pending[place],
                lines[i],
                numbers[i],
            )
            &&& after.wait_remaining.bits == 0
            &&& after.armed
            &&& after.active_slot == Some(slot)
        }),
{
    let lines = book.pages[page as int].macros[slot as int];
    lemma_queued_in_order(lines, numbers, 6, i);
    pauses_are_finite_and_positive(trimmed(lines[i]), numbers[i]);
}

/// Firing a slot or a page that there is not, or a macro that holds nothing,
/// changes nothing.
pub proof fn firing_nothing_changes_nothing(
    s: Sequence,
    slot: usize,
    page: usize,
    book: BookText,
    numbers: Seq<Option<Scalar>>,
)
    requires
        page >= 10 || slot >= 20 || forall|i: int|
            0 <= i < book.pages[page as int].macros[slot as int].len() ==> blank(
                #[trigger] book.pages[page as int].macros[slot as int][i],
            ),
    ensures
        after_firing(s, slot, page, book, numbers) == s,
{
}

/// A macro that was just fired: its lines are queued and nothing else.
pub open spec fn fired(
    slot: usize,
    lines: Seq<Seq<char>>,
    numbers: Seq<Option<Scalar>>,
) -> Sequence {
    Sequence {
        pending: queued_lines(lines, numbers, MACRO_LINES as nat),
        wait_remaining: no_time(),
        armed: true,
        active_slot: Some(slot),
    }
}

/// The running macro after a slot of a page has been fired: that slot's, if there
/// is one and it holds anything.
pub open spec fn after_firing(
    s: Sequence,
    slot: usize,
    page: usize,
    book: BookText,
    numbers: Seq<Option<Scalar>>,
) -> Sequence {
    if page < MACRO_PAGES && slot < MACROS_PER_PAGE && !all_blank(
        book.pages[page as int].macros[slot as int],
    ) {
        fired(slot, book.pages[page as int].macros[slot as int], numbers)
    } else {
        s
    }
}

/// Firing a macro that holds anything cancels the one that is running: what comes
/// then does not depend on it.
pub proof fn firing_cancels_the_running_macro(
    a: Sequence,
    b: Sequence,
    slot: usize,
    page: usize,
    book: BookText,
    numbers: Seq<Option<Scalar>>,
)
    requires
        page < MACRO_PAGES,
        slot < MACROS_PER_PAGE,
        !all_blank(book.pages[page as int].macros[slot as int]),
    ensures
        after_firing(a, slot, page, book, numbers) == after_firing(b, slot, page, book, numbers),
        busy(after_firing(a, slot, page, book, numbers)),
        after_firing(a, slot, page, book, numbers).active_slot == Some(slot),
{
}

/// Fires the macro in a slot of a page, in place of the one that is running. A
/// slot that holds nothing changes nothing. The numbers are those that the texts
/// behind the macro's pauses read as, line by line.
pub fn fire_macro(
    slot: usize,
    page: usize,
    book: &MacroBook,
    numbers: &[Option<Scalar>; MACRO_LINES],
    sequencer: &mut MacroSequencer,
)
    ensures
        final(sequencer)@ == after_firing(old(sequencer)@, slot, page, book@, numbers@),
        page < 10 && slot < 20 && !all_blank(book.pages[page as int].macros[slot as int]@) ==> {
            let lines = book.pages[page as int].macros[slot as int]@;
            let full = |l: Seq<char>| !blank(l);
            &&& final(sequencer).pending@.len() == count_kept(lines, full, 6)
            &&& forall|i: int|
                0 <= i < 6 && !blank(#[trigger] lines[i]) ==> queued_as(
                    final(sequencer).pending@[count_kept(lines, full, i)]@,
                    lines[i],
                    numbers@[i],
                )
            &&& final(sequencer).active_slot == Some(slot)
        },
{
    let m = match book.macro_at(page, slot) {
        Some(m) => m,
        None => {
            return;
        },
    };
    if m.is_empty() {
        return;
    }
    sequencer.clear();
    sequencer.active_slot = Some(slot);
    let mut i: usize = 0;
    while i < MACRO_LINES
        invariant
            i <= MACRO_LINES,
            sequencer@.pending =~= queued_lines(m@, numbers@, i as nat),
            sequencer.wait_remaining == no_time(),
            !sequencer.armed,
            sequencer.active_slot == Some(slot),
        decreases MACRO_LINES - i,
    {
        assert(m@[i as int] == m.lines[i as int]@);
        proof {
            crate::text::blank_trims_to_nothing(m@[i as int]);
        }
        let trimmed_line = trim(m.lines[i].as_str());
        if !trimmed_line.is_empty() {
            match parse_wait_delay(trimmed_line, numbers[i]) {
                Some(delay) => sequencer.pending.push_back(QueuedLine::Wait(delay)),
                None => sequencer.pending.push_back(QueuedLine::Chat(trimmed_line.to_owned())),
            }
        }
        i = i + 1;
    }
    sequencer.armed = true;
    assert(sequencer@ =~= fired(slot, m@, numbers@));
    proof {
        let full = |l: Seq<char>| !blank(l);
        assert(sequencer@.pending.len() == sequencer.pending@.len());
        assert forall|i: int| 0 <= i < 6 && !blank(#[trigger] m@[i]) implies queued_as(
            sequencer.pending@[count_kept(m@, full, i)]@,
            m@[i],
            numbers@[i],
        ) by {
            lemma_queued_in_order(m@, numbers@, 6, i);
            pauses_are_finite_and_positive(trimmed(m@[i]), numbers@[i]);
            let place = count_kept(m@, full, i);
            assert(sequencer@.pending[place] == sequencer.pending@[place]@);
        }
        lemma_queued_in_order(m@, numbers@, 6, 0);
    }
}

/// The digit keys in the order in which they are tried: from 1 to 9, then 0.
pub open spec fn digit_pressed(pressed: Seq<bool>) -> Option<int> {
    if pressed[1] {
        Some(1)
    } else if pressed[2] {
        Some(2)
    } else if pressed[3] {
        Some(3)
    } else if pressed[4] {
        Some(4)
    } else if pressed[5] {
        Some(5)
    } else if pressed[6] {
        Some(6)
    } else if pressed[7] {
        Some(7)
    } else if pressed[8] {
        Some(8)
    } else if pressed[9] {
        Some(9)
    } else if pressed[0] {
        Some(0)
    } else {
        None
    }
}

/// The slot that the keys stand for. Hotkeys count only in the world.
pub open spec fn slot_pressed(in_world: bool, ctrl: bool, alt: bool, pressed: Seq<bool>) -> Option<
    int,
> {
    match digit_pressed(pressed) {
        Some(digit) => if in_world {
            slot_of_hotkey(ctrl, alt, digit)
        } else {
            None
        },
        None => None,
    }
}

/// Of the digit keys that went down the first one counts, from 1 to 9 and then 0.
/// There is none exactly where no key went down.
pub proof fn the_first_digit_counts(pressed: Seq<bool>)
    requires
        pressed.len() == 10,
    ensures
        match digit_pressed(pressed) {
            Some(d) => {
                &&& 0 <= d <= 9
                &&& pressed[d]
                &&& forall|e: int|
                    0 <= e <= 9 && (e + 9) % 10 < (d + 9) % 10 ==> !(#[trigger] pressed[e])
            },
            None => forall|e: int| 0 <= e <= 9 ==> !(#[trigger] pressed[e]),
        },
{
    assert forall|e: int| 0 <= e <= 9 && digit_pressed(pressed) is None implies !(
    #[trigger] pressed[e]) by {
        assert(e == 0 || e == 1 || e == 2 || e == 3 || e == 4 || e == 5 || e == 6 || e == 7 || e
            == 8 || e == 9);
    }
    if let Some(d) = digit_pressed(pressed) {
        assert forall|e: int| 0 <= e <= 9 && (e + 9) % 10 < (d + 9) % 10 implies !(
        #[trigger] pressed[e]) by {
            assert(e == 0 || e == 1 || e == 2 || e == 3 || e == 4 || e == 5 || e == 6 || e == 7
                || e == 8 || e == 9);
        }
    }
}

/// Keys stand for a slot where the player is in the world, Ctrl or Alt is held and
/// a digit key went down. It is the slot of that digit in the row of the modifier.
pub proof fn keys_stand_for_slots_in_the_world(
    in_world: bool,
    ctrl: bool,
    alt: bool,
    pressed: Seq<bool>,
)
    requires
        pressed.len() == 10,
    ensures
        slot_pressed(in_world, ctrl, alt, pressed) is Some <==> in_world && (ctrl || alt)
            && digit_pressed(pressed) is Some,
        slot_pressed(in_world, ctrl, alt, pressed) matches Some(slot) ==> {
            &&& pressed[(slot % 10 + 1) % 10]
            &&& Some((slot % 10 + 1) % 10) == digit_pressed(pressed)
            &&& ctrl <==> slot < 10
            &&& 0 <= slot < 20
        },
{
    the_first_digit_counts(pressed);
}

fn first_digit(pressed: &[bool; 10]) -> (r: Option<u8>)
    ensures
        match r {
            Some(d) => digit_pressed(pressed@) == Some(d as int),
            None => digit_pressed(pressed@) is None,
        },
{
    if pressed[1] {
        Some(1)
    } else if pressed[2] {
        Some(2)
    } else if pressed[3] {
        Some(3)
    } else if pressed[4] {
        Some(4)
    } else if pressed[5] {
        Some(5)
    } else if pressed[6] {
        Some(6)
    } else if pressed[7] {
        Some(7)
    } else if pressed[8] {
        Some(8)
    } else if pressed[9] {
        Some(9)
    } else if pressed[0] {
        Some(0)
    } else {
        None
    }
}

/// The slot that the keys stand for: those of the digits that went down just
/// now, and whether Ctrl and Alt are held.
pub fn hotkey_slot(in_world: bool, ctrl: bool, alt: bool, pressed: &[bool; 10]) -> (r: Option<
    usize,
>)
    ensures
        match r {
            Some(slot) => slot_pressed(in_world, ctrl, alt, pressed@) == Some(slot as int),
            None => slot_pressed(in_world, ctrl, alt, pressed@) is None,
        },
{
    if !in_world {
        return None;
    }
    match first_digit(pressed) {
        Some(digit) => slot_from_modifier_digit(ctrl, alt, digit),
        None => None,
    }
}

/// The lines of a macro of a character, where the book, the page and the slot
/// are in range. A character without books has fresh ones.
pub open spec fn lines_at(
    books: Map<Seq<char>, Seq<BookText>>,
    key: Seq<char>,
    book: usize,
    page: usize,
    slot: usize,
) -> Option<Seq<Seq<char>>> {
    let own = seeded(books, key)[key];
    if book < own.len() && page < MACRO_PAGES && slot < MACROS_PER_PAGE {
        Some(own[book as int].pages[page as int].macros[slot as int])
    } else {
        None
    }
}

/// A macro is found where it is stored, and there is one at every place of the
/// character's books. One who has none has forty, of which all lines are empty.
pub proof fn macros_are_found_where_they_are_stored(
    books: Map<Seq<char>, Seq<BookText>>,
    key: Seq<char>,
    book: usize,
    page: usize,
    slot: usize,
    line: int,
)
    requires
        0 <= line < 6,
    ensures
        books.contains_key(key) ==> (lines_at(books, key, book, page, slot) is Some <==> book
            < books[key].len() && page < 10 && slot < 20),
        books.contains_key(key) && book < books[key].len() && page < 10 && slot < 20 ==> lines_at(
            books,
            key,
            book,
            page,
            slot,
        ) == Some(books[key][book as int].pages[page as int].macros[slot as int]),
        !books.contains_key(key) ==> (lines_at(books, key, book, page, slot) is Some <==> book
            < 40 && page < 10 && slot < 20),
        !books.contains_key(key) && book < 40 && page < 10 && slot < 20 ==> lines_at(
            books,
            key,
            book,
            page,
            slot,
        )->0[line].len() == 0,
{
}

/// The macro of a character, if the character has books and the place is in
/// range. One that is not there holds nothing.
pub fn stored_macro<'a>(
    books: &'a MacroBooks,
    self_char_id: Option<u32>,
    book: usize,
    page: usize,
    slot: usize,
) -> (r: Option<&'a Macro>)
    requires
        books.wf(),
    ensures
        match r {
            Some(m) => lines_at(books@, key_of(self_char_id), book, page, slot) == Some(m@),
            None => lines_at(books@, key_of(self_char_id), book, page, slot) matches Some(l)
                ==> all_blank(l),
        },
        r is Some <==> books@.contains_key(key_of(self_char_id)) && lines_at(
            books@,
            key_of(self_char_id),
            book,
            page,
            slot,
        ) is Some,
{
    match books.get(char_key(self_char_id).as_str()) {
        Some(own) => if book < own.books.len() {
            own.books[book].macro_at(page, slot)
        } else {
            None
        },
        None => {
            assert(all_blank(no_lines()));
            None
        },
    }
}

/// Whether a character has a macro at a place: whether book, page and slot are in
/// range.
pub fn macro_exists(
    books: &MacroBooks,
    self_char_id: Option<u32>,
    book: usize,
    page: usize,
    slot: usize,
) -> (b: bool)
    requires
        books.wf(),
    ensures
        b == (lines_at(books@, key_of(self_char_id), book, page, slot) is Some),
{
    let count: usize = match books.get(char_key(self_char_id).as_str()) {
        Some(own) => own.books.len(),
        None => MACRO_BOOKS,
    };
    book < count && page < MACRO_PAGES && slot < MACROS_PER_PAGE
}

/// Fires the macro of the active page that the keys stand for. The numbers are
/// those that the texts behind that macro's pauses read as, line by line.
pub fn macro_hotkey_system(
    in_world: bool,
    ctrl: bool,
    alt: bool,
    pressed: &[bool; 10],
    self_char_id: Option<u32>,
    macro_books: &mut MacroBooks,
    sequencer: &mut MacroSequencer,
    active_page: ActiveMacroPage,
    numbers: &[Option<Scalar>; MACRO_LINES],
)
    requires
        old(macro_books).wf(),
    ensures
        final(macro_books).wf(),
        match slot_pressed(in_world, ctrl, alt, pressed@) {
            Some(slot) => {
                let key = key_of(self_char_id);
                let books = seeded(old(macro_books)@, key);
                &&& final(macro_books)@ == books
                &&& final(sequencer)@ == if active_page.book < books[key].len() {
                    after_firing(
                        old(sequencer)@,
                        slot as usize,
                        active_page.page,
                        books[key][active_page.book as int],
                        numbers@,
                    )
                } else {
                    old(sequencer)@
                }
            },
            None => *final(macro_books) == *old(macro_books) && *final(sequencer) == *old(
                sequencer,
            ),
        },
        slot_pressed(in_world, ctrl, alt, pressed@) matches Some(slot) ==> (lines_at(
            old(macro_books)@,
            key_of(self_char_id),
            active_page.book,
            active_page.page,
            slot as usize,
        ) matches Some(lines) ==> {
            &&& all_blank(lines) ==> final(sequencer)@ == old(sequencer)@
            &&& !all_blank(lines) ==> {
                &&& final(sequencer).pending@.len() == count_kept(lines, |l: Seq<char>| !blank(l), 6)
                &&& forall|i: int|
                    0 <= i < 6 && !blank(#[trigger] lines[i]) ==> queued_as(
                        final(sequencer).pending@[count_kept(lines, |l: Seq<char>| !blank(l), i)]@,
                        lines[i],
                        numbers@[i],
                    )
                &&& final(sequencer).active_slot == Some(slot as usize)
            }
        }),
{
    if let Some(slot) = hotkey_slot(in_world, ctrl, alt, pressed) {
        let key = char_key(self_char_id);
        let books = macro_books.get_or_default(key.as_str());
        if active_page.book < books.books.len() {
            fire_macro(slot, active_page.page, &books.books[active_page.book], numbers, sequencer);
        }
    }
}

/// What a step asks for.
#[derive(Debug, Clone)]
pub enum StepAction {
    Nothing,
    /// A line that starts with a slash is a command.
    Slash(String),
    /// Any other line is said.
    Say { kind: u8, text: String },
}

/// What a step asks for, as text.
pub enum StepText {
    Nothing,
    Slash(Seq<char>),
    Say { kind: u8, text: Seq<char> },
}

impl View for StepAction {
    type V = StepText;

    open spec fn view(&self) -> StepText {
        match *self {
            StepAction::Nothing => StepText::Nothing,
            StepAction::Slash(s) => StepText::Slash(s@),
            StepAction::Say { kind, text } => StepText::Say { kind, text: text@ },
        }
    }
}

/// What is done with a line that is sent.
pub open spec fn line_action(text: Seq<char>) -> StepText {
    if text.len() > 0 && text[0] == '/' {
        StepText::Slash(text)
    } else {
        StepText::Say { kind: SAY_KIND, text }
    }
}

/// The slot that is executing while these lines are left: none when there are
/// none.
pub open spec fn slot_executing(pending: Seq<LineText>, slot: Option<usize>) -> Option<usize> {
    if pending.len() == 0 {
        None
    } else {
        slot
    }
}

/// The next line leaves the queue. With the last one the macro is over, and no
/// slot is executing any more.
pub open spec fn line_taken(s: Sequence) -> (Sequence, StepText) {
    let rest = s.pending.drop_first();
    let (wait, action) = match s.pending[0] {
        LineText::Wait(d) => (d, StepText::Nothing),
        LineText::Chat(t) => (s.wait_remaining, line_action(t)),
    };
    (
        Sequence {
            pending: rest,
            wait_remaining: wait,
            active_slot: slot_executing(rest, s.active_slot),
            ..s
        },
        action,
    )
}

/// One step of the running macro, and what it asks for. `after_wait` is what the
/// pause comes to when the time since the last step is taken from it: while
/// something of it is left no line leaves the queue.
pub open spec fn stepped(s: Sequence, after_wait: Scalar) -> (Sequence, StepText) {
    if !busy(s) {
        (s, StepText::Nothing)
    } else if s.wait_remaining.exceeds(no_time()) && after_wait.exceeds(no_time()) {
        (
            Sequence {
                armed: false,
                wait_remaining: after_wait,
                active_slot: slot_executing(s.pending, s.active_slot),
                ..s
            },
            StepText::Nothing,
        )
    } else {
        let ready = Sequence {
            armed: false,
            active_slot: slot_executing(s.pending, s.active_slot),
            wait_remaining: if s.wait_remaining.exceeds(no_time()) {
                no_time()
            } else {
                s.wait_remaining
            },
            ..s
        };
        if ready.pending.len() == 0 {
            (ready, StepText::Nothing)
        } else {
            line_taken(ready)
        }
    }
}

/// Runs one step of the macro. `after_wait` is what `wait_remaining` comes to
/// when the time since the last step is taken from it.
pub fn macro_step_system(sequencer: &mut MacroSequencer, after_wait: Scalar) -> (action: StepAction)
    ensures
        (final(sequencer)@, action@) == stepped(old(sequencer)@, after_wait),
{
    if sequencer.pending.len() == 0 && !sequencer.armed {
        return StepAction::Nothing;
    }
    let zero = Scalar { bits: ZERO_BITS };
    sequencer.armed = false;
    if sequencer.pending.len() == 0 {
        sequencer.active_slot = None;
    }
    if sequencer.wait_remaining.gt(zero) {
        sequencer.wait_remaining = after_wait;
        if sequencer.wait_remaining.gt(zero) {
            return StepAction::Nothing;
        }
        sequencer.wait_remaining = zero;
    }
    let ghost ready = sequencer@;
    let line = match sequencer.pending.pop_front() {
        Some(line) => line,
        None => {
            return StepAction::Nothing;
        },
    };
    assert(sequencer@.pending =~= ready.pending.drop_first());
    assert(line@ == ready.pending[0]);
    let action = match line {
        QueuedLine::Wait(delay) => {
            sequencer.wait_remaining = delay;
            StepAction::Nothing
        },
        QueuedLine::Chat(text) => if starts_with_char(text.as_str(), '/') {
            StepAction::Slash(text)
        } else {
            StepAction::Say { kind: SAY_KIND, text }
        },
    };
    if sequencer.pending.len() == 0 {
        sequencer.active_slot = None;
    }
    assert((sequencer@, action@) =~= line_taken(ready));
    action
}

/// What a step does. When idle it does nothing. While something of a pause is left
/// it only takes the time off. Else the first line leaves the queue, and what is
/// left of a pause that ran out is nothing: a pause starts, and a line is sent, as
/// a command where it starts with a slash and else as something said on the first
/// channel.
pub proof fn steps_carry_out_the_first_line(s: Sequence, after_wait: Scalar)
    ensures
        ({
            let (next, action) = stepped(s, after_wait);
            let pausing = !s.wait_remaining.nan() && s.wait_remaining.ordinal() > 0;
            let holding = pausing && !after_wait.nan() && after_wait.ordinal() > 0;
            &&& !s.armed && s.pending.len() == 0 ==> next == s && action is Nothing
            &&& s.armed || s.pending.len() > 0 ==> {
                &&& !next.armed
                &&& next.active_slot == if next.pending.len() == 0 {
                    None
                } else {
                    s.active_slot
                }
                &&& holding ==> next.pending == s.pending && next.wait_remaining == after_wait
                    && action is Nothing
                &&& !holding && s.pending.len() == 0 ==> next.pending.len() == 0 && action
                    is Nothing && next.wait_remaining == if pausing {
                    Scalar { bits: 0 }
                } else {
                    s.wait_remaining
                }
                &&& !holding && s.pending.len() > 0 ==> {
                    &&& next.pending == s.pending.subrange(1, s.pending.len() as int)
                    &&& s.pending[0] matches LineText::Wait(d) ==> next.wait_remaining == d
                        && action is Nothing
                    &&& s.pending[0] matches LineText::Chat(t) ==> {
                        &&& t.len() > 0 && t[0] == '/' ==> action == StepText::Slash(t)
                        &&& t.len() == 0 || t[0] != '/' ==> action == (StepText::Say {
                            kind: 0,
                            text: t,
                        })
                        &&& pausing ==> next.wait_remaining.bits == 0
                        &&& !pausing ==> next.wait_remaining == s.wait_remaining
                    }
                }
            }
        }),
{
}

/// Lines leave the queue from the front, one in a step at most, and what a step
/// asks for is the line that left.
pub proof fn lines_leave_in_order(s: Sequence, after_wait: Scalar)
    ensures
        ({
            let (next, action) = stepped(s, after_wait);
            &&& next.pending == s.pending || s.pending.len() > 0 && next.pending
                == s.pending.drop_first()
            &&& action !is Nothing ==> s.pending.len() > 0 && next.pending
                == s.pending.drop_first() && s.pending[0] is Chat && action == line_action(
                s.pending[0]->Chat_0,
            )
            &&& !next.armed || next == s
        }),
{
}

/// While something of a pause is left, no line leaves the queue and nothing is
/// asked for.
pub proof fn a_pause_holds_the_lines_back(s: Sequence, after_wait: Scalar)
    requires
        s.wait_remaining.exceeds(no_time()),
        after_wait.exceeds(no_time()),
    ensures
        stepped(s, after_wait).0.pending == s.pending,
        stepped(s, after_wait).1 is Nothing,
{
}

/// The running macro after a number of steps between which every pause runs out.
pub open spec fn run(s: Sequence, steps: nat) -> Sequence
    decreases steps,
{
    if steps == 0 {
        s
    } else {
        run(stepped(s, no_time()).0, (steps - 1) as nat)
    }
}

/// A macro ends: when every pause runs out, as many steps as there are lines
/// empty the queue, and then no slot is active any more.
pub proof fn macros_end(s: Sequence)
    requires
        s.pending.len() > 0,
    ensures
        !busy(run(s, s.pending.len())),
        run(s, s.pending.len()).active_slot is None,
    decreases s.pending.len(),
{
    let next = stepped(s, no_time()).0;
    assert(next.pending == s.pending.drop_first());
    if s.pending.len() > 1 {
        macros_end(next);
    } else {
        assert(run(next, 0) == next);
    }
}

/// No slot is active when nothing of a macro is to come.
pub open spec fn idle_without_slot(s: Sequence) -> bool {
    !busy(s) ==> s.active_slot is None
}

/// When idle no slot is active: it is so without a macro, firing one keeps it so,
/// and every step does, however much of a pause is left.
pub proof fn no_slot_is_active_when_idle(
    s: Sequence,
    after_wait: Scalar,
    slot: usize,
    page: usize,
    book: BookText,
    numbers: Seq<Option<Scalar>>,
)
    requires
        idle_without_slot(s),
    ensures
        idle_without_slot(idle()),
        idle_without_slot(stepped(s, after_wait).0),
        idle_without_slot(after_firing(s, slot, page, book, numbers)),
{
}

/// What a slash command came to, as far as macros go. `C` is a command to the
/// session.
#[derive(Debug, Clone)]
pub enum SlashOutcome<C> {
    Command(C),
    Commands(Vec<C>),
    CommandWithNotice { cmd: C, notice: String },
    SystemMessage(String),
    /// Anything that only works from the chat line.
    Unsupported,
}

/// One thing that an outcome asks for.
#[derive(Debug, Clone)]
pub enum Effect<C> {
    Toast(String),
    Send(C),
}

/// The message on a command that macros do not have.
pub open spec fn unsupported_text() -> Seq<char> {
    "[macro] command not supported in macros"@
}

/// What an outcome asks for, in order: a notice comes before its command.
pub fn apply_outcome<C>(outcome: SlashOutcome<C>) -> (effects: Vec<Effect<C>>)
    ensures
        match outcome {
            SlashOutcome::Command(cmd) => effects@ == seq![Effect::Send(cmd)],
            SlashOutcome::Commands(cmds) => effects@ == cmds@.map_values(|c: C| Effect::Send(c)),
            SlashOutcome::CommandWithNotice { cmd, notice } => effects@ == seq![
                Effect::Toast(notice),
                Effect::Send(cmd),
            ],
            SlashOutcome::SystemMessage(msg) => effects@ == seq![Effect::<C>::Toast(msg)],
            SlashOutcome::Unsupported => effects@.len() == 1 && (effects@[0] matches Effect::Toast(
                s,
            ) && s@ == unsupported_text() && s@ == "[macro] command not supported in macros"@),
        },
{
    let mut effects: Vec<Effect<C>> = Vec::new();
    match outcome {
        SlashOutcome::Command(cmd) => {
            effects.push(Effect::Send(cmd));
        },
        SlashOutcome::Commands(cmds) => {
            let ghost all = cmds@;
            for cmd in it: cmds
                invariant
                    it.seq() == all,
                    effects@ =~= all.take(it.index() as int).map_values(|c: C| Effect::Send(c)),
            {
                effects.push(Effect::Send(cmd));
            }
            assert(all.take(all.len() as int) =~= all);
        },
        SlashOutcome::CommandWithNotice { cmd, notice } => {
            effects.push(Effect::Toast(notice));
            effects.push(Effect::Send(cmd));
        },
        SlashOutcome::SystemMessage(msg) => {
            effects.push(Effect::Toast(msg));
        },
        SlashOutcome::Unsupported => {
            effects.push(Effect::Toast("[macro] command not supported in macros".to_owned()));
        },
    }
    effects
}

/// The message on a command that could not be handed to the session.
pub fn dispatch_dropped_message(error: &str) -> (s: String)
    ensures
        s@ == "[macro] dispatch dropped: "@ + error@,
{
    let mut s = "[macro] dispatch dropped: ".to_owned();
    s.append(error);
    s
}

} // verus!
