use kuluu::macro_exec::{
    apply_outcome, dispatch_dropped_message, fire_macro, hotkey_slot, macro_hotkey_system,
    macro_step_system, parse_wait_delay, stored_macro, wait_argument, wait_arguments, Effect,
    MacroSequencer, QueuedLine, SlashOutcome, StepAction,
};
use kuluu::macro_store::MacroBooks;
use kuluu::macros::{default_macro_book, ActiveMacroPage, Macro, MacroBook};
use kuluu::scalar::Scalar;

fn s(x: f32) -> Scalar {
    Scalar::from_bits(x.to_bits())
}

fn number(text: &str) -> Option<Scalar> {
    text.parse::<f32>().ok().map(s)
}

fn delay(line: &str) -> Option<f32> {
    parse_wait_delay(line, wait_argument(line).and_then(number)).map(|d| f32::from_bits(d.bits))
}

fn numbers(m: Option<&Macro>) -> [Option<Scalar>; 6] {
    let texts = m.map(wait_arguments).unwrap_or(vec![None; 6]);
    std::array::from_fn(|i| texts[i].as_deref().and_then(number))
}

fn fire(slot: usize, page: usize, book: &MacroBook, seq: &mut MacroSequencer) {
    fire_macro(slot, page, book, &numbers(book.macro_at(page, slot)), seq);
}

#[test]
fn parse_wait_delay_recognises_integer() {
    assert_eq!(delay("/wait 3"), Some(3.0));
}

#[test]
fn parse_wait_delay_recognises_float() {
    assert_eq!(delay("/wait 2.5"), Some(2.5));
}

#[test]
fn parse_wait_delay_rejects_zero() {
    assert_eq!(delay("/wait 0"), None);
}

#[test]
fn parse_wait_delay_rejects_negative() {
    assert_eq!(delay("/wait -1"), None);
}

#[test]
fn parse_wait_delay_rejects_non_numeric() {
    assert_eq!(delay("/wait abc"), None);
}

#[test]
fn fire_macro_skips_empty_slot() {
    let book = default_macro_book(0);
    let mut seq = MacroSequencer::default();
    fire(0, 0, &book, &mut seq);
    assert!(!seq.is_busy());
}

#[test]
fn fire_macro_queues_lines_and_waits() {
    let mut book = default_macro_book(0);
    book.pages[0].macros[0].lines = [
        "/heal".into(),
        "/wait 2".into(),
        "hello".into(),
        "".into(),
        "".into(),
        "".into(),
    ];
    let mut seq = MacroSequencer::default();
    fire(0, 0, &book, &mut seq);
    assert!(seq.is_busy());
    assert_eq!(seq.pending.len(), 3);
}

#[test]
fn fire_macro_interrupts_running_sequence() {
    let mut book = default_macro_book(0);
    book.pages[0].macros[0].lines[0] = "/heal".into();
    book.pages[0].macros[1].lines[0] = "/attack".into();
    let mut seq = MacroSequencer::default();
    fire(0, 0, &book, &mut seq);
    assert!(seq.is_busy());
    fire(1, 0, &book, &mut seq);
    assert_eq!(seq.pending.len(), 1);
}

#[test]
fn sequencer_clears_pending() {
    let mut seq = MacroSequencer::default();
    seq.pending.push_back(QueuedLine::Chat("test".into()));
    seq.armed = true;
    seq.clear();
    assert!(!seq.is_busy());
}

#[test]
fn waits_are_finite_and_follow_either_spelling() {
    assert_eq!(delay("/Wait 1"), Some(1.0));
    assert_eq!(delay("/wait1.5"), Some(1.5));
    assert_eq!(delay("/WAIT 1"), None);
    assert_eq!(delay("/wait inf"), None);
    assert_eq!(delay("/wait nan"), None);
    assert_eq!(delay("wait 1"), None);
    assert_eq!(wait_argument("/wait  3 "), Some("3"));
    assert_eq!(wait_argument("/heal"), None);
    assert_eq!(parse_wait_delay("/heal", Some(s(2.0))), None);
}

#[test]
fn a_macro_runs_line_by_line() {
    let mut book = default_macro_book(0);
    book.pages[2].macros[5].lines =
        ["  /heal ", "", "/wait 2", "hello", " ", "/wait x"].map(|l| l.to_string());
    let mut seq = MacroSequencer::default();
    fire(5, 2, &book, &mut seq);
    assert_eq!(seq.active_slot, Some(5));
    assert_eq!(seq.pending.len(), 4);

    assert!(matches!(macro_step_system(&mut seq, s(0.0)), StepAction::Slash(t) if t == "/heal"));
    assert!(matches!(macro_step_system(&mut seq, s(0.0)), StepAction::Nothing));
    assert_eq!(seq.wait_remaining, s(2.0));
    assert!(matches!(macro_step_system(&mut seq, s(0.5)), StepAction::Nothing));
    assert_eq!(seq.wait_remaining, s(0.5));
    assert_eq!(seq.pending.len(), 2);
    match macro_step_system(&mut seq, s(-0.1)) {
        StepAction::Say { kind, text } => assert_eq!((kind, text.as_str()), (0, "hello")),
        other => panic!("{other:?}"),
    }
    assert_eq!(seq.active_slot, Some(5));
    assert!(matches!(macro_step_system(&mut seq, s(0.0)), StepAction::Slash(t) if t == "/wait x"));
    assert_eq!(seq.active_slot, None);
    assert!(!seq.is_busy());
    assert!(matches!(macro_step_system(&mut seq, s(0.0)), StepAction::Nothing));
}

#[test]
fn a_macro_that_ran_out_has_no_slot() {
    let mut book = default_macro_book(0);
    book.pages[0].macros[0].lines[0] = "/wait 2".to_string();
    let mut seq = MacroSequencer::default();
    fire(0, 0, &book, &mut seq);
    assert_eq!(seq.active_slot, Some(0));
    for _ in 0..5 {
        let after_wait = f32::from_bits(seq.wait_remaining.bits) - 1.0;
        macro_step_system(&mut seq, s(after_wait));
        assert!(seq.is_busy() || seq.active_slot.is_none());
    }
    assert!(!seq.is_busy());
    assert_eq!(seq.active_slot, None);
}

#[test]
fn a_pause_before_a_line_keeps_the_slot() {
    let mut book = default_macro_book(0);
    book.pages[0].macros[4].lines[0] = "/wait 2".to_string();
    book.pages[0].macros[4].lines[1] = "hello".to_string();
    let mut seq = MacroSequencer::default();
    fire(4, 0, &book, &mut seq);
    macro_step_system(&mut seq, s(0.0));
    macro_step_system(&mut seq, s(1.0));
    assert_eq!(seq.active_slot, Some(4));
    assert!(matches!(macro_step_system(&mut seq, s(0.0)), StepAction::Say { .. }));
    assert_eq!(seq.active_slot, None);
}

#[test]
fn slots_out_of_range_fire_nothing() {
    let mut book = default_macro_book(0);
    book.pages[0].macros[0].lines[0] = "x".to_string();
    let mut seq = MacroSequencer::default();
    fire(20, 0, &book, &mut seq);
    fire(0, 10, &book, &mut seq);
    assert!(!seq.is_busy());
}

#[test]
fn digits_are_tried_in_the_order_of_the_keys() {
    let mut pressed = [false; 10];
    assert_eq!(hotkey_slot(true, true, false, &pressed), None);
    pressed[0] = true;
    assert_eq!(hotkey_slot(true, true, false, &pressed), Some(9));
    pressed[4] = true;
    assert_eq!(hotkey_slot(true, false, true, &pressed), Some(13));
    assert_eq!(hotkey_slot(true, false, false, &pressed), None);
    assert_eq!(hotkey_slot(false, true, false, &pressed), None);
}

#[test]
fn a_hotkey_fires_from_the_active_page() {
    let mut books = MacroBooks::default();
    books.get_or_default_mut("42").books[1].pages[2].macros[10].lines[1] = "hello".to_string();
    let mut seq = MacroSequencer::default();
    let mut pressed = [false; 10];
    pressed[1] = true;
    let page = ActiveMacroPage { book: 1, page: 2 };
    let n = numbers(stored_macro(&books, Some(42), 1, 2, 10));
    macro_hotkey_system(true, false, true, &pressed, Some(42), &mut books, &mut seq, page, &n);
    assert_eq!(seq.active_slot, Some(10));
    assert!(matches!(&seq.pending[0], QueuedLine::Chat(t) if t == "hello"));

    seq.clear();
    let far = ActiveMacroPage { book: 40, page: 2 };
    macro_hotkey_system(true, false, true, &pressed, Some(7), &mut books, &mut seq, far, &n);
    assert!(!seq.is_busy());
    assert!(books.get("7").is_some());
    macro_hotkey_system(false, false, true, &pressed, Some(8), &mut books, &mut seq, page, &n);
    assert!(books.get("8").is_none());
}

#[test]
fn outcomes_ask_for_their_effects_in_order() {
    let show = |o: SlashOutcome<u8>| -> Vec<String> {
        apply_outcome(o)
            .into_iter()
            .map(|e| match e {
                Effect::Toast(t) => format!("toast {t}"),
                Effect::Send(c) => format!("send {c}"),
            })
            .collect()
    };
    assert_eq!(show(SlashOutcome::Command(1)), vec!["send 1"]);
    assert_eq!(show(SlashOutcome::Commands(vec![1, 2, 3])), vec!["send 1", "send 2", "send 3"]);
    assert_eq!(
        show(SlashOutcome::CommandWithNotice { cmd: 4, notice: "n".to_string() }),
        vec!["toast n", "send 4"]
    );
    assert_eq!(show(SlashOutcome::SystemMessage("m".to_string())), vec!["toast m"]);
    assert_eq!(
        show(SlashOutcome::Unsupported),
        vec!["toast [macro] command not supported in macros"]
    );
    assert_eq!(dispatch_dropped_message("full"), "[macro] dispatch dropped: full");
}
