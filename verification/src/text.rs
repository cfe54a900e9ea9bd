//! Text as a sequence of characters: white space, prefixes, printable
//! characters and decimal numerals.
use crate::kept::{count_kept, filtering_keeps_in_order};
use vstd::prelude::*;

verus! {

/// `String::push` appends the given character to the end of the text.
pub assume_specification[ String::push ](s: &mut String, c: char)
    ensures
        final(s)@ == old(s)@.push(c),
;

/// The characters with the Unicode property `White_Space`.
pub open spec fn white_space(c: char) -> bool {
    ||| '\u{9}' <= c <= '\u{d}'
    ||| c == '\u{20}'
    ||| c == '\u{85}'
    ||| c == '\u{a0}'
    ||| c == '\u{1680}'
    ||| '\u{2000}' <= c <= '\u{200a}'
    ||| c == '\u{2028}'
    ||| c == '\u{2029}'
    ||| c == '\u{202f}'
    ||| c == '\u{205f}'
    ||| c == '\u{3000}'
}

pub fn is_white_space(c: char) -> (b: bool)
    ensures
        b == white_space(c),
{
    ('\u{9}' <= c && c <= '\u{d}') || c == '\u{20}' || c == '\u{85}' || c == '\u{a0}' || c
        == '\u{1680}' || ('\u{2000}' <= c && c <= '\u{200a}') || c == '\u{2028}' || c == '\u{2029}'
        || c == '\u{202f}' || c == '\u{205f}' || c == '\u{3000}'
}

/// Nothing but white space: the text trims to nothing.
pub open spec fn blank(s: Seq<char>) -> bool {
    forall|i: int| 0 <= i < s.len() ==> white_space(#[trigger] s[i])
}

/// The text without its leading white space.
pub open spec fn trim_start(s: Seq<char>) -> Seq<char>
    decreases s.len(),
{
    if s.len() > 0 && white_space(s.first()) {
        trim_start(s.drop_first())
    } else {
        s
    }
}

/// The text without its trailing white space.
pub open spec fn trim_end(s: Seq<char>) -> Seq<char>
    decreases s.len(),
{
    if s.len() > 0 && white_space(s.last()) {
        trim_end(s.drop_last())
    } else {
        s
    }
}

/// The text without the white space at either end.
pub open spec fn trimmed(s: Seq<char>) -> Seq<char> {
    trim_end(trim_start(s))
}

proof fn lemma_trim_start_skips(s: Seq<char>, a: int)
    requires
        0 <= a <= s.len(),
        forall|i: int| 0 <= i < a ==> white_space(#[trigger] s[i]),
        a < s.len() ==> !white_space(s[a]),
    ensures
        trim_start(s) == s.skip(a),
    decreases a,
{
    if a > 0 {
        assert(white_space(s[0]));
        let t = s.drop_first();
        assert forall|i: int| 0 <= i < a - 1 implies white_space(#[trigger] t[i]) by {
            assert(t[i] == s[i + 1]);
        }
        lemma_trim_start_skips(t, a - 1);
        assert(t.skip(a - 1) == s.skip(a));
    } else {
        assert(s.skip(0) == s);
    }
}

proof fn lemma_trim_end_takes(s: Seq<char>, b: int)
    requires
        0 <= b <= s.len(),
        forall|i: int| b <= i < s.len() ==> white_space(#[trigger] s[i]),
        b > 0 ==> !white_space(s[b - 1]),
    ensures
        trim_end(s) == s.take(b),
    decreases s.len() - b,
{
    if b < s.len() {
        assert(white_space(s[s.len() - 1]));
        lemma_trim_end_takes(s.drop_last(), b);
        assert(s.drop_last().take(b) == s.take(b));
    } else {
        assert(s.take(b) == s);
    }
}

/// What trimming leaves: the part between the first and the last character
/// that is no white space.
pub proof fn trimmed_by_bounds(s: Seq<char>, a: int, b: int)
    requires
        0 <= a < b <= s.len(),
        forall|i: int| 0 <= i < a ==> white_space(#[trigger] s[i]),
        forall|i: int| b <= i < s.len() ==> white_space(#[trigger] s[i]),
        !white_space(s[a]),
        !white_space(s[b - 1]),
    ensures
        trimmed(s) == s.subrange(a, b),
{
    lemma_trim_start_skips(s, a);
    let t = s.skip(a);
    assert forall|i: int| b - a <= i < t.len() implies white_space(#[trigger] t[i]) by {
        assert(t[i] == s[i + a]);
    }
    assert(t[b - a - 1] == s[b - 1]);
    lemma_trim_end_takes(t, b - a);
    assert(t.take(b - a) == s.subrange(a, b));
}

/// Trimming leaves nothing exactly where the text is blank.
pub proof fn blank_trims_to_nothing(s: Seq<char>)
    ensures
        trimmed(s).len() == 0 <==> blank(s),
{
    if blank(s) {
        lemma_trim_start_skips(s, s.len() as int);
        assert(s.skip(s.len() as int) == Seq::<char>::empty());
    } else {
        let (a, b) = lemma_text_bounds(s);
        trimmed_by_bounds(s, a, b);
    }
}

/// The bounds of the part that trimming leaves of a text that is not blank.
proof fn lemma_text_bounds(s: Seq<char>) -> (r: (int, int))
    requires
        !blank(s),
    ensures
        0 <= r.0 < r.1 <= s.len(),
        forall|i: int| 0 <= i < r.0 ==> white_space(#[trigger] s[i]),
        forall|i: int| r.1 <= i < s.len() ==> white_space(#[trigger] s[i]),
        !white_space(s[r.0]),
        !white_space(s[r.1 - 1]),
    decreases s.len(),
{
    if !white_space(s[0]) {
        if !white_space(s[s.len() - 1]) {
            (0, s.len() as int)
        } else {
            assert(s.drop_last()[0] == s[0]);
            let r = lemma_text_bounds(s.drop_last());
            assert(s.drop_last()[r.0] == s[r.0]);
            assert(s.drop_last()[r.1 - 1] == s[r.1 - 1]);
            assert forall|i: int| 0 <= i < r.0 implies white_space(#[trigger] s[i]) by {
                assert(s.drop_last()[i] == s[i]);
            }
            assert forall|i: int| r.1 <= i < s.len() implies white_space(#[trigger] s[i]) by {
                if i < s.len() - 1 {
                    assert(s.drop_last()[i] == s[i]);
                }
            }
            r
        }
    } else {
        let t = s.drop_first();
        let k = choose|k: int| 0 <= k < s.len() && !white_space(#[trigger] s[k]);
        assert(t[k - 1] == s[k]);
        let r = lemma_text_bounds(t);
        assert(t[r.0] == s[r.0 + 1]);
        assert(t[r.1 - 1] == s[r.1]);
        assert forall|i: int| 0 <= i < r.0 + 1 implies white_space(#[trigger] s[i]) by {
            if i > 0 {
                assert(t[i - 1] == s[i]);
            }
        }
        assert forall|i: int| r.1 + 1 <= i < s.len() implies white_space(#[trigger] s[i]) by {
            assert(t[i - 1] == s[i]);
        }
        (r.0 + 1, r.1 + 1)
    }
}

/// Trimming leaves a part of the text, at the bounds that are returned.
pub proof fn trimmed_is_a_part(s: Seq<char>) -> (r: (int, int))
    ensures
        0 <= r.0 <= r.1 <= s.len(),
        trimmed(s) == s.subrange(r.0, r.1),
{
    if blank(s) {
        blank_trims_to_nothing(s);
        assert(trimmed(s) =~= s.subrange(0, 0));
        (0, 0)
    } else {
        let (a, b) = lemma_text_bounds(s);
        trimmed_by_bounds(s, a, b);
        (a, b)
    }
}

/// Trimmed text starts and ends with a character that is no white space, and
/// trimming it again changes nothing.
pub proof fn trimming_is_idempotent(s: Seq<char>)
    ensures
        trimmed(trimmed(s)) == trimmed(s),
        trimmed(s).len() > 0 ==> !white_space(trimmed(s).first()) && !white_space(trimmed(s).last()),
{
    if blank(s) {
        blank_trims_to_nothing(s);
        blank_trims_to_nothing(trimmed(s));
        assert(trimmed(trimmed(s)) =~= trimmed(s));
    } else {
        let (a, b) = lemma_text_bounds(s);
        trimmed_by_bounds(s, a, b);
        let t = trimmed(s);
        trimmed_by_bounds(t, 0, t.len() as int);
        assert(t.subrange(0, t.len() as int) == t);
    }
}

/// The text without the white space at either end.
pub fn trim(s: &str) -> (r: &str)
    ensures
        r@ == trimmed(s@),
{
    let mut n: usize = 0;
    let mut start: usize = 0;
    let mut end: usize = 0;
    let total: usize = s.unicode_len();
    for c in it: s.chars()
        invariant
            it.seq() == s@,
            total == s@.len(),
            n == it.index(),
            start <= end <= n,
            end == 0 ==> start == 0,
            end == 0 ==> forall|i: int| 0 <= i < n ==> white_space(#[trigger] s@[i]),
            end > 0 ==> start < end && !white_space(s@[start as int]) && !white_space(s@[end - 1]),
            end > 0 ==> forall|i: int| 0 <= i < start ==> white_space(#[trigger] s@[i]),
            end > 0 ==> forall|i: int| end <= i < n ==> white_space(#[trigger] s@[i]),
    {
        if !is_white_space(c) {
            if end == 0 {
                start = n;
            }
            end = n + 1;
        }
        n = n + 1;
    }
    proof {
        if end == 0 {
            blank_trims_to_nothing(s@);
            assert(s@.subrange(0, 0) =~= trimmed(s@));
        } else {
            trimmed_by_bounds(s@, start as int, end as int);
        }
    }
    s.substring_char(start, end)
}

/// Whether the text is blank.
pub fn is_blank(s: &str) -> (b: bool)
    ensures
        b == blank(s@),
{
    proof {
        blank_trims_to_nothing(s@);
    }
    trim(s).is_empty()
}

/// Whether the two texts are the same.
pub fn same_text(a: &str, b: &str) -> (r: bool)
    ensures
        r == (a@ == b@),
{
    a.to_owned() == b.to_owned()
}

/// Whether the text starts with the character.
pub fn starts_with_char(s: &str, c: char) -> (b: bool)
    ensures
        b == (s@.len() > 0 && s@[0] == c),
{
    !s.is_empty() && s.get_char(0) == c
}

/// The text behind the prefix, or `None` where it does not start with it.
pub fn strip_prefix<'a>(s: &'a str, prefix: &str) -> (r: Option<&'a str>)
    ensures
        match r {
            Some(rest) => prefix@.is_prefix_of(s@) && rest@ == s@.skip(prefix@.len() as int),
            None => !prefix@.is_prefix_of(s@),
        },
{
    let n: usize = prefix.unicode_len();
    let total: usize = s.unicode_len();
    if n > total {
        return None;
    }
    if same_text(s.substring_char(0, n), prefix) {
        assert(s@.subrange(n as int, total as int) == s@.skip(n as int));
        Some(s.substring_char(n, total))
    } else {
        None
    }
}

/// The characters from the space to the tilde.
pub open spec fn printable(c: char) -> bool {
    '\u{20}' <= c <= '\u{7e}'
}

pub fn is_printable(c: char) -> (b: bool)
    ensures
        b == printable(c),
{
    '\u{20}' <= c && c <= '\u{7e}'
}

/// The printable characters of the text, in their order.
pub open spec fn printable_part(s: Seq<char>) -> Seq<char> {
    s.filter(|c: char| printable(c))
}

/// Every printable character of a text stays, and no other, in their order: one
/// behind as many as are printable before it.
pub proof fn printable_characters_stay_in_order(s: Seq<char>, i: int)
    ensures
        ({
            let shown = |c: char| '\u{20}' <= c <= '\u{7e}';
            let place = count_kept(s, shown, i);
            &&& printable_part(s).len() == count_kept(s, shown, s.len() as int)
            &&& 0 <= i < s.len() && '\u{20}' <= s[i] <= '\u{7e}' ==> 0 <= place
                < printable_part(s).len() && printable_part(s)[place] == s[i]
        }),
{
    let shown = |c: char| '\u{20}' <= c <= '\u{7e}';
    let keep = |c: char| printable(c);
    assert(shown =~= keep);
    filtering_keeps_in_order(s, keep, i);
}

/// A text of printable characters alone stays as it is.
pub proof fn printable_text_stays(s: Seq<char>)
    requires
        forall|i: int| 0 <= i < s.len() ==> '\u{20}' <= #[trigger] s[i] <= '\u{7e}',
    ensures
        printable_part(s) == s,
    decreases s.len(),
{
    reveal(Seq::filter);
    if s.len() > 0 {
        let t = s.drop_last();
        assert forall|i: int| 0 <= i < t.len() implies '\u{20}' <= #[trigger] t[i] <= '\u{7e}' by {
            assert(t[i] == s[i]);
        }
        printable_text_stays(t);
        assert(printable(s[s.len() - 1]));
        assert(printable_part(s) =~= s);
    } else {
        assert(printable_part(s) =~= s);
    }
}

/// The decimal digit of a number below ten.
pub open spec fn digit(d: nat) -> char {
    (('0' as u32) + d) as char
}

/// The decimal numeral of a number, without leading zeros.
pub open spec fn decimal(n: nat) -> Seq<char>
    decreases n,
{
    if n < 10 {
        seq![digit(n)]
    } else {
        decimal(n / 10).push(digit(n % 10))
    }
}

fn digit_char(d: u64) -> (c: char)
    requires
        d < 10,
    ensures
        c == digit(d as nat),
{
    (48u8 + d as u8) as char
}

/// The decimal numeral of a number.
pub fn decimal_text(n: u64) -> (s: String)
    ensures
        s@ == decimal(n as nat),
    decreases n,
{
    let mut s = if n < 10 {
        String::new()
    } else {
        decimal_text(n / 10)
    };
    s.push(digit_char(n % 10));
    assert(n < 10 ==> s@ =~= seq![digit(n as nat)]);
    s
}

/// The number that a numeral stands for.
pub open spec fn numeral_value(s: Seq<char>) -> int
    decreases s.len(),
{
    if s.len() == 0 {
        0
    } else {
        10 * numeral_value(s.drop_last()) + (s.last() as u32 - '0' as u32)
    }
}

proof fn lemma_decimal_value(n: nat)
    ensures
        numeral_value(decimal(n)) == n,
        decimal(n).len() > 0,
    decreases n,
{
    if n < 10 {
        assert(seq![digit(n)].drop_last() =~= Seq::<char>::empty());
        assert(numeral_value(seq![digit(n)].drop_last()) == 0);
    } else {
        lemma_decimal_value(n / 10);
        assert(decimal(n).drop_last() =~= decimal(n / 10));
    }
}

/// Different numbers have different numerals.
pub proof fn decimal_is_injective(a: nat, b: nat)
    requires
        decimal(a) == decimal(b),
    ensures
        a == b,
{
    lemma_decimal_value(a);
    lemma_decimal_value(b);
}

/// A numeral reads as the number that it was written for, and has no leading
/// zero but the one of zero itself.
pub proof fn decimal_reads_back(n: nat)
    ensures
        numeral_value(decimal(n)) == n,
        decimal(n).len() > 1 ==> decimal(n)[0] != '0',
        n == 0 ==> decimal(n) == seq!['0'],
    decreases n,
{
    lemma_decimal_value(n);
    if n >= 10 {
        decimal_reads_back(n / 10);
        if n / 10 < 10 {
            assert(decimal(n / 10)[0] == digit(n / 10));
            assert(decimal(n)[0] == digit(n / 10));
        } else {
            decimal_has_digits_only(n / 10);
            decimal_has_digits_only(n / 100);
            assert(decimal(n / 10).len() > 1);
            assert(decimal(n)[0] == decimal(n / 10)[0]);
        }
    }
}

/// A numeral consists of decimal digits, one at least.
pub proof fn decimal_has_digits_only(n: nat)
    ensures
        decimal(n).len() > 0,
        forall|i: int| 0 <= i < decimal(n).len() ==> '0' <= #[trigger] decimal(n)[i] <= '9',
    decreases n,
{
    if n >= 10 {
        decimal_has_digits_only(n / 10);
    }
}

} // verus!
