//! The peak memory of a process, from the status text that Linux gives of it.

use crate::keys::stands;
use crate::keys::stands_at;
use crate::text::chars_of;
use crate::text::dec;
use crate::text::decimal_value;
use crate::text::decimals_stand_for_their_number;
use crate::text::is_digit;
use vstd::prelude::*;

verus! {

/// Whether a character is white space.
pub open spec fn is_space(c: char) -> bool {
    let n = c as u32;
    (9 <= n <= 13) || n == 0x20 || n == 0x85 || n == 0xa0 || n == 0x1680 || (0x2000 <= n <= 0x200a) || n == 0x2028
        || n == 0x2029 || n == 0x202f || n == 0x205f || n == 0x3000
}

/// Whether a line begins at place `i`.
pub open spec fn line_begins(text: Seq<char>, i: int) -> bool {
    i == 0 || (0 < i <= text.len() && text[i - 1] == '\n')
}

/// Whether the line with the peak begins at place `i`.
pub open spec fn peak_line(text: Seq<char>, i: int) -> bool {
    line_begins(text, i) && stands_at(text, "VmHWM:"@, i)
}

/// The first place from `i` on where the line with the peak begins.
pub open spec fn find_peak(text: Seq<char>, i: nat) -> Option<nat>
    decreases text.len() - i,
{
    if i > text.len() {
        None
    } else if peak_line(text, i as int) {
        Some(i)
    } else if i == text.len() {
        None
    } else {
        find_peak(text, i + 1)
    }
}

/// The first place from `i` on that is not white space within the line.
pub open spec fn skip_space(text: Seq<char>, i: nat) -> nat
    decreases text.len() - i,
{
    if i >= text.len() || text[i as int] == '\n' || !is_space(text[i as int]) {
        i
    } else {
        skip_space(text, i + 1)
    }
}

/// The first place from `i` on that is white space or the end.
pub open spec fn word_end(text: Seq<char>, i: nat) -> nat
    decreases text.len() - i,
{
    if i >= text.len() || is_space(text[i as int]) {
        i
    } else {
        word_end(text, i + 1)
    }
}

/// The number that a text of decimal digits stands for.
pub open spec fn digits_value(text: Seq<char>) -> nat
    decreases text.len(),
{
    if text.len() == 0 {
        0
    } else {
        10 * digits_value(text.drop_last()) + (text.last() as nat - '0' as nat) as nat
    }
}

/// Whether a text holds decimal digits only, and at least one.
pub open spec fn all_digits(text: Seq<char>) -> bool {
    text.len() > 0 && forall|i: int| 0 <= i < text.len() ==> '0' <= #[trigger] text[i] <= '9'
}

/// The number that a word stands for; it may begin with a plus sign.
pub open spec fn parsed(word: Seq<char>) -> Option<u64> {
    let digits = if word.len() > 0 && word[0] == '+' {
        word.drop_first()
    } else {
        word
    };
    if all_digits(digits) && digits_value(digits) <= u64::MAX {
        Some(digits_value(digits) as u64)
    } else {
        None
    }
}

/// The peak resident set size that a status text tells, zero when it does not.
pub open spec fn peak_kb(text: Seq<char>) -> u64 {
    match find_peak(text, 0) {
        None => 0,
        Some(at) => {
            let start = skip_space(text, at + "VmHWM:"@.len());
            match parsed(text.subrange(start as int, word_end(text, start) as int)) {
                Some(n) => n,
                None => 0,
            }
        },
    }
}

fn white(c: char) -> (r: bool)
    ensures
        r == is_space(c),
{
    let n: u32 = c as u32;
    (9 <= n && n <= 13) || n == 0x20 || n == 0x85 || n == 0xa0 || n == 0x1680 || (0x2000 <= n && n <= 0x200a) || n
        == 0x2028 || n == 0x2029 || n == 0x202f || n == 0x205f || n == 0x3000
}

proof fn lemma_digits_prefix(text: Seq<char>, i: int)
    requires
        0 <= i <= text.len(),
    ensures
        digits_value(text.take(i)) <= digits_value(text),
    decreases text.len(),
{
    if i < text.len() {
        let rest = text.drop_last();
        lemma_digits_prefix(rest, i);
        assert(rest.take(i) =~= text.take(i));
    } else {
        assert(text.take(i) =~= text);
    }
}

/// The number that the characters `start..end` stand for.
fn parse_word(chars: &Vec<char>, start: usize, end: usize) -> (r: Option<u64>)
    requires
        start <= end <= chars@.len(),
    ensures
        r == parsed(chars@.subrange(start as int, end as int)),
{
    let ghost word = chars@.subrange(start as int, end as int);
    let mut i: usize = start;
    if start < end && chars[start] == '+' {
        i = start + 1;
    }
    let ghost digits = chars@.subrange(i as int, end as int);
    proof {
        if start < end && chars@[start as int] == '+' {
            assert(word[0] == '+');
            assert(word.drop_first() =~= digits);
        } else {
            assert(start < end ==> word[0] == chars@[start as int]);
        }
    }
    if i == end {
        return None;
    }
    let ghost first = i;
    let mut value: u64 = 0;
    assert(digits.take(0) =~= Seq::<char>::empty());
    while i < end
        invariant
            first <= i <= end <= chars@.len(),
            first < end,
            word == chars@.subrange(start as int, end as int),
            digits == (if word.len() > 0 && word[0] == '+' {
                word.drop_first()
            } else {
                word
            }),
            digits == chars@.subrange(first as int, end as int),
            forall|k: int| 0 <= k < i - first ==> '0' <= #[trigger] digits[k] <= '9',
            value == digits_value(digits.take(i - first)),
        decreases end - i,
    {
        let c: char = chars[i];
        let ghost k = i - first;
        assert(digits[k] == c);
        if !('0' <= c && c <= '9') {
            assert(!all_digits(digits));
            return None;
        }
        proof {
            assert(digits.take(k + 1).drop_last() =~= digits.take(k));
            assert(digits.take(k + 1).last() == c);
            lemma_digits_prefix(digits, k + 1);
        }
        let d: u64 = (c as u32 - '0' as u32) as u64;
        let wide: u128 = value as u128 * 10 + d as u128;
        if wide > u64::MAX as u128 {
            assert(digits_value(digits) > u64::MAX);
            return None;
        }
        value = wide as u64;
        i = i + 1;
    }
    assert(digits.take(i - first) =~= digits);
    Some(value)
}

/// The peak resident set size that a status text tells, zero when it does not.
pub fn peak_rss_kb(status: &str) -> (kb: u64)
    ensures
        kb == peak_kb(status@),
{
    let chars: Vec<char> = chars_of(status);
    let prefix: Vec<char> = chars_of("VmHWM:");
    let n: usize = chars.len();
    let ghost text = chars@;
    let mut at: usize = 0;
    let mut found: bool = false;
    while !found
        invariant
            n == text.len(),
            text == chars@,
            text == status@,
            prefix@ == "VmHWM:"@,
            at <= n,
            found ==> peak_line(text, at as int),
            find_peak(text, 0) == find_peak(text, at as nat),
        decreases
            n - at + (if found {
                0int
            } else {
                1int
            }),
    {
        let begins: bool = at == 0 || chars[at - 1] == '\n';
        if begins && stands(&chars, &prefix, at) {
            found = true;
        } else {
            if at == n {
                return 0;
            }
            at = at + 1;
        }
    }
    let mut start: usize = at + prefix.len();
    let ghost from = start as nat;
    while start < n && chars[start] != '\n' && white(chars[start])
        invariant
            start <= n,
            n == text.len(),
            text == chars@,
            skip_space(text, from) == skip_space(text, start as nat),
        decreases n - start,
    {
        start = start + 1;
    }
    let mut end: usize = start;
    while end < n && !white(chars[end])
        invariant
            start <= end <= n,
            n == text.len(),
            text == chars@,
            word_end(text, start as nat) == word_end(text, end as nat),
        decreases n - end,
    {
        end = end + 1;
    }
    match parse_word(&chars, start, end) {
        Some(kb) => kb,
        None => 0,
    }
}

/// The line with the peak is the first one that begins with its name.
pub proof fn the_first_peak_line_is_found(text: Seq<char>, from: nat)
    ensures
        find_peak(text, from) is None <==> forall|i: int| from <= i <= text.len() ==> !#[trigger] peak_line(text, i),
        find_peak(text, from) matches Some(at) ==> from <= at <= text.len() && peak_line(text, at as int) && forall|i: int|
            from <= i < at ==> !#[trigger] peak_line(text, i),
    decreases text.len() - from,
{
    if from < text.len() && !peak_line(text, from as int) {
        the_first_peak_line_is_found(text, from + 1);
    }
    if from <= text.len() && peak_line(text, from as int) {
        assert(!(forall|i: int| from <= i <= text.len() ==> !#[trigger] peak_line(text, i)));
    }
}

proof fn lemma_skip_space(text: Seq<char>, i: nat, end: nat)
    requires
        i <= end < text.len(),
        forall|k: int| i <= k < end ==> is_space(#[trigger] text[k]) && text[k] != '\n',
        !is_space(text[end as int]),
    ensures
        skip_space(text, i) == end,
    decreases end - i,
{
    if i < end {
        assert(is_space(text[i as int]));
        lemma_skip_space(text, i + 1, end);
    }
}

proof fn lemma_word_end(text: Seq<char>, i: nat, end: nat)
    requires
        i <= end <= text.len(),
        forall|k: int| i <= k < end ==> !is_space(#[trigger] text[k]),
        end < text.len() ==> is_space(text[end as int]),
    ensures
        word_end(text, i) == end,
    decreases end - i,
{
    if i < end {
        assert(!is_space(text[i as int]));
        lemma_word_end(text, i + 1, end);
    }
}

proof fn lemma_digits_decimal(text: Seq<char>)
    requires
        forall|i: int| 0 <= i < text.len() ==> is_digit(#[trigger] text[i]),
    ensures
        digits_value(text) == decimal_value(text),
    decreases text.len(),
{
    if text.len() > 0 {
        let rest = text.drop_last();
        assert forall|i: int| 0 <= i < rest.len() implies is_digit(#[trigger] rest[i]) by {
            assert(is_digit(text[i]));
        }
        assert(is_digit(text[text.len() - 1]));
        lemma_digits_decimal(rest);
    }
}

/// A number written behind the name of the first peak line is what is told,
/// whatever white space stands between them and whatever comes after it.
pub proof fn written_peaks_are_told(text: Seq<char>, at: nat, start: nat, end: nat, n: u64)
    requires
        line_begins(text, at as int),
        stands_at(text, "VmHWM:"@, at as int),
        forall|i: int| 0 <= i < at ==> !(line_begins(text, i) && #[trigger] stands_at(text, "VmHWM:"@, i)),
        at + "VmHWM:"@.len() <= start < end <= text.len(),
        forall|k: int| at + "VmHWM:"@.len() <= k < start ==> is_space(#[trigger] text[k]) && text[k] != '\n',
        text.subrange(start as int, end as int) == dec(n as nat),
        end < text.len() ==> is_space(text[end as int]),
    ensures
        peak_kb(text) == n,
{
    let word = dec(n as nat);
    the_first_peak_line_is_found(text, 0);
    assert(peak_line(text, at as int));
    assert(find_peak(text, 0) == Some(at));
    decimals_stand_for_their_number(n as nat);
    assert forall|k: int| start <= k < end implies !is_space(#[trigger] text[k]) by {
        assert(text[k] == word[k - start]);
        assert(is_digit(word[k - start]));
    }
    assert(!is_space(text[start as int]));
    lemma_skip_space(text, at + "VmHWM:"@.len(), start);
    lemma_word_end(text, start, end);
    lemma_digits_decimal(word);
    assert(is_digit(word[0]));
    assert forall|i: int| 0 <= i < word.len() implies '0' <= #[trigger] word[i] <= '9' by {
        assert(is_digit(word[i]));
    }
}

/// A text without such a line tells nothing.
pub proof fn no_peak_line_tells_nothing(text: Seq<char>)
    requires
        forall|i: int| 0 <= i <= text.len() ==> !(line_begins(text, i) && #[trigger] stands_at(text, "VmHWM:"@, i)),
    ensures
        peak_kb(text) == 0,
{
    the_first_peak_line_is_found(text, 0);
}

/// A decimal numeral is read as its number, with or without a plus sign before it;
/// a word that is read has digits only behind such a sign, and stands for what is
/// read.
pub proof fn words_are_read_as_numerals(n: u64, word: Seq<char>)
    ensures
        parsed(dec(n as nat)) == Some(n),
        parsed(seq!['+'] + dec(n as nat)) == Some(n),
        parsed(word) matches Some(value) ==> {
            let digits = if word[0] == '+' {
                word.skip(1)
            } else {
                word
            };
            &&& word.len() > 0
            &&& digits.len() > 0
            &&& forall|i: int| 0 <= i < digits.len() ==> is_digit(#[trigger] digits[i])
            &&& decimal_value(digits) == value
        },
{
    let text = dec(n as nat);
    decimals_stand_for_their_number(n as nat);
    lemma_digits_decimal(text);
    assert(is_digit(text[0]));
    assert forall|i: int| 0 <= i < text.len() implies '0' <= #[trigger] text[i] <= '9' by {
        assert(is_digit(text[i]));
    }
    assert((seq!['+'] + text).drop_first() =~= text);
    if parsed(word) is Some {
        let digits = if word[0] == '+' {
            word.skip(1)
        } else {
            word
        };
        assert(word.skip(1) =~= word.drop_first());
        assert forall|i: int| 0 <= i < digits.len() implies is_digit(#[trigger] digits[i]) by {
            assert('0' <= digits[i] <= '9');
        }
        lemma_digits_decimal(digits);
    }
}

} // verus!
