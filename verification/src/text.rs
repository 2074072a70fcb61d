//! Numbers in text: reading and writing decimal, reading hexadecimal.

use vstd::prelude::*;
use vstd::string::*;
use vstd::std_specs::iter::IteratorSpec;

verus! {

/// The characters of `text`, one by one.
pub fn chars_of(text: &str) -> (v: Vec<char>)
    ensures
        v@ == text@,
{
    let mut v: Vec<char> = Vec::new();
    for c in it: text.chars()
        invariant
            it.seq() == text@,
            v@ == it.seq().take(it.index() as int),
    {
        proof {
            assert(it.seq().take(it.index() + 1).drop_last() =~= it.seq().take(it.index() as int));
        }
        v.push(c);
    }
    assert(v@ =~= text@);
    v
}

/// A decimal digit.
pub open spec fn is_digit(c: char) -> bool {
    '0' <= c <= '9'
}

/// The number that a decimal digit denotes.
pub open spec fn digit_value(c: char) -> nat {
    (c as u32 - 48) as nat
}

/// Every character of `s` is a decimal digit, and there is at least one.
pub open spec fn is_number(s: Seq<char>) -> bool {
    s.len() > 0 && forall|i: int| 0 <= i < s.len() ==> is_digit(#[trigger] s[i])
}

/// The number that a string of decimal digits denotes, leading zeros allowed.
pub open spec fn digits_value(s: Seq<char>) -> nat
    decreases s.len(),
{
    if s.len() == 0 {
        0
    } else {
        digits_value(s.drop_last()) * 10 + digit_value(s.last())
    }
}

/// What a decimal field of at most `max` reads as: a non-empty run of digits
/// whose value does not exceed `max`; anything else is no number.
pub open spec fn bounded_decimal(s: Seq<char>, max: nat) -> Option<u64> {
    if is_number(s) && digits_value(s) <= max && max <= u64::MAX {
        Some(digits_value(s) as u64)
    } else {
        None
    }
}

/// A longer digit string never denotes less than its prefix.
pub proof fn lemma_digits_value_prefix(s: Seq<char>, k: int)
    requires
        0 <= k <= s.len(),
    ensures
        digits_value(s.subrange(0, k)) <= digits_value(s),
    decreases s.len() - k,
{
    if k == s.len() {
        assert(s.subrange(0, k) =~= s);
    } else {
        lemma_digits_value_prefix(s, k + 1);
        let t = s.subrange(0, k + 1);
        assert(t.drop_last() =~= s.subrange(0, k));
    }
}

/// Reads `s[from..to]` as a decimal number of at most `max`.
pub fn parse_decimal(s: &[char], from: usize, to: usize, max: u64) -> (r: Option<u64>)
    requires
        from <= to <= s.len(),
    ensures
        r == bounded_decimal(s@.subrange(from as int, to as int), max as nat),
{
    if from == to {
        return None;
    }
    let ghost field = s@.subrange(from as int, to as int);
    let mut acc: u64 = 0;
    let mut i: usize = from;
    while i < to
        invariant
            from <= i <= to <= s.len(),
            field == s@.subrange(from as int, to as int),
            forall|j: int| 0 <= j < i - from ==> is_digit(#[trigger] field[j]),
            acc == digits_value(field.subrange(0, i - from)),
            acc <= max,
        decreases to - i,
    {
        let c: char = s[i];
        if c < '0' || c > '9' {
            assert(!is_digit(field[i - from]));
            return None;
        }
        let d: u64 = (c as u32 - 48) as u64;
        proof {
            let t = field.subrange(0, i - from + 1);
            assert(t.drop_last() =~= field.subrange(0, i - from));
            assert(t.last() == c);
            assert(digits_value(t) == acc * 10 + d);
        }
        if max < d || acc > (max - d) / 10 {
            proof {
                lemma_digits_value_prefix(field, i - from + 1);
            }
            return None;
        }
        acc = acc * 10 + d;
        i = i + 1;
    }
    assert(field.subrange(0, i - from) =~= field);
    Some(acc)
}

/// Where the run of decimal digits that starts at `from` ends: the index of
/// the first character at or after `from` that is no digit, or the length.
pub open spec fn digits_end(s: Seq<char>, from: int) -> int
    decreases s.len() - from,
{
    if 0 <= from < s.len() && is_digit(s[from]) {
        digits_end(s, from + 1)
    } else {
        from
    }
}

/// A run of digits that ends at a non-digit, or at the end of the text, is
/// the run that `digits_end` finds.
pub proof fn lemma_digits_end_of_run(s: Seq<char>, from: int, to: int)
    requires
        0 <= from <= to <= s.len(),
        forall|i: int| from <= i < to ==> is_digit(#[trigger] s[i]),
        to == s.len() || !is_digit(s[to]),
    ensures
        digits_end(s, from) == to,
    decreases to - from,
{
    if from < to {
        assert(is_digit(s[from]));
        lemma_digits_end_of_run(s, from + 1, to);
    }
}

/// The decimal form of a number reads as that number, and has no more digits
/// than the number needs.
pub proof fn lemma_decimal_text(n: nat)
    ensures
        is_number(decimal_text(n)),
        digits_value(decimal_text(n)) == n,
        decimal_text(n).len() == 1 || decimal_text(n)[0] != '0',
        n < 10 ==> decimal_text(n).len() == 1,
        n < 100 ==> decimal_text(n).len() <= 2,
        n < 1000 ==> decimal_text(n).len() <= 3,
    decreases n,
{
    let t = decimal_text(n);
    if n < 10 {
        assert(t.drop_last() =~= Seq::<char>::empty());
        assert(digits_value(t.drop_last()) == 0);
        assert(t.last() == digit_char(n));
    } else {
        lemma_decimal_text(n / 10);
        let front = decimal_text(n / 10);
        assert(t.drop_last() =~= front);
        assert(t.last() == digit_char(n % 10));
        assert(t[0] == front[0]);
        assert forall|i: int| 0 <= i < t.len() implies is_digit(#[trigger] t[i]) by {
            if i < front.len() {
                assert(t[i] == front[i]);
            }
        }
        if front.len() == 1 {
            assert(front.drop_last() =~= Seq::<char>::empty());
            assert(digits_value(front.drop_last()) == 0);
        }
    }
}

/// Finds the end of the run of decimal digits that starts at `from`.
pub fn scan_digits(s: &[char], from: usize) -> (end: usize)
    requires
        from <= s.len(),
    ensures
        end == digits_end(s@, from as int),
        from <= end <= s.len(),
{
    let mut i: usize = from;
    while i < s.len() && s[i] >= '0' && s[i] <= '9'
        invariant
            from <= i <= s.len(),
            digits_end(s@, from as int) == digits_end(s@, i as int),
        decreases s.len() - i,
    {
        i = i + 1;
    }
    i
}

/// The index of the first `c` in `s` at or after `from`, or the length of
/// `s` if there is none.
pub open spec fn find_char(s: Seq<char>, from: int, c: char) -> int
    decreases s.len() - from,
{
    if 0 <= from < s.len() && s[from] != c {
        find_char(s, from + 1, c)
    } else if from < s.len() {
        from
    } else {
        s.len() as int
    }
}

/// Finds the first `c` in `s` at or after `from`.
pub fn find_from(s: &[char], from: usize, c: char) -> (at: usize)
    requires
        from <= s.len(),
    ensures
        at == find_char(s@, from as int, c),
        from <= at <= s.len(),
        at < s.len() ==> s@[at as int] == c,
        forall|i: int| from <= i < at ==> s@[i] != c,
{
    let mut i: usize = from;
    while i < s.len() && s[i] != c
        invariant
            from <= i <= s.len(),
            find_char(s@, from as int, c) == find_char(s@, i as int, c),
            forall|j: int| from <= j < i ==> s@[j] != c,
        decreases s.len() - i,
    {
        i = i + 1;
    }
    i
}

/// Whether `s` is, character by character, the text `word`.
pub fn is_word(s: &[char], word: &str) -> (yes: bool)
    ensures
        yes == (s@ == word@),
{
    let w = chars_of(word);
    if s.len() != w.len() {
        assert(s@.len() != word@.len());
        return false;
    }
    let mut i: usize = 0;
    while i < s.len()
        invariant
            i <= s.len(),
            s.len() == w.len(),
            w@ == word@,
            forall|j: int| 0 <= j < i ==> s@[j] == w@[j],
        decreases s.len() - i,
    {
        if s[i] != w[i] {
            assert(s@[i as int] != word@[i as int]);
            return false;
        }
        i = i + 1;
    }
    assert(s@ =~= w@);
    true
}

/// `s` without a plus sign at its start.
pub open spec fn unsigned_part(s: Seq<char>) -> Seq<char> {
    if s.len() > 0 && s[0] == '+' {
        s.subrange(1, s.len() as int)
    } else {
        s
    }
}

/// What an unsigned decimal field of at most `max` reads as: decimal digits,
/// at least one, which a single plus sign may precede.
pub open spec fn unsigned_field(s: Seq<char>, max: nat) -> Option<u64> {
    bounded_decimal(unsigned_part(s), max)
}

/// Reads `s` as an unsigned decimal number of at most `max`.
pub fn parse_unsigned(s: &[char], max: u64) -> (r: Option<u64>)
    ensures
        r == unsigned_field(s@, max as nat),
{
    let start: usize = if s.len() > 0 && s[0] == '+' {
        1
    } else {
        0
    };
    assert(s@.subrange(start as int, s@.len() as int) =~= unsigned_part(s@));
    parse_decimal(s, start, s.len(), max)
}

/// A hexadecimal digit, in either case.
pub open spec fn is_hex_digit(c: char) -> bool {
    ('0' <= c <= '9') || ('a' <= c <= 'f') || ('A' <= c <= 'F')
}

/// The number that a hexadecimal digit denotes.
pub open spec fn hex_digit_value(c: char) -> nat {
    if '0' <= c <= '9' {
        (c as u32 - 48) as nat
    } else if 'a' <= c <= 'f' {
        (c as u32 - 87) as nat
    } else {
        (c as u32 - 55) as nat
    }
}

/// The number that a string of hexadecimal digits denotes.
pub open spec fn hex_value(s: Seq<char>) -> nat
    decreases s.len(),
{
    if s.len() == 0 {
        0
    } else {
        hex_value(s.drop_last()) * 16 + hex_digit_value(s.last())
    }
}

/// What a hexadecimal field of at most `max` reads as: a non-empty run of
/// hexadecimal digits whose value does not exceed `max`.
pub open spec fn bounded_hex(s: Seq<char>, max: nat) -> Option<u64> {
    if s.len() > 0 && (forall|i: int| 0 <= i < s.len() ==> is_hex_digit(#[trigger] s[i]))
        && hex_value(s) <= max && max <= u64::MAX {
        Some(hex_value(s) as u64)
    } else {
        None
    }
}

/// A longer hexadecimal string never denotes less than its prefix.
pub proof fn lemma_hex_value_prefix(s: Seq<char>, k: int)
    requires
        0 <= k <= s.len(),
    ensures
        hex_value(s.subrange(0, k)) <= hex_value(s),
    decreases s.len() - k,
{
    if k == s.len() {
        assert(s.subrange(0, k) =~= s);
    } else {
        lemma_hex_value_prefix(s, k + 1);
        let t = s.subrange(0, k + 1);
        assert(t.drop_last() =~= s.subrange(0, k));
    }
}

/// Reads `s[from..]` as a hexadecimal number of at most `max`.
pub fn parse_hex(s: &[char], from: usize, max: u64) -> (r: Option<u64>)
    requires
        from <= s.len(),
    ensures
        r == bounded_hex(s@.subrange(from as int, s@.len() as int), max as nat),
{
    let to = s.len();
    if from == to {
        return None;
    }
    let ghost field = s@.subrange(from as int, to as int);
    let mut acc: u64 = 0;
    let mut i: usize = from;
    while i < to
        invariant
            from <= i <= to,
            to == s.len(),
            field == s@.subrange(from as int, to as int),
            forall|j: int| 0 <= j < i - from ==> is_hex_digit(#[trigger] field[j]),
            acc == hex_value(field.subrange(0, i - from)),
            acc <= max,
        decreases to - i,
    {
        let c: char = s[i];
        let d: u64 = if c >= '0' && c <= '9' {
            (c as u32 - 48) as u64
        } else if c >= 'a' && c <= 'f' {
            (c as u32 - 87) as u64
        } else if c >= 'A' && c <= 'F' {
            (c as u32 - 55) as u64
        } else {
            assert(!is_hex_digit(field[i - from]));
            return None;
        };
        proof {
            let t = field.subrange(0, i - from + 1);
            assert(t.drop_last() =~= field.subrange(0, i - from));
            assert(t.last() == c);
            assert(hex_value(t) == acc * 16 + d);
        }
        if max < d || acc > (max - d) / 16 {
            proof {
                lemma_hex_value_prefix(field, i - from + 1);
            }
            return None;
        }
        acc = acc * 16 + d;
        i = i + 1;
    }
    assert(field.subrange(0, i - from) =~= field);
    Some(acc)
}

/// The character of a digit below ten.
pub open spec fn digit_char(d: nat) -> char {
    (d + 48) as u8 as char
}

/// The decimal form of `n`, without leading zeros.
pub open spec fn decimal_text(n: nat) -> Seq<char>
    decreases n,
{
    if n < 10 {
        seq![digit_char(n)]
    } else {
        decimal_text(n / 10).push(digit_char(n % 10))
    }
}

fn digit_str(d: u64) -> (s: &'static str)
    requires
        d < 10,
    ensures
        s@ == seq![digit_char(d as nat)],
{
    proof {
        reveal_strlit("0");
        reveal_strlit("1");
        reveal_strlit("2");
        reveal_strlit("3");
        reveal_strlit("4");
        reveal_strlit("5");
        reveal_strlit("6");
        reveal_strlit("7");
        reveal_strlit("8");
        reveal_strlit("9");
    }
    let s = if d == 0 {
        "0"
    } else if d == 1 {
        "1"
    } else if d == 2 {
        "2"
    } else if d == 3 {
        "3"
    } else if d == 4 {
        "4"
    } else if d == 5 {
        "5"
    } else if d == 6 {
        "6"
    } else if d == 7 {
        "7"
    } else if d == 8 {
        "8"
    } else {
        "9"
    };
    assert(s@ =~= seq![digit_char(d as nat)]);
    s
}

/// Appends the decimal form of `n` to `out`.
pub fn push_decimal(out: &mut String, n: u64)
    ensures
        final(out)@ == old(out)@ + decimal_text(n as nat),
    decreases n,
{
    if n >= 10 {
        push_decimal(out, n / 10);
    }
    out.append(digit_str(n % 10));
    assert(out@ =~= old(out)@ + decimal_text(n as nat));
}

} // verus!
