use vstd::prelude::*;
use vstd::std_specs::iter::IteratorSpec;

verus! {

/// `String::push` appends one character to the end of the string.
pub assume_specification[ String::push ](s: &mut String, c: char)
    ensures
        final(s)@ == old(s)@.push(c),
;

/// The characters of `s`, in order.
pub fn to_chars(s: &str) -> (out: Vec<char>)
    ensures
        out@ == s@,
{
    broadcast use vstd::string::group_string_axioms;

    let mut out: Vec<char> = Vec::new();
    let mut it = s.chars();
    loop
        invariant
            it.decrease() is Some,
            out@ + it.remaining() == s@,
        ensures
            out@ == s@,
        decreases it.decrease()->0,
    {
        let ghost before = it;
        match it.next() {
            Some(c) => {
                out.push(c);
                assert(before.remaining() == seq![c] + it.remaining());
                assert(out@ + it.remaining() == s@);
            },
            None => {
                assert(it.remaining().len() == 0);
                assert(out@ + it.remaining() == out@);
                break ;
            },
        }
    }
    out
}

/// Appends the characters of `chars` to `out`.
pub fn push_chars(out: &mut String, chars: &[char])
    ensures
        final(out)@ == old(out)@ + chars@,
{
    let mut i: usize = 0;
    while i < chars.len()
        invariant
            i <= chars@.len(),
            out@ == old(out)@ + chars@.take(i as int),
        decreases chars@.len() - i,
    {
        out.push(chars[i]);
        assert(chars@.take(i + 1) == chars@.take(i as int).push(chars@[i as int]));
        i += 1;
    }
    assert(chars@.take(i as int) == chars@);
}

/// Whether a character is cut off the ends of a line: white space, or a byte-order mark.
pub open spec fn is_blank(c: char) -> bool {
    let code = c as u32;
    ||| 0x09 <= code <= 0x0D
    ||| code == 0x20
    ||| code == 0x85
    ||| code == 0xA0
    ||| code == 0x1680
    ||| 0x2000 <= code <= 0x200A
    ||| code == 0x2028
    ||| code == 0x2029
    ||| code == 0x202F
    ||| code == 0x205F
    ||| code == 0x3000
    ||| code == 0xFEFF
}

/// Tells whether a character is white space or a byte-order mark.
pub fn is_blank_char(c: char) -> (blank: bool)
    ensures
        blank == is_blank(c),
{
    let code: u32 = c as u32;
    (0x09 <= code && code <= 0x0D) || code == 0x20 || code == 0x85 || code == 0xA0 || code
        == 0x1680 || (0x2000 <= code && code <= 0x200A) || code == 0x2028 || code == 0x2029
        || code == 0x202F || code == 0x205F || code == 0x3000 || code == 0xFEFF
}

/// Whether `line[from..to]` is the line without the blank characters at its ends.
pub open spec fn is_trim_of(line: Seq<char>, from: int, to: int) -> bool {
    &&& 0 <= from <= to <= line.len()
    &&& forall|i: int| 0 <= i < from ==> is_blank(#[trigger] line[i])
    &&& forall|i: int| to <= i < line.len() ==> is_blank(#[trigger] line[i])
    &&& from < to ==> !is_blank(line[from]) && !is_blank(line[to - 1])
}

/// The line without the blank characters at its ends.
pub open spec fn trimmed(line: Seq<char>) -> Seq<char> {
    let (from, to) = choose|from: int, to: int| is_trim_of(line, from, to);
    line.subrange(from, to)
}

/// Whatever bounds cut the blank ends off a line, what is left is the same.
pub proof fn lemma_trim_unique(line: Seq<char>, from: int, to: int)
    requires
        is_trim_of(line, from, to),
    ensures
        trimmed(line) == line.subrange(from, to),
{
    let (a, b) = choose|a: int, b: int| is_trim_of(line, a, b);
    assert(is_trim_of(line, a, b));
    if from < to {
        if a == b {
            assert(is_blank(line[from]));
        } else {
            if a < from {
                assert(is_blank(line[a]));
            } else if from < a {
                assert(is_blank(line[from]));
            }
            if b < to {
                assert(is_blank(line[to - 1]));
            } else if to < b {
                assert(is_blank(line[b - 1]));
            }
        }
    } else {
        if a < b {
            assert(is_blank(line[a]));
        }
        assert(line.subrange(a, b) =~= line.subrange(from, to));
    }
}

/// The line without the blank characters at its ends.
pub fn trim(line: &[char]) -> (out: &[char])
    ensures
        out@ == trimmed(line@),
{
    let mut to: usize = line.len();
    while to > 0 && is_blank_char(line[to - 1])
        invariant
            to <= line@.len(),
            forall|i: int| to <= i < line@.len() ==> is_blank(#[trigger] line@[i]),
        decreases to,
    {
        to -= 1;
    }
    let mut from: usize = 0;
    while from < to && is_blank_char(line[from])
        invariant
            from <= to <= line@.len(),
            forall|i: int| 0 <= i < from ==> is_blank(#[trigger] line@[i]),
        decreases to - from,
    {
        from += 1;
    }
    proof {
        lemma_trim_unique(line@, from as int, to as int);
    }
    vstd::slice::slice_subrange(line, from, to)
}

/// The position of the first `c` in `s` at or after `from`; the length of `s` if
/// there is none.
pub open spec fn next_index(s: Seq<char>, c: char, from: nat) -> nat
    decreases s.len() - from,
{
    if from >= s.len() {
        s.len()
    } else if s[from as int] == c {
        from
    } else {
        next_index(s, c, from + 1)
    }
}

/// `next_index` lies between `from` and the length, no `c` stands before it, and
/// where it lies inside `s`, a `c` stands there.
pub proof fn lemma_next_index(s: Seq<char>, c: char, from: nat)
    requires
        from <= s.len(),
    ensures
        from <= next_index(s, c, from) <= s.len(),
        forall|i: int| from <= i < next_index(s, c, from) ==> s[i] != c,
        next_index(s, c, from) < s.len() ==> s[next_index(s, c, from) as int] == c,
    decreases s.len() - from,
{
    if from < s.len() && s[from as int] != c {
        lemma_next_index(s, c, from + 1);
    }
}

/// The position of the first `c` in `chars` at or after `from`; the length if there
/// is none.
pub fn find_char(chars: &[char], c: char, from: usize) -> (at: usize)
    ensures
        at == next_index(chars@, c, from as nat),
        at <= chars@.len(),
        from <= chars@.len() ==> from <= at,
{
    let len = chars.len();
    if from >= len {
        return len;
    }
    let mut at: usize = from;
    while at < len && chars[at] != c
        invariant
            len == chars@.len(),
            from <= at <= len,
            next_index(chars@, c, from as nat) == next_index(chars@, c, at as nat),
        decreases len - at,
    {
        at += 1;
    }
    at
}

/// Whether a character is one of the decimal digits `0` to `9`.
pub open spec fn is_digit(c: char) -> bool {
    '0' <= c <= '9'
}

/// The number that a decimal digit stands for.
pub open spec fn digit_value(c: char) -> nat
    recommends
        is_digit(c),
{
    (c as u32 - '0' as u32) as nat
}

/// The decimal digit for a number below ten.
pub open spec fn digit_char(d: nat) -> char
    recommends
        d < 10,
{
    if d == 0 {
        '0'
    } else if d == 1 {
        '1'
    } else if d == 2 {
        '2'
    } else if d == 3 {
        '3'
    } else if d == 4 {
        '4'
    } else if d == 5 {
        '5'
    } else if d == 6 {
        '6'
    } else if d == 7 {
        '7'
    } else if d == 8 {
        '8'
    } else {
        '9'
    }
}

/// Whether every character is a decimal digit.
pub open spec fn all_digits(s: Seq<char>) -> bool {
    forall|i: int| 0 <= i < s.len() ==> is_digit(#[trigger] s[i])
}

/// The number that a sequence of decimal digits stands for.
pub open spec fn digits_value(s: Seq<char>) -> nat
    decreases s.len(),
{
    if s.len() == 0 {
        0
    } else {
        digits_value(s.drop_last()) * 10 + digit_value(s.last())
    }
}

/// The digits of a numeral: the numeral without a plus sign in front.
pub open spec fn numeral_digits(s: Seq<char>) -> Seq<char> {
    if s.len() > 0 && s[0] == '+' {
        s.drop_first()
    } else {
        s
    }
}

/// The number that a numeral stands for: one or more decimal digits, which a plus
/// sign may precede. Anything else stands for no number.
pub open spec fn parse_number(s: Seq<char>) -> Option<nat> {
    let digits = numeral_digits(s);
    if digits.len() > 0 && all_digits(digits) {
        Some(digits_value(digits))
    } else {
        None
    }
}

/// The number that a numeral stands for, if it is at most `max`.
pub open spec fn parse_bounded(s: Seq<char>, max: nat) -> Option<nat> {
    match parse_number(s) {
        Some(value) => if value <= max {
            Some(value)
        } else {
            None
        },
        None => None,
    }
}

/// A sequence of digits stands for at least as much as any of its prefixes.
pub proof fn lemma_digits_value_grows(s: Seq<char>, n: int)
    requires
        0 <= n <= s.len(),
    ensures
        digits_value(s.take(n)) <= digits_value(s),
    decreases s.len(),
{
    if n == s.len() {
        assert(s.take(n) == s);
    } else {
        lemma_digits_value_grows(s.drop_last(), n);
        assert(s.drop_last().take(n) == s.take(n));
    }
}

/// The number that the numeral `chars` stands for, if it fits in 64 bits.
pub fn parse_u64(chars: &[char]) -> (out: Option<u64>)
    ensures
        out == match parse_bounded(chars@, u64::MAX as nat) {
            Some(value) => Some(value as u64),
            None => None,
        },
{
    let len = chars.len();
    let first: usize = if len > 0 && chars[0] == '+' {
        1
    } else {
        0
    };
    let ghost digits = numeral_digits(chars@);
    assert(digits == chars@.skip(first as int));
    if first == len {
        return None;
    }
    let mut value: u64 = 0;
    let mut i: usize = first;
    while i < len
        invariant
            first <= i <= len,
            len == chars@.len(),
            digits == numeral_digits(chars@),
            digits == chars@.skip(first as int),
            all_digits(digits.take(i - first)),
            value == digits_value(digits.take(i - first)),
        decreases len - i,
    {
        let c = chars[i];
        assert(c == digits[i - first]);
        if c < '0' || c > '9' {
            assert(!is_digit(digits[i - first]));
            return None;
        }
        let digit: u64 = (c as u32 - '0' as u32) as u64;
        proof {
            assert(digits.take(i - first + 1).drop_last() == digits.take(i - first));
            assert(digits.take(i - first + 1).last() == c);
            assert forall|k: int| 0 <= k < i - first + 1 implies is_digit(
                #[trigger] digits.take(i - first + 1)[k],
            ) by {
                if k < i - first {
                    assert(digits.take(i - first)[k] == digits[k]);
                }
            }
            lemma_digits_value_grows(digits, i - first + 1);
        }
        let scaled = match value.checked_mul(10) {
            Some(v) => v,
            None => {
                assert(!all_digits(digits) || digits_value(digits) > u64::MAX);
                return None;
            },
        };
        value = match scaled.checked_add(digit) {
            Some(v) => v,
            None => {
                assert(!all_digits(digits) || digits_value(digits) > u64::MAX);
                return None;
            },
        };
        i += 1;
    }
    assert(digits.take(i - first) == digits);
    Some(value)
}

/// The number that the numeral `chars` stands for, if it fits in 32 bits.
pub fn parse_u32(chars: &[char]) -> (out: Option<u32>)
    ensures
        out == match parse_bounded(chars@, u32::MAX as nat) {
            Some(value) => Some(value as u32),
            None => None,
        },
{
    match parse_u64(chars) {
        Some(value) => if value <= u32::MAX as u64 {
            Some(value as u32)
        } else {
            None
        },
        None => None,
    }
}

/// The decimal numeral of `n`, without leading zeros.
pub open spec fn decimal(n: nat) -> Seq<char>
    decreases n,
{
    if n < 10 {
        seq![digit_char(n)]
    } else {
        decimal(n / 10).push(digit_char(n % 10))
    }
}

/// `count` zeros.
pub open spec fn zeros(count: nat) -> Seq<char> {
    Seq::new(count, |i: int| '0')
}

/// The decimal numeral of `n`, with zeros in front where it has fewer than `width`
/// digits.
pub open spec fn padded(n: nat, width: nat) -> Seq<char> {
    let digits = decimal(n);
    if digits.len() >= width {
        digits
    } else {
        zeros((width - digits.len()) as nat) + digits
    }
}

/// The decimal digit for a number below ten.
fn digit_of(d: u64) -> (c: char)
    requires
        d < 10,
    ensures
        c == digit_char(d as nat),
{
    if d == 0 {
        '0'
    } else if d == 1 {
        '1'
    } else if d == 2 {
        '2'
    } else if d == 3 {
        '3'
    } else if d == 4 {
        '4'
    } else if d == 5 {
        '5'
    } else if d == 6 {
        '6'
    } else if d == 7 {
        '7'
    } else if d == 8 {
        '8'
    } else {
        '9'
    }
}

/// Appends to `out` the decimal numeral of `n`, with zeros in front where it has fewer
/// than `width` digits.
pub fn push_padded(out: &mut String, n: u64, width: usize)
    ensures
        final(out)@ == old(out)@ + padded(n as nat, width as nat),
{
    let mut reversed: Vec<char> = Vec::new();
    let mut rest: u64 = n;
    reversed.push(digit_of(rest % 10));
    rest = rest / 10;
    let ghost mut numeral: Seq<char> = seq![digit_char((n % 10) as nat)];
    while rest > 0
        invariant
            numeral.len() == reversed@.len(),
            numeral.len() > 0,
            forall|j: int|
                0 <= j < numeral.len() ==> numeral[j] == reversed@[numeral.len() - 1 - j],
            decimal(n as nat) == if rest > 0 {
                decimal(rest as nat) + numeral
            } else {
                numeral
            },
        decreases rest,
    {
        let c = digit_of(rest % 10);
        reversed.push(c);
        proof {
            let shorter = rest / 10;
            assert(decimal(rest as nat) + numeral == if shorter > 0 {
                decimal(shorter as nat) + (seq![c] + numeral)
            } else {
                seq![c] + numeral
            }) by {
                if shorter > 0 {
                    assert(decimal(shorter as nat).push(c) + numeral =~= decimal(shorter as nat) + (
                    seq![c] + numeral));
                } else {
                    assert(decimal(rest as nat) == seq![c]);
                }
            }
            numeral = seq![c] + numeral;
        }
        rest = rest / 10;
    }
    assert(numeral == decimal(n as nat));
    let ghost digits = numeral;
    while reversed.len() < width
        invariant
            digits == decimal(n as nat),
            numeral.len() == reversed@.len(),
            forall|j: int|
                0 <= j < numeral.len() ==> numeral[j] == reversed@[numeral.len() - 1 - j],
            numeral.len() >= digits.len(),
            numeral == zeros((numeral.len() - digits.len()) as nat) + digits,
            numeral.len() > digits.len() ==> numeral.len() <= width,
        decreases width - reversed@.len(),
    {
        reversed.push('0');
        proof {
            assert(seq!['0'] + (zeros((numeral.len() - digits.len()) as nat) + digits) =~= zeros(
                (numeral.len() + 1 - digits.len()) as nat,
            ) + digits);
            numeral = seq!['0'] + numeral;
        }
    }
    assert(numeral == padded(n as nat, width as nat)) by {
        if digits.len() >= width {
            assert(zeros(0) + digits =~= digits);
        }
    }
    let mut i: usize = reversed.len();
    while i > 0
        invariant
            i <= reversed@.len(),
            numeral.len() == reversed@.len(),
            forall|j: int|
                0 <= j < numeral.len() ==> numeral[j] == reversed@[numeral.len() - 1 - j],
            out@ == old(out)@ + numeral.take(reversed@.len() - i),
        decreases i,
    {
        i -= 1;
        out.push(reversed[i]);
        assert(numeral.take(reversed@.len() - i) == numeral.take(reversed@.len() - i - 1).push(
            reversed@[i as int],
        ));
    }
    assert(numeral.take(reversed@.len() as int) == numeral);
}

} // verus!
