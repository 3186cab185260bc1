use crate::dump_snapshot::names_view;
use vstd::prelude::*;
use vstd::string::*;

verus! {

/// Whether `c` separates words: the characters that Unicode calls white space.
pub open spec fn is_space(c: char) -> bool {
    let u = c as u32;
    ||| (0x09 <= u <= 0x0d)
    ||| u == 0x20
    ||| u == 0x85
    ||| u == 0xa0
    ||| u == 0x1680
    ||| (0x2000 <= u <= 0x200a)
    ||| u == 0x2028
    ||| u == 0x2029
    ||| u == 0x202f
    ||| u == 0x205f
    ||| u == 0x3000
}

/// Decides whether `c` separates words.
pub fn char_is_space(c: char) -> (r: bool)
    ensures
        r == is_space(c),
{
    let u: u32 = c as u32;
    (0x09 <= u && u <= 0x0d) || u == 0x20 || u == 0x85 || u == 0xa0 || u == 0x1680 || (0x2000 <= u
        && u <= 0x200a) || u == 0x2028 || u == 0x2029 || u == 0x202f || u == 0x205f || u == 0x3000
}

/// The words that end inside `s`, and the letters of the word that `s`
/// ends in, which is empty where `s` ends in white space.
pub open spec fn scan_words(s: Seq<char>) -> (Seq<Seq<char>>, Seq<char>)
    decreases s.len(),
{
    if s.len() == 0 {
        (Seq::empty(), Seq::empty())
    } else {
        let (done, current) = scan_words(s.drop_last());
        if is_space(s.last()) {
            if current.len() > 0 {
                (done.push(current), Seq::empty())
            } else {
                (done, Seq::empty())
            }
        } else {
            (done, current.push(s.last()))
        }
    }
}

/// The words of `s`: its longest runs of characters that are not white
/// space, from left to right.
pub open spec fn words(s: Seq<char>) -> Seq<Seq<char>> {
    let (done, current) = scan_words(s);
    if current.len() > 0 {
        done.push(current)
    } else {
        done
    }
}

/// Splits `s` into its words.
pub fn split_whitespace(s: &str) -> (r: Vec<String>)
    ensures
        names_view(r@) == words(s@),
{
    if s.is_ascii() {
        split_ascii(s)
    } else {
        split_chars(s)
    }
}

/// Splits a text of one-byte characters into its words, byte by byte.
fn split_ascii(s: &str) -> (r: Vec<String>)
    requires
        is_ascii(s),
    ensures
        names_view(r@) == words(s@),
{
    proof {
        is_ascii_spec_bytes(s);
        assert(s.spec_bytes().len() == s@.len());
    }
    let n: usize = s.as_bytes().len();
    let mut r: Vec<String> = Vec::new();
    let mut start: usize = 0;
    let mut i: usize = 0;
    while i < n
        invariant
            is_ascii(s),
            n == s@.len(),
            start <= i <= n,
            scan_words(s@.take(i as int)) == (names_view(r@), s@.subrange(start as int, i as int)),
        decreases n - i,
    {
        let b: u8 = s.get_ascii(i);
        let ghost c: char = s@[i as int];
        let ghost before = names_view(r@);
        proof {
            assert(s@.take(i + 1).drop_last() =~= s@.take(i as int));
            assert(s@.take(i + 1).last() == c);
            assert('\0' <= c <= '\u{7f}');
            assert(c as u32 == b as u32);
        }
        if (0x09 <= b && b <= 0x0d) || b == 0x20 {
            if start < i {
                r.push(s.substring_ascii(start, i).to_owned());
                proof {
                    assert(names_view(r@) =~= before.push(s@.subrange(start as int, i as int)));
                }
            }
            start = i + 1;
            proof {
                assert(s@.subrange(start as int, i + 1) =~= Seq::<char>::empty());
            }
        } else {
            proof {
                assert(s@.subrange(start as int, i + 1) =~= s@.subrange(
                    start as int,
                    i as int,
                ).push(c));
            }
        }
        i += 1;
    }
    proof {
        assert(s@.take(n as int) =~= s@);
    }
    if start < n {
        let ghost before = names_view(r@);
        r.push(s.substring_ascii(start, n).to_owned());
        proof {
            assert(names_view(r@) =~= before.push(s@.subrange(start as int, n as int)));
        }
    }
    r
}

/// Splits a text into its words, character by character.
fn split_chars(s: &str) -> (r: Vec<String>)
    ensures
        names_view(r@) == words(s@),
{
    let n: usize = s.unicode_len();
    let mut r: Vec<String> = Vec::new();
    let mut start: usize = 0;
    let mut i: usize = 0;
    while i < n
        invariant
            n == s@.len(),
            start <= i <= n,
            scan_words(s@.take(i as int)) == (names_view(r@), s@.subrange(start as int, i as int)),
        decreases n - i,
    {
        let c: char = s.get_char(i);
        let ghost before = names_view(r@);
        proof {
            assert(s@.take(i + 1).drop_last() =~= s@.take(i as int));
            assert(s@.take(i + 1).last() == c);
        }
        if char_is_space(c) {
            if start < i {
                r.push(s.substring_char(start, i).to_owned());
                proof {
                    assert(names_view(r@) =~= before.push(s@.subrange(start as int, i as int)));
                }
            }
            start = i + 1;
            proof {
                assert(s@.subrange(start as int, i + 1) =~= Seq::<char>::empty());
            }
        } else {
            proof {
                assert(s@.subrange(start as int, i + 1) =~= s@.subrange(
                    start as int,
                    i as int,
                ).push(c));
            }
        }
        i += 1;
    }
    proof {
        assert(s@.take(n as int) =~= s@);
    }
    if start < n {
        let ghost before = names_view(r@);
        r.push(s.substring_char(start, n).to_owned());
        proof {
            assert(names_view(r@) =~= before.push(s@.subrange(start as int, n as int)));
        }
    }
    r
}

/// Counts the words of `s`.
pub fn count_words(s: &str) -> (r: usize)
    ensures
        r == words(s@).len(),
{
    let ascii: bool = s.is_ascii();
    proof {
        if ascii {
            is_ascii_spec_bytes(s);
            assert(s.spec_bytes().len() == s@.len());
        }
    }
    let n: usize = if ascii {
        s.as_bytes().len()
    } else {
        s.unicode_len()
    };
    let mut count: usize = 0;
    let mut inside: bool = false;
    let mut i: usize = 0;
    while i < n
        invariant
            ascii == is_ascii(s),
            n == s@.len(),
            i <= n,
            count == scan_words(s@.take(i as int)).0.len(),
            inside == (scan_words(s@.take(i as int)).1.len() > 0),
            count + (if inside { 1int } else { 0int }) <= i,
        decreases n - i,
    {
        let ghost c: char = s@[i as int];
        proof {
            assert(s@.take(i + 1).drop_last() =~= s@.take(i as int));
            assert(s@.take(i + 1).last() == c);
        }
        let space: bool = if ascii {
            let b: u8 = s.get_ascii(i);
            proof {
                assert('\0' <= c <= '\u{7f}');
                assert(c as u32 == b as u32);
            }
            (0x09 <= b && b <= 0x0d) || b == 0x20
        } else {
            char_is_space(s.get_char(i))
        };
        if space {
            if inside {
                count += 1;
                inside = false;
            }
        } else {
            inside = true;
        }
        i += 1;
    }
    proof {
        assert(s@.take(n as int) =~= s@);
    }
    if inside {
        count + 1
    } else {
        count
    }
}

/// Whether `c` is one of the digits `0` to `9`.
pub open spec fn is_digit(c: char) -> bool {
    0x30 <= c as u32 <= 0x39
}

/// Every character of `s` is a digit.
pub open spec fn all_digits(s: Seq<char>) -> bool {
    forall|i: int| 0 <= i < s.len() ==> is_digit(#[trigger] s[i])
}

/// The number that the digits `s` write in base ten.
pub open spec fn decimal(s: Seq<char>) -> nat
    decreases s.len(),
{
    if s.len() == 0 {
        0
    } else {
        (decimal(s.drop_last()) * 10 + (s.last() as u32 - 0x30)) as nat
    }
}

/// The number that `s` writes: digits after an optional `+`, as long as
/// the number fits; `None` for every other text.
pub open spec fn decimal_u64(s: Seq<char>) -> Option<u64> {
    let digits = if s.len() > 0 && s[0] == '+' {
        s.skip(1)
    } else {
        s
    };
    if digits.len() > 0 && all_digits(digits) && decimal(digits) <= u64::MAX {
        Some(decimal(digits) as u64)
    } else {
        None
    }
}

/// More digits never write a smaller number.
pub proof fn lemma_decimal_grows(s: Seq<char>, k: int)
    requires
        0 <= k <= s.len(),
        all_digits(s),
    ensures
        decimal(s.take(k)) <= decimal(s),
    decreases s.len() - k,
{
    if k < s.len() {
        lemma_decimal_grows(s, k + 1);
        assert(s.take(k + 1).drop_last() =~= s.take(k));
        assert(is_digit(s[k]));
    } else {
        assert(s.take(k) =~= s);
    }
}

/// Why a text writes no number.
#[derive(Debug, Clone, Copy, PartialEq, Eq, Structural)]
pub enum NumberError {
    Empty,
    InvalidDigit,
    PosOverflow,
}

/// What is said of a text that writes no number.
pub open spec fn number_error_text(e: NumberError) -> Seq<char> {
    match e {
        NumberError::Empty => "cannot parse integer from empty string"@,
        NumberError::InvalidDigit => "invalid digit found in string"@,
        NumberError::PosOverflow => "number too large to fit in target type"@,
    }
}

impl NumberError {
    /// What is said of a text that writes no number.
    pub fn describe(&self) -> (r: String)
        ensures
            r@ == number_error_text(*self),
    {
        match self {
            NumberError::Empty => "cannot parse integer from empty string".to_owned(),
            NumberError::InvalidDigit => "invalid digit found in string".to_owned(),
            NumberError::PosOverflow => "number too large to fit in target type".to_owned(),
        }
    }
}

/// The first thing that is wrong with `digits` from place `k` on, read
/// from left to right: a character that is no digit, or a digit with
/// which the number grows too large.
pub open spec fn first_fault(digits: Seq<char>, k: nat) -> Option<NumberError>
    decreases digits.len() - k,
{
    if k >= digits.len() {
        None
    } else if !is_digit(digits[k as int]) {
        Some(NumberError::InvalidDigit)
    } else if decimal(digits.take(k as int + 1)) > u64::MAX {
        Some(NumberError::PosOverflow)
    } else {
        first_fault(digits, k + 1)
    }
}

/// Why `s` writes no number, or `None` where it writes one: it is empty,
/// or holds no digit behind an optional `+`, or else what is wrong first.
pub open spec fn number_fault(s: Seq<char>) -> Option<NumberError> {
    let digits = if s.len() > 0 && s[0] == '+' {
        s.skip(1)
    } else {
        s
    };
    if s.len() == 0 {
        Some(NumberError::Empty)
    } else if digits.len() == 0 {
        Some(NumberError::InvalidDigit)
    } else {
        first_fault(digits, 0)
    }
}

/// Reads a number written in base ten, or says why the text writes none.
pub fn read_u64(s: &str) -> (r: Result<u64, NumberError>)
    ensures
        match r {
            Ok(n) => decimal_u64(s@) == Some(n) && number_fault(s@).is_none(),
            Err(e) => decimal_u64(s@).is_none() && number_fault(s@) == Some(e),
        },
{
    let n: usize = s.unicode_len();
    if n == 0 {
        return Err(NumberError::Empty);
    }
    let first: char = s.get_char(0);
    let begin: usize = if first == '+' {
        1
    } else {
        0
    };
    let ghost digits = s@.skip(begin as int);
    proof {
        assert(s@.skip(0) =~= s@);
    }
    if begin == n {
        return Err(NumberError::InvalidDigit);
    }
    let mut value: u64 = 0;
    let mut i: usize = begin;
    while i < n
        invariant
            n == s@.len(),
            n > 0,
            begin <= i <= n,
            begin < n,
            digits == s@.skip(begin as int),
            digits == (if s@.len() > 0 && s@[0] == '+' {
                s@.skip(1)
            } else {
                s@
            }),
            all_digits(digits.take(i - begin)),
            value == decimal(digits.take(i - begin)),
            first_fault(digits, 0) == first_fault(digits, (i - begin) as nat),
        decreases n - i,
    {
        let c: char = s.get_char(i);
        let u: u32 = c as u32;
        proof {
            assert(digits[i - begin] == c);
            assert(digits.take(i - begin + 1).drop_last() =~= digits.take(i - begin));
            assert(digits.take(i - begin + 1).last() == c);
        }
        if u < 0x30 || u > 0x39 {
            proof {
                assert(!is_digit(digits[i - begin]));
            }
            return Err(NumberError::InvalidDigit);
        }
        let digit: u64 = (u - 0x30) as u64;
        proof {
            assert(is_digit(digits[i - begin]));
            assert forall|m: int| 0 <= m < i - begin + 1 implies is_digit(
                #[trigger] digits.take(i - begin + 1)[m],
            ) by {
                if m < i - begin {
                    assert(digits.take(i - begin)[m] == digits[m]);
                }
            }
        }
        if value > (u64::MAX - digit) / 10 {
            proof {
                assert(decimal(digits.take(i - begin + 1)) > u64::MAX);
                if all_digits(digits) {
                    lemma_decimal_grows(digits, i - begin + 1);
                }
            }
            return Err(NumberError::PosOverflow);
        }
        value = value * 10 + digit;
        i += 1;
    }
    proof {
        assert(digits.take(n - begin) =~= digits);
    }
    Ok(value)
}

/// Reads a number written in base ten.
pub fn parse_u64(s: &str) -> (r: Option<u64>)
    ensures
        r == decimal_u64(s@),
{
    match read_u64(s) {
        Ok(n) => Some(n),
        Err(_) => None,
    }
}

/// Whether `s` begins with `prefix`.
pub open spec fn has_prefix(s: Seq<char>, prefix: Seq<char>) -> bool {
    prefix.len() <= s.len() && s.take(prefix.len() as int) == prefix
}

/// Decides whether `s` begins with `prefix`.
pub fn starts_with(s: &str, prefix: &str) -> (r: bool)
    ensures
        r == has_prefix(s@, prefix@),
{
    let n: usize = s.unicode_len();
    let m: usize = prefix.unicode_len();
    if m > n {
        return false;
    }
    let mut i: usize = 0;
    while i < m
        invariant
            n == s@.len(),
            m == prefix@.len(),
            m <= n,
            i <= m,
            forall|k: int| 0 <= k < i ==> s@[k] == prefix@[k],
        decreases m - i,
    {
        if s.get_char(i) != prefix.get_char(i) {
            proof {
                assert(s@.take(m as int)[i as int] != prefix@[i as int]);
            }
            return false;
        }
        i += 1;
    }
    proof {
        assert(s@.take(m as int) =~= prefix@);
    }
    true
}

/// The character that writes the digit `d`.
pub open spec fn digit_char(d: int) -> char {
    if d == 0 {
        '0'
    } else if d == 1 {
        '1'
    } else if d == 2 {
        '2'
    } else if d == 3 {
        '3'
    } else if d == 4 {
        '4'
    } else if d == 5 {
        '5'
    } else if d == 6 {
        '6'
    } else if d == 7 {
        '7'
    } else if d == 8 {
        '8'
    } else {
        '9'
    }
}

/// The digits that write `n` in base ten, without leading zeros.
pub open spec fn digits_of(n: nat) -> Seq<char>
    decreases n,
{
    if n < 10 {
        seq![digit_char(n as int)]
    } else {
        digits_of(n / 10).push(digit_char((n % 10) as int))
    }
}

/// The text of one digit.
fn digit_text(d: u64) -> (r: &'static str)
    requires
        d < 10,
    ensures
        r@ == seq![digit_char(d as int)],
{
    proof {
        reveal_strlit("0");
        reveal_strlit("1");
        reveal_strlit("2");
        reveal_strlit("3");
        reveal_strlit("4");
        reveal_strlit("5");
        reveal_strlit("6");
        reveal_strlit("7");
        reveal_strlit("8");
        reveal_strlit("9");
    }
    let r = if d == 0 {
        "0"
    } else if d == 1 {
        "1"
    } else if d == 2 {
        "2"
    } else if d == 3 {
        "3"
    } else if d == 4 {
        "4"
    } else if d == 5 {
        "5"
    } else if d == 6 {
        "6"
    } else if d == 7 {
        "7"
    } else if d == 8 {
        "8"
    } else {
        "9"
    };
    proof {
        assert(r@ =~= seq![digit_char(d as int)]);
    }
    r
}

/// Writes `n` in base ten.
pub fn format_u64(n: u64) -> (r: String)
    ensures
        r@ == digits_of(n as nat),
    decreases n,
{
    if n < 10 {
        digit_text(n).to_owned()
    } else {
        let mut r = format_u64(n / 10);
        r.append(digit_text(n % 10));
        proof {
            assert(r@ =~= digits_of((n / 10) as nat).push(digit_char((n % 10) as int)));
        }
        r
    }
}

} // verus!
