//! Tokens, and what the text of a literal token denotes.
use vstd::prelude::*;

use crate::diag::Code;
use crate::text;
use crate::text::{char_of, chars_of, push_char};

verus! {

/// What a piece of source text is.
#[derive(Debug, Clone, Copy, PartialEq, Eq, Structural)]
pub enum Token {
    Whitespace,
    Where,
    Never,
    /// A lower-case name: a field.
    LId,
    /// An upper-case name: a variable.
    UId,
    /// A qualified name: a predicate.
    QId,
    Nat,
    String,
    Underscore,
    LBrace,
    RBrace,
    LParen,
    RParen,
    Comma,
    Semi,
    Dot,
    DotDot,
    Eq,
    Minus,
    Pipe,
    Question,
    Bang,
    Error,
}

/// Why a literal's text does not denote a value.
#[derive(Debug, Clone, Copy, PartialEq, Eq, Structural)]
pub enum LiteralError {
    IntUnderscore,
    IntLeadingZero,
    IntRange,
    StringEscape,
}

impl LiteralError {
    /// The code it is reported under.
    pub open spec fn report_code(self) -> Code {
        match self {
            LiteralError::IntUnderscore => Code::LitIntUnderscore,
            LiteralError::IntLeadingZero => Code::LitIntLeadingZero,
            LiteralError::IntRange => Code::LitIntRange,
            LiteralError::StringEscape => Code::LitStringEscape,
        }
    }

    /// The code it is reported under.
    pub fn code(self) -> (code: Code)
        ensures
            code == self.report_code(),
    {
        match self {
            LiteralError::IntUnderscore => Code::LitIntUnderscore,
            LiteralError::IntLeadingZero => Code::LitIntLeadingZero,
            LiteralError::IntRange => Code::LitIntRange,
            LiteralError::StringEscape => Code::LitStringEscape,
        }
    }

    /// What it says.
    pub open spec fn wording(self) -> Seq<char> {
        match self {
            LiteralError::IntUnderscore => "a digit separator must stand between two digits"@,
            LiteralError::IntLeadingZero => "an integer has no leading zeros"@,
            LiteralError::IntRange => "an integer must fit 64 bits"@,
            LiteralError::StringEscape => "not an escape a string can hold"@,
        }
    }

    /// What it says.
    pub fn message(self) -> (text: &'static str)
        ensures
            text@ == self.wording(),
    {
        match self {
            LiteralError::IntUnderscore => "a digit separator must stand between two digits",
            LiteralError::IntLeadingZero => "an integer has no leading zeros",
            LiteralError::IntRange => "an integer must fit 64 bits",
            LiteralError::StringEscape => "not an escape a string can hold",
        }
    }
}

// ---- integers ---------------------------------------------------------------

/// A separator at `i` that is first, last, or followed by another.
pub open spec fn out_of_place(text: Seq<char>, i: int) -> bool {
    &&& 0 <= i < text.len()
    &&& text[i] == '_'
    &&& i == 0 || i == text.len() - 1 || text[i + 1] == '_'
}

/// Whether a separator stands anywhere but between two digits.
pub open spec fn misplaced(text: Seq<char>) -> bool {
    exists|i: int| #[trigger] out_of_place(text, i)
}

/// The text without its separators.
pub open spec fn figures(text: Seq<char>) -> Seq<char>
    decreases text.len(),
{
    if text.len() == 0 {
        Seq::empty()
    } else if text.last() == '_' {
        figures(text.drop_last())
    } else {
        figures(text.drop_last()).push(text.last())
    }
}

/// Whether every character is a digit.
pub open spec fn all_digits(text: Seq<char>) -> bool {
    forall|i: int| 0 <= i < text.len() ==> '0' <= #[trigger] text[i] <= '9'
}

/// The number some digits write.
pub open spec fn number(digits: Seq<char>) -> nat
    decreases digits.len(),
{
    if digits.len() == 0 {
        0
    } else {
        (number(digits.drop_last()) * 10 + (digits.last() as int - '0' as int)) as nat
    }
}

/// The number a literal's digits denote.
pub open spec fn nat_value(text: Seq<char>) -> Result<u64, LiteralError> {
    let digits = figures(text);
    if misplaced(text) {
        Err(LiteralError::IntUnderscore)
    } else if digits.len() > 1 && digits[0] == '0' {
        Err(LiteralError::IntLeadingZero)
    } else if digits.len() == 0 || !all_digits(digits) || number(digits) > u64::MAX {
        Err(LiteralError::IntRange)
    } else {
        Ok(number(digits) as u64)
    }
}

/// More digits make no smaller number.
proof fn lemma_number_grows(digits: Seq<char>, k: int)
    requires
        0 <= k <= digits.len(),
        all_digits(digits),
    ensures
        number(digits.take(k)) <= number(digits),
    decreases digits.len() - k,
{
    if k < digits.len() {
        lemma_number_grows(digits, k + 1);
        assert(digits.take(k + 1).drop_last() =~= digits.take(k));
        assert(digits.take(k + 1).last() == digits[k]);
    } else {
        assert(digits.take(k) =~= digits);
    }
}

/// The number a literal's digits denote.
pub fn parse_nat(text: &str) -> (value: Result<u64, LiteralError>)
    ensures
        value == nat_value(text@),
{
    let chars: Vec<char> = chars_of(text);
    let mut digits: Vec<char> = Vec::new();
    let mut i: usize = 0;
    while i < chars.len()
        invariant
            chars@ == text@,
            i <= chars@.len(),
            digits@ == figures(chars@.take(i as int)),
            forall|j: int| 0 <= j < i ==> !#[trigger] out_of_place(chars@, j),
        decreases chars@.len() - i,
    {
        proof {
            assert(chars@.take(i + 1).drop_last() =~= chars@.take(i as int));
            assert(chars@.take(i + 1).last() == chars@[i as int]);
        }
        if chars[i] == '_' {
            if i == 0 || i + 1 == chars.len() || chars[i + 1] == '_' {
                proof {
                    assert(out_of_place(chars@, i as int));
                }
                return Err(LiteralError::IntUnderscore);
            }
        } else {
            digits.push(chars[i]);
        }
        i += 1;
    }
    proof {
        assert(chars@.take(i as int) =~= chars@);
        assert(!misplaced(text@));
    }
    if digits.len() > 1 && digits[0] == '0' {
        return Err(LiteralError::IntLeadingZero);
    }
    if digits.len() == 0 {
        return Err(LiteralError::IntRange);
    }
    let mut value: u64 = 0;
    let mut k: usize = 0;
    while k < digits.len()
        invariant
            digits@ == figures(text@),
            !misplaced(text@),
            !(digits@.len() > 1 && digits@[0] == '0'),
            k <= digits@.len(),
            value == number(digits@.take(k as int)),
            forall|j: int| 0 <= j < k ==> '0' <= #[trigger] digits@[j] <= '9',
        decreases digits@.len() - k,
    {
        let c: char = digits[k];
        if c < '0' || c > '9' {
            return Err(LiteralError::IntRange);
        }
        let digit: u64 = c as u64 - '0' as u64;
        proof {
            assert(digits@.take(k + 1).drop_last() =~= digits@.take(k as int));
            assert(digits@.take(k + 1).last() == c);
            if value * 10 + digit > u64::MAX && all_digits(digits@) {
                lemma_number_grows(digits@, k + 1);
            }
        }
        if value > 1844674407370955161 || (value == 1844674407370955161 && digit > 5) {
            return Err(LiteralError::IntRange);
        }
        value = value * 10 + digit;
        k += 1;
    }
    proof {
        assert(digits@.take(k as int) =~= digits@);
    }
    Ok(value)
}

/// The integer a magnitude and a sign denote.
pub open spec fn signed_value(n: u64, negative: bool) -> Result<i64, LiteralError> {
    let value = if negative {
        -(n as int)
    } else {
        n as int
    };
    if i64::MIN <= value <= i64::MAX {
        Ok(value as i64)
    } else {
        Err(LiteralError::IntRange)
    }
}

/// The integer a magnitude and a sign denote. The least one's magnitude is past the
/// greatest.
pub fn signed_literal(n: u64, negative: bool) -> (value: Result<i64, LiteralError>)
    ensures
        value == signed_value(n, negative),
{
    let wide: i128 = if negative {
        -(n as i128)
    } else {
        n as i128
    };
    if wide < i64::MIN as i128 || wide > i64::MAX as i128 {
        return Err(LiteralError::IntRange);
    }
    Ok(wide as i64)
}

// ---- what integers denote ---------------------------------------------------

/// One digit, as text.
pub proof fn lemma_digit(d: nat)
    requires
        d < 10,
    ensures
        text::digit(d).len() == 1,
        '0' <= text::digit(d)[0] <= '9',
        text::digit(d)[0] as int - '0' as int == d,
{
    reveal_strlit("0");
    reveal_strlit("1");
    reveal_strlit("2");
    reveal_strlit("3");
    reveal_strlit("4");
    reveal_strlit("5");
    reveal_strlit("6");
    reveal_strlit("7");
    reveal_strlit("8");
    reveal_strlit("9");
}

/// A number in decimal is digits, without a leading zero, and writes the number.
pub proof fn lemma_decimal(n: nat)
    ensures
        text::decimal(n).len() > 0,
        all_digits(text::decimal(n)),
        number(text::decimal(n)) == n,
        text::decimal(n).len() > 1 ==> text::decimal(n)[0] != '0',
        n > 0 ==> text::decimal(n)[0] != '0',
    decreases n,
{
    reveal_with_fuel(number, 2);
    let all = text::decimal(n);
    if n < 10 {
        lemma_digit(n);
        assert(all.drop_last() =~= Seq::<char>::empty());
        assert(number(all.drop_last()) == 0);
    } else {
        lemma_decimal(n / 10);
        lemma_digit(n % 10);
        let (most, last) = (text::decimal(n / 10), text::digit(n % 10));
        assert(all =~= most + last);
        assert(all.drop_last() =~= most);
        assert(all.last() == last[0]);
        assert(all[0] == most[0]);
        assert forall|i: int| 0 <= i < all.len() implies '0' <= #[trigger] all[i] <= '9' by {
            if i < most.len() {
                assert(all[i] == most[i]);
            } else {
                assert(all[i] == last[0]);
            }
        }
        assert(number(all) == (n / 10) * 10 + n % 10);
    }
}

/// Digits without a leading zero are the number they write, in decimal.
proof fn lemma_in_decimal(digits: Seq<char>)
    requires
        digits.len() > 0,
        all_digits(digits),
        digits.len() > 1 ==> digits[0] != '0',
    ensures
        digits == text::decimal(number(digits)),
        digits[0] != '0' ==> number(digits) > 0,
    decreases digits.len(),
{
    reveal_with_fuel(number, 2);
    let (most, last) = (digits.drop_last(), digits.last());
    let d = (last as int - '0' as int) as nat;
    assert('0' <= digits[digits.len() - 1] <= '9');
    lemma_digit(d);
    assert(text::digit(d) =~= seq![last]);
    if digits.len() == 1 {
        assert(most =~= Seq::<char>::empty());
        assert(number(digits) == d);
        assert(digits =~= seq![last]);
    } else {
        assert forall|i: int| 0 <= i < most.len() implies '0' <= #[trigger] most[i] <= '9' by {
            assert(most[i] == digits[i]);
        }
        assert(most[0] == digits[0]);
        lemma_in_decimal(most);
        let n = number(digits);
        assert(n == number(most) * 10 + d);
        assert(n / 10 == number(most) && n % 10 == d && n >= 10);
        assert(digits =~= most + seq![last]);
    }
}

proof fn lemma_figures_of_digits(digits: Seq<char>)
    requires
        all_digits(digits),
    ensures
        figures(digits) == digits,
        !misplaced(digits),
    decreases digits.len(),
{
    if digits.len() > 0 {
        let most = digits.drop_last();
        assert forall|i: int| 0 <= i < most.len() implies '0' <= #[trigger] most[i] <= '9' by {
            assert(most[i] == digits[i]);
        }
        lemma_figures_of_digits(most);
        assert('0' <= digits[digits.len() - 1] <= '9');
        assert(digits =~= most.push(digits.last()));
    }
    assert forall|i: int| !#[trigger] out_of_place(digits, i) by {
        if 0 <= i < digits.len() {
            assert('0' <= digits[i] <= '9');
        }
    }
}

proof fn lemma_figures_more(a: Seq<char>, b: Seq<char>)
    ensures
        figures(a + b) == figures(a) + figures(b),
    decreases b.len(),
{
    if b.len() == 0 {
        assert(a + b =~= a);
        assert(figures(a) + Seq::<char>::empty() =~= figures(a));
    } else {
        lemma_figures_more(a, b.drop_last());
        assert((a + b).drop_last() =~= a + b.drop_last());
        assert((a + b).last() == b.last());
        assert((figures(a) + figures(b.drop_last())).push(b.last()) =~= figures(a) + figures(
            b.drop_last(),
        ).push(b.last()));
    }
}

/// What a literal without separators denotes: digits are the decimal number they write, and
/// are refused where it has a leading zero or does not fit 64 bits.
pub proof fn law_digits_denote_their_decimal_number(digits: Seq<char>)
    requires
        digits.len() > 0,
        all_digits(digits),
    ensures
        digits.len() > 1 && digits[0] == '0' ==> nat_value(digits) == Err::<u64, LiteralError>(
            LiteralError::IntLeadingZero,
        ),
        !(digits.len() > 1 && digits[0] == '0') ==> exists|n: nat|
            digits == #[trigger] text::decimal(n) && nat_value(digits) == (if n <= u64::MAX {
                Ok::<u64, LiteralError>(n as u64)
            } else {
                Err(LiteralError::IntRange)
            }),
{
    lemma_figures_of_digits(digits);
    if !(digits.len() > 1 && digits[0] == '0') {
        lemma_in_decimal(digits);
        assert(digits == text::decimal(number(digits)));
    }
}

/// A number written in decimal reads back as itself.
pub proof fn law_a_number_reads_back(n: u64)
    ensures
        nat_value(text::decimal(n as nat)) == Ok::<u64, LiteralError>(n),
{
    lemma_decimal(n as nat);
    lemma_figures_of_digits(text::decimal(n as nat));
}

/// An integer written as its sign and its magnitude in decimal reads back as itself, and an
/// integer literal that is read is the magnitude with the sign.
pub proof fn law_an_integer_reads_back(value: i64, n: u64, negative: bool)
    ensures
        ({
            let size = if value < 0 {
                -(value as int)
            } else {
                value as int
            };
            nat_value(text::decimal(size as nat)) matches Ok(m) && signed_value(m, value < 0)
                == Ok::<i64, LiteralError>(value)
        }),
        signed_value(n, negative) matches Ok(v) ==> (if negative {
            v == -(n as int)
        } else {
            v == n
        }),
        signed_value(n, negative) is Err ==> (if negative {
            n > 0x8000_0000_0000_0000
        } else {
            n > 0x7fff_ffff_ffff_ffff
        }),
{
    let size = if value < 0 {
        -(value as int)
    } else {
        value as int
    };
    law_a_number_reads_back(size as u64);
}

/// A separator between two digits changes nothing, however many there are beside it.
pub proof fn law_a_separator_between_digits_changes_nothing(a: Seq<char>, b: Seq<char>)
    requires
        a.len() > 0,
        b.len() > 0,
        '0' <= a.last() <= '9',
        '0' <= b[0] <= '9',
    ensures
        nat_value(a + seq!['_'] + b) == nat_value(a + b),
{
    let (with, without) = (a + seq!['_'] + b, a + b);
    let n = a.len() as int;
    lemma_figures_more(a, seq!['_']);
    lemma_figures_more(a + seq!['_'], b);
    lemma_figures_more(a, b);
    reveal_with_fuel(figures, 2);
    assert(seq!['_'].drop_last() =~= Seq::<char>::empty());
    assert(figures(seq!['_']) =~= Seq::<char>::empty());
    assert(figures(a) + Seq::<char>::empty() =~= figures(a));
    assert forall|i: int| #[trigger] out_of_place(with, i) implies misplaced(without) by {
        let j = if i < n {
            i
        } else {
            i - 1
        };
        assert(i != n);
        assert(without[j] == with[i]);
        if j + 1 < without.len() && i != n - 1 {
            assert(without[j + 1] == with[i + 1]);
        }
        assert(out_of_place(without, j));
    }
    assert forall|j: int| #[trigger] out_of_place(without, j) implies misplaced(with) by {
        let i = if j < n {
            j
        } else {
            j + 1
        };
        assert(j != n - 1 && j != n);
        assert(without[j] == with[i]);
        if j + 1 < without.len() {
            assert(without[j + 1] == with[i + 1]);
        }
        assert(out_of_place(with, i));
    }
}

/// Whether a character is a digit.
pub open spec fn is_digit(c: char) -> bool {
    '0' <= c <= '9'
}

/// A literal of digits and separators is refused for its separators exactly where one of them
/// lacks a digit before it or behind it.
pub proof fn law_only_a_separator_without_digits_beside_it_is_at_fault(text: Seq<char>)
    requires
        forall|i: int| 0 <= i < text.len() ==> is_digit(#[trigger] text[i]) || text[i] == '_',
    ensures
        nat_value(text) == Err::<u64, LiteralError>(LiteralError::IntUnderscore) <==> exists|i: int|
            0 <= i < text.len() && #[trigger] text[i] == '_' && !(0 < i < text.len() - 1
                && is_digit(text[i - 1]) && is_digit(text[i + 1])),
{
    if exists|i: int|
        0 <= i < text.len() && #[trigger] text[i] == '_' && !(0 < i < text.len() - 1 && is_digit(
            text[i - 1],
        ) && is_digit(text[i + 1])) {
        let i = choose|i: int|
            0 <= i < text.len() && #[trigger] text[i] == '_' && !(0 < i < text.len() - 1
                && is_digit(text[i - 1]) && is_digit(text[i + 1]));
        if 0 < i < text.len() - 1 {
            if !is_digit(text[i - 1]) {
                assert(out_of_place(text, i - 1));
            } else {
                assert(out_of_place(text, i));
            }
        } else {
            assert(out_of_place(text, i));
        }
    }
    if misplaced(text) {
        let i = choose|i: int| #[trigger] out_of_place(text, i);
        assert(text[i] == '_');
    }
}

// ---- strings ----------------------------------------------------------------

/// The value of a hexadecimal digit.
pub open spec fn hex_digit(c: char) -> Option<nat> {
    if '0' <= c <= '9' {
        Some((c as int - '0' as int) as nat)
    } else if 'a' <= c <= 'f' {
        Some((c as int - 'a' as int + 10) as nat)
    } else if 'A' <= c <= 'F' {
        Some((c as int - 'A' as int + 10) as nat)
    } else {
        None
    }
}

/// The number `n` hexadecimal digits from `at` on write.
pub open spec fn hex_number(s: Seq<char>, at: nat, n: nat) -> Option<nat>
    decreases n,
{
    if n == 0 {
        Some(0)
    } else if at + n > s.len() {
        None
    } else {
        match (hex_number(s, at, (n - 1) as nat), hex_digit(s[at + n - 1])) {
            (Some(before), Some(last)) => Some(before * 16 + last),
            _ => None,
        }
    }
}

/// The character an escape of one letter stands for.
pub open spec fn short_escape(c: char) -> Option<char> {
    if c == '"' || c == '\\' || c == '/' {
        Some(c)
    } else if c == 'b' {
        Some('\u{8}')
    } else if c == 'f' {
        Some('\u{c}')
    } else if c == 'n' {
        Some('\n')
    } else if c == 'r' {
        Some('\r')
    } else if c == 't' {
        Some('\t')
    } else {
        None
    }
}

/// The character the four digits from `at` on name, and where it ends. A character
/// outside the first plane is named by two escapes, one for each surrogate.
pub open spec fn named_char(s: Seq<char>, at: nat) -> Option<(char, nat)> {
    match hex_number(s, at, 4) {
        None => None,
        Some(first) => if 0xd800 <= first < 0xdc00 {
            if at + 6 <= s.len() && s[at as int + 4] == '\\' && s[at as int + 5] == 'u' {
                match hex_number(s, at + 6, 4) {
                    Some(second) => if 0xdc00 <= second < 0xe000 {
                        Some(
                            (
                                (0x10000 + (first - 0xd800) * 0x400 + (second - 0xdc00)) as u32 as char,
                                at + 10,
                            ),
                        )
                    } else {
                        None
                    },
                    None => None,
                }
            } else {
                None
            }
        } else if 0xdc00 <= first < 0xe000 {
            None
        } else {
            Some((first as u32 as char, at + 4))
        },
    }
}

/// The character at `at`, and where it ends. `None` where an escape is none.
pub open spec fn char_at(s: Seq<char>, at: nat) -> Option<(char, nat)> {
    if s[at as int] != '\\' {
        Some((s[at as int], at + 1))
    } else if at + 1 >= s.len() {
        None
    } else if s[at as int + 1] == 'u' {
        named_char(s, at + 2)
    } else {
        match short_escape(s[at as int + 1]) {
            Some(c) => Some((c, at + 2)),
            None => None,
        }
    }
}

/// The characters from `at` on. `None` where an escape is none.
pub open spec fn unescaped(s: Seq<char>, at: nat) -> Option<Seq<char>>
    decreases s.len() - at,
{
    if at >= s.len() {
        Some(Seq::empty())
    } else {
        match char_at(s, at) {
            None => None,
            Some((c, next)) => match unescaped(s, next) {
                Some(rest) => Some(seq![c] + rest),
                None => None,
            },
        }
    }
}

/// The string a literal denotes: what stands between its quotes, unescaped.
pub open spec fn str_value(text: Seq<char>) -> Result<Seq<char>, LiteralError> {
    if text.len() < 2 || text[0] != '"' || text.last() != '"' {
        Err(LiteralError::StringEscape)
    } else {
        match unescaped(text.subrange(1, text.len() - 1), 0) {
            Some(s) => Ok(s),
            None => Err(LiteralError::StringEscape),
        }
    }
}

/// What some digits write is below the power of their base.
proof fn lemma_hex_number(s: Seq<char>, at: nat)
    ensures
        hex_number(s, at, 4) matches Some(n) ==> n < 0x10000 && at + 4 <= s.len(),
{
    reveal_with_fuel(hex_number, 5);
}

/// A character ends within the text.
proof fn lemma_char_at(s: Seq<char>, at: nat)
    requires
        at < s.len(),
    ensures
        char_at(s, at) matches Some((_, next)) ==> at < next <= s.len(),
{
    lemma_hex_number(s, at + 2);
    lemma_hex_number(s, at + 8);
}

fn read_hex_digit(c: char) -> (digit: Option<u32>)
    ensures
        match (digit, hex_digit(c)) {
            (Some(d), Some(n)) => d == n && d < 16,
            (None, None) => true,
            _ => false,
        },
{
    if '0' <= c && c <= '9' {
        Some(c as u32 - '0' as u32)
    } else if 'a' <= c && c <= 'f' {
        Some(c as u32 - 'a' as u32 + 10)
    } else if 'A' <= c && c <= 'F' {
        Some(c as u32 - 'A' as u32 + 10)
    } else {
        None
    }
}

/// The number the four digits from `at` on write.
fn read_hex(s: &[char], at: usize) -> (number: Option<u32>)
    requires
        at <= s@.len(),
    ensures
        match (number, hex_number(s@, at as nat, 4)) {
            (Some(n), Some(expected)) => n == expected && n < 0x10000 && at + 4 <= s@.len(),
            (None, None) => true,
            _ => false,
        },
{
    proof {
        reveal_with_fuel(hex_number, 5);
    }
    if s.len() - at < 4 {
        return None;
    }
    match (
        read_hex_digit(s[at]),
        read_hex_digit(s[at + 1]),
        read_hex_digit(s[at + 2]),
        read_hex_digit(s[at + 3]),
    ) {
        (Some(a), Some(b), Some(c), Some(d)) => Some(((a * 16 + b) * 16 + c) * 16 + d),
        _ => None,
    }
}

fn read_short_escape(c: char) -> (meant: Option<char>)
    ensures
        meant == short_escape(c),
{
    if c == '"' || c == '\\' || c == '/' {
        Some(c)
    } else if c == 'b' {
        Some('\u{8}')
    } else if c == 'f' {
        Some('\u{c}')
    } else if c == 'n' {
        Some('\n')
    } else if c == 'r' {
        Some('\r')
    } else if c == 't' {
        Some('\t')
    } else {
        None
    }
}

fn read_named_char(s: &[char], at: usize) -> (read: Option<(char, usize)>)
    requires
        at <= s@.len(),
    ensures
        match (read, named_char(s@, at as nat)) {
            (Some((c, end)), Some(expected)) => (c, end as nat) == expected,
            (None, None) => true,
            _ => false,
        },
{
    let n: usize = s.len();
    let first: u32 = match read_hex(s, at) {
        None => return None,
        Some(n) => n,
    };
    if 0xdc00 <= first && first < 0xe000 {
        return None;
    }
    if first < 0xd800 || first >= 0xe000 {
        return match char_of(first) {
            Some(c) => {
                proof {
                    vstd::utf8::char_u32_cast(c, first);
                }
                Some((c, at + 4))
            },
            None => None,
        };
    }
    if n - at < 6 || s[at + 4] != '\\' || s[at + 5] != 'u' {
        return None;
    }
    match read_hex(s, at + 6) {
        None => None,
        Some(second) => {
            if second < 0xdc00 || second >= 0xe000 {
                return None;
            }
            let code: u32 = 0x10000 + (first - 0xd800) * 0x400 + (second - 0xdc00);
            proof {
                assert(0x10000 <= code <= 0x10ffff);
            }
            match char_of(code) {
                Some(c) => {
                    proof {
                        vstd::utf8::char_u32_cast(c, code);
                    }
                    Some((c, at + 10))
                },
                None => None,
            }
        },
    }
}

/// The string a literal denotes.
pub fn unescape_str(text: &str) -> (decoded: Result<String, LiteralError>)
    ensures
        match (decoded, str_value(text@)) {
            (Ok(s), Ok(expected)) => s@ == expected,
            (Err(e), Err(expected)) => e == expected,
            _ => false,
        },
{
    let chars: Vec<char> = chars_of(text);
    let n: usize = chars.len();
    if n < 2 || chars[0] != '"' || chars[n - 1] != '"' {
        return Err(LiteralError::StringEscape);
    }
    let inner: &[char] = vstd::slice::slice_subrange(chars.as_slice(), 1, n - 1);
    let ghost all = unescaped(inner@, 0);
    let mut decoded: String = String::new();
    let mut at: usize = 0;
    while at < inner.len()
        invariant
            at <= inner@.len(),
            all == unescaped(inner@, 0),
            all == (match unescaped(inner@, at as nat) {
                Some(rest) => Some(decoded@ + rest),
                None => None,
            }),
            text@.len() >= 2,
            text@[0] == '"',
            text@.last() == '"',
            inner@ == text@.subrange(1, text@.len() - 1),
        decreases inner@.len() - at,
    {
        proof {
            lemma_char_at(inner@, at as nat);
        }
        let ghost before = decoded@;
        let read: Option<(char, usize)> = if inner[at] != '\\' {
            Some((inner[at], at + 1))
        } else if at + 1 >= inner.len() {
            None
        } else if inner[at + 1] == 'u' {
            read_named_char(inner, at + 2)
        } else {
            match read_short_escape(inner[at + 1]) {
                Some(c) => Some((c, at + 2)),
                None => None,
            }
        };
        match read {
            None => return Err(LiteralError::StringEscape),
            Some((c, next)) => {
                push_char(&mut decoded, c);
                proof {
                    if let Some(rest) = unescaped(inner@, next as nat) {
                        assert(before + (seq![c] + rest) =~= before.push(c) + rest);
                    }
                }
                at = next;
            },
        }
    }
    proof {
        assert(decoded@ + Seq::<char>::empty() =~= decoded@);
    }
    Ok(decoded)
}

// ---- what a string literal denotes ------------------------------------------

/// A literal of what stands between its quotes.
pub open spec fn quoted(inner: Seq<char>) -> Seq<char> {
    seq!['"'] + inner + seq!['"']
}

/// A hexadecimal digit of some value, large or small.
pub open spec fn is_hex(c: char, d: nat) -> bool {
    if d < 10 {
        c as int == '0' as int + d
    } else {
        d < 16 && (c as int == 'a' as int + (d - 10) || c as int == 'A' as int + (d - 10))
    }
}

/// An escape that names a unit of 16 bits by its four digits, large or small.
pub open spec fn names_unit(escape: Seq<char>, unit: nat) -> bool {
    &&& escape.len() == 6
    &&& escape[0] == '\\'
    &&& escape[1] == 'u'
    &&& is_hex(escape[2], unit / 0x1000)
    &&& is_hex(escape[3], unit / 0x100 % 16)
    &&& is_hex(escape[4], unit / 16 % 16)
    &&& is_hex(escape[5], unit % 16)
}

proof fn lemma_quoted(inner: Seq<char>)
    ensures
        str_value(quoted(inner)) == (match unescaped(inner, 0) {
            Some(s) => Ok::<Seq<char>, LiteralError>(s),
            None => Err(LiteralError::StringEscape),
        }),
{
    let all = quoted(inner);
    assert(all.subrange(1, all.len() - 1) =~= inner);
    assert(all[0] == '"' && all.last() == '"');
}

proof fn lemma_hex_shift(a: Seq<char>, b: Seq<char>, at: nat, n: nat)
    ensures
        hex_number(a + b, a.len() + at, n) == hex_number(b, at, n),
    decreases n,
{
    if n > 0 {
        lemma_hex_shift(a, b, at, (n - 1) as nat);
        if at + n <= b.len() {
            assert((a + b)[a.len() as int + at + n - 1] == b[at + n - 1]);
        }
    }
}

proof fn lemma_hex_more(a: Seq<char>, b: Seq<char>, at: nat, n: nat)
    requires
        hex_number(a, at, n) is Some,
    ensures
        hex_number(a + b, at, n) == hex_number(a, at, n),
    decreases n,
{
    if n > 0 {
        lemma_hex_more(a, b, at, (n - 1) as nat);
        assert((a + b)[at + n - 1] == a[at + n - 1]);
    }
}

proof fn lemma_char_shift(a: Seq<char>, b: Seq<char>, at: nat)
    requires
        at < b.len(),
    ensures
        char_at(a + b, a.len() + at) == (match char_at(b, at) {
            Some((c, next)) => Some((c, a.len() + next)),
            None => None,
        }),
{
    let all = a + b;
    assert(all[a.len() as int + at] == b[at as int]);
    if at + 1 < b.len() {
        assert(all[a.len() as int + at + 1] == b[at as int + 1]);
    }
    lemma_hex_shift(a, b, at + 2, 4);
    lemma_hex_shift(a, b, at + 8, 4);
    if at + 8 <= b.len() {
        assert(all[a.len() as int + at + 6] == b[at as int + 6]);
        assert(all[a.len() as int + at + 7] == b[at as int + 7]);
    }
}

proof fn lemma_char_more(a: Seq<char>, b: Seq<char>, at: nat)
    requires
        at < a.len(),
        char_at(a, at) is Some,
    ensures
        char_at(a + b, at) == char_at(a, at),
{
    let all = a + b;
    assert(all[at as int] == a[at as int]);
    if a[at as int] == '\\' {
        assert(all[at as int + 1] == a[at as int + 1]);
        if a[at as int + 1] == 'u' {
            lemma_hex_number(a, at + 2);
            lemma_hex_more(a, b, at + 2, 4);
            let first = hex_number(a, at + 2, 4)->0;
            if 0xd800 <= first < 0xdc00 {
                assert(all[at as int + 6] == a[at as int + 6]);
                assert(all[at as int + 7] == a[at as int + 7]);
                lemma_hex_more(a, b, at + 8, 4);
            }
        }
    }
}

proof fn lemma_unescaped_shift(a: Seq<char>, b: Seq<char>, at: nat)
    requires
        at <= b.len(),
    ensures
        unescaped(a + b, a.len() + at) == unescaped(b, at),
    decreases b.len() - at,
{
    if at < b.len() {
        lemma_char_shift(a, b, at);
        lemma_char_at(b, at);
        if let Some((c, next)) = char_at(b, at) {
            lemma_unescaped_shift(a, b, next);
        }
    }
}

proof fn lemma_unescaped_more(a: Seq<char>, b: Seq<char>, at: nat)
    requires
        at <= a.len(),
        unescaped(a, at) is Some,
    ensures
        unescaped(a + b, at) == (match unescaped(b, 0) {
            Some(rest) => Some(unescaped(a, at)->0 + rest),
            None => None,
        }),
    decreases a.len() - at,
{
    if at < a.len() {
        lemma_char_more(a, b, at);
        lemma_char_at(a, at);
        let (c, next) = char_at(a, at)->0;
        lemma_unescaped_more(a, b, next);
        if let Some(rest) = unescaped(b, 0) {
            let most = unescaped(a, next)->0;
            assert(seq![c] + (most + rest) =~= seq![c] + most + rest);
        }
    } else {
        lemma_unescaped_shift(a, b, 0);
        assert(a.len() + 0 == a.len());
        if let Some(rest) = unescaped(b, 0) {
            assert(Seq::<char>::empty() + rest =~= rest);
        }
    }
}

/// A string literal is read piece by piece: behind a piece that denotes a string, what follows
/// denotes what it does on its own, and is at fault where it is on its own.
pub proof fn law_a_string_is_read_piece_by_piece(a: Seq<char>, b: Seq<char>)
    requires
        str_value(quoted(a)) is Ok,
    ensures
        str_value(quoted(a + b)) == (match str_value(quoted(b)) {
            Ok(rest) => Ok::<Seq<char>, LiteralError>(str_value(quoted(a))->Ok_0 + rest),
            Err(e) => Err(e),
        }),
{
    lemma_quoted(a);
    lemma_quoted(b);
    lemma_quoted(a + b);
    lemma_unescaped_more(a, b, 0);
}

proof fn lemma_one(inner: Seq<char>)
    requires
        inner.len() > 0,
        char_at(inner, 0) matches Some((_, next)) && next == inner.len(),
    ensures
        str_value(quoted(inner)) == Ok::<Seq<char>, LiteralError>(seq![(char_at(inner, 0)->0).0]),
{
    reveal_with_fuel(unescaped, 2);
    lemma_quoted(inner);
    let c = (char_at(inner, 0)->0).0;
    assert(seq![c] + Seq::<char>::empty() =~= seq![c]);
}

/// What a single piece of a string literal denotes: a character that is no backslash, itself;
/// a backslash and a letter, the character the letter stands for, where it stands for one.
pub proof fn law_a_character_or_a_short_escape(c: char, rest: Seq<char>)
    ensures
        c != '\\' ==> str_value(quoted(seq![c])) == Ok::<Seq<char>, LiteralError>(seq![c]),
        c == '"' || c == '\\' || c == '/' ==> str_value(quoted(seq!['\\', c])) == Ok::<
            Seq<char>,
            LiteralError,
        >(seq![c]),
        str_value(quoted(seq!['\\', 'b'])) == Ok::<Seq<char>, LiteralError>(seq!['\u{8}']),
        str_value(quoted(seq!['\\', 'f'])) == Ok::<Seq<char>, LiteralError>(seq!['\u{c}']),
        str_value(quoted(seq!['\\', 'n'])) == Ok::<Seq<char>, LiteralError>(seq!['\n']),
        str_value(quoted(seq!['\\', 'r'])) == Ok::<Seq<char>, LiteralError>(seq!['\r']),
        str_value(quoted(seq!['\\', 't'])) == Ok::<Seq<char>, LiteralError>(seq!['\t']),
        c != '"' && c != '\\' && c != '/' && c != 'b' && c != 'f' && c != 'n' && c != 'r' && c
            != 't' && c != 'u' ==> str_value(quoted(seq!['\\', c] + rest)) == Err::<
            Seq<char>,
            LiteralError,
        >(LiteralError::StringEscape),
{
    if c != '\\' {
        lemma_one(seq![c]);
    }
    if c == '"' || c == '\\' || c == '/' {
        lemma_one(seq!['\\', c]);
    }
    lemma_one(seq!['\\', 'b']);
    lemma_one(seq!['\\', 'f']);
    lemma_one(seq!['\\', 'n']);
    lemma_one(seq!['\\', 'r']);
    lemma_one(seq!['\\', 't']);
    let other = seq!['\\', c] + rest;
    lemma_quoted(other);
    assert(other[0] == '\\' && other[1] == c);
}

proof fn lemma_unit(escape: Seq<char>, at: nat, unit: nat)
    requires
        unit < 0x10000,
        at + 6 <= escape.len(),
        names_unit(escape.subrange(at as int, at as int + 6), unit),
    ensures
        hex_number(escape, at + 2, 4) == Some(unit),
        escape[at as int] == '\\',
        escape[at as int + 1] == 'u',
{
    reveal_with_fuel(hex_number, 5);
    let piece = escape.subrange(at as int, at as int + 6);
    assert(piece[0] == escape[at as int] && piece[1] == escape[at as int + 1]);
    assert(piece[2] == escape[at as int + 2] && piece[3] == escape[at as int + 3]);
    assert(piece[4] == escape[at as int + 4] && piece[5] == escape[at as int + 5]);
    assert(unit == unit / 0x1000 * 0x1000 + unit / 0x100 % 16 * 0x100 + unit / 16 % 16 * 16 + unit
        % 16);
}

/// An escape of four digits denotes the character they name. A character outside the first
/// plane is named by two, one for each half; a half on its own names none.
pub proof fn law_a_named_character(c: char, one: Seq<char>, two: Seq<char>, unit: nat)
    ensures
        (c as u32) < 0x10000 && names_unit(one, c as u32 as nat) ==> str_value(quoted(one)) == Ok::<
            Seq<char>,
            LiteralError,
        >(seq![c]),
        c as u32 >= 0x10000 && names_unit(
            one,
            (0xd800 + (c as u32 - 0x10000) / 0x400) as nat,
        ) && names_unit(two, (0xdc00 + (c as u32 - 0x10000) % 0x400) as nat) ==> str_value(
            quoted(one + two),
        ) == Ok::<Seq<char>, LiteralError>(seq![c]),
        0xd800 <= unit < 0xe000 && names_unit(one, unit) ==> str_value(quoted(one)) == Err::<
            Seq<char>,
            LiteralError,
        >(LiteralError::StringEscape),
{
    let code = c as u32;
    if one.len() == 6 {
        assert(one.subrange(0, 6) =~= one);
    }
    if code < 0x10000 && names_unit(one, code as nat) {
        lemma_unit(one, 0, code as nat);
        assert(code as char == c);
        lemma_one(one);
    }
    if code >= 0x10000 {
        let high = (0xd800 + (code - 0x10000) / 0x400) as nat;
        let low = (0xdc00 + (code - 0x10000) % 0x400) as nat;
        if names_unit(one, high) && names_unit(two, low) {
            let both = one + two;
            assert(both.subrange(0, 6) =~= one);
            assert(both.subrange(6, 12) =~= two);
            lemma_unit(both, 0, high);
            lemma_unit(both, 6, low);
            assert(0x10000 + (high - 0xd800) * 0x400 + (low - 0xdc00) == code);
            assert(code as char == c);
            lemma_one(both);
        }
    }
    if 0xd800 <= unit < 0xe000 && names_unit(one, unit) {
        lemma_unit(one, 0, unit);
        lemma_quoted(one);
    }
}

} // verus!
