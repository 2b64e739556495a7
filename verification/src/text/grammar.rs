//! The lexical grammar, stated over sequences of characters.
//!
//! Every production is a function of the text that remains to be read. It
//! either fails or yields what it recognised together with the number of
//! characters it covers. [`token_at`] lets the productions compete, [`scan`]
//! repeats that from the start of a text to its end.

use vstd::prelude::*;
use vstd::utf8::encode_scalar;
use super::chars::{Class, digit, digit_value, hex_digit, lower};
use super::Lexeme;

verus! {

/// The length of the longest prefix of `s` made of characters of `class`.
pub open spec fn run(s: Seq<char>, class: Class) -> nat
    decreases s.len(),
{
    if s.len() > 0 && class.has(s[0]) {
        1 + run(s.skip(1), class)
    } else {
        0
    }
}

/// Whether `c` is a digit of a decimal (`hex` false) or hexadecimal number.
pub open spec fn numeral(c: char, hex: bool) -> bool {
    if hex {
        hex_digit(c)
    } else {
        digit(c)
    }
}

/// How far a number goes on at the head of `s`: over digits, each of which may
/// follow a single `_`.
pub open spec fn number_tail(s: Seq<char>, hex: bool) -> nat
    decreases s.len(),
{
    if s.len() >= 1 && numeral(s[0], hex) {
        1 + number_tail(s.skip(1), hex)
    } else if s.len() >= 2 && s[0] == '_' && numeral(s[1], hex) {
        2 + number_tail(s.skip(2), hex)
    } else {
        0
    }
}

/// The length of the longest prefix of `s` that is a number: a digit, then
/// digits that may each follow a single `_`. Zero where `s` starts with no digit.
pub open spec fn number_len(s: Seq<char>, hex: bool) -> nat {
    if s.len() >= 1 && numeral(s[0], hex) {
        number_tail(s, hex)
    } else {
        0
    }
}

/// The value of the digits of `s` in base `radix`, most significant first;
/// a `_` counts for nothing.
pub open spec fn number_value(s: Seq<char>, radix: nat) -> nat
    decreases s.len(),
{
    if s.len() == 0 {
        0
    } else if s.last() == '_' {
        number_value(s.drop_last(), radix)
    } else {
        number_value(s.drop_last(), radix) * radix + digit_value(s.last())
    }
}

/// The longer of two candidate matches; on equal lengths the first.
pub open spec fn pick<A>(current: Option<(A, nat)>, next: Option<(A, nat)>) -> Option<(A, nat)> {
    match (current, next) {
        (Some(c), Some(n)) => if c.1 >= n.1 {
            current
        } else {
            next
        },
        (Some(_), None) => current,
        (None, _) => next,
    }
}

/// A decimal number at the head of `s`, of any size.
pub open spec fn decimal(s: Seq<char>) -> Option<(nat, nat)> {
    let n = number_len(s, false);
    if n > 0 {
        Some((number_value(s.take(n as int), 10), n))
    } else {
        None
    }
}

/// A hexadecimal number with its `0x` prefix at the head of `s`, of any size.
pub open spec fn hexadecimal(s: Seq<char>) -> Option<(nat, nat)> {
    if s.len() >= 2 && s[0] == '0' && s[1] == 'x' {
        let n = number_len(s.skip(2), true);
        if n > 0 {
            Some((number_value(s.subrange(2, 2 + n as int), 16), 2 + n))
        } else {
            None
        }
    } else {
        None
    }
}

/// A number as an unsigned 32-bit value; one that does not fit is no match.
pub open spec fn within_u32(number: Option<(nat, nat)>) -> Option<(u32, nat)> {
    match number {
        Some((value, n)) => if value <= u32::MAX {
            Some((value as u32, n))
        } else {
            None
        },
        None => None,
    }
}

/// The decimal form of an unsigned integer.
pub open spec fn unsigned_dec(s: Seq<char>) -> Option<(u32, nat)> {
    within_u32(decimal(s))
}

/// The hexadecimal form of an unsigned integer.
pub open spec fn unsigned_hex(s: Seq<char>) -> Option<(u32, nat)> {
    within_u32(hexadecimal(s))
}

/// An unsigned integer: the longer of its decimal and its hexadecimal form.
pub open spec fn unsigned(s: Seq<char>) -> Option<(Lexeme, nat)> {
    match pick(unsigned_dec(s), unsigned_hex(s)) {
        Some((value, n)) => Some((Lexeme::UnsignedInt(value), n)),
        None => None,
    }
}

/// A number behind a sign as a signed 32-bit value, the sign counted in the
/// length; one that does not fit is no match.
pub open spec fn within_i32(negative: bool, number: Option<(nat, nat)>) -> Option<(i32, nat)> {
    match number {
        Some((value, n)) => if negative && value <= 0x8000_0000 {
            Some(((-(value as int)) as i32, 1 + n))
        } else if !negative && value <= i32::MAX {
            Some((value as i32, 1 + n))
        } else {
            None
        },
        None => None,
    }
}

/// The decimal form of a signed integer: `+` or `-` and a decimal number.
pub open spec fn signed_dec(s: Seq<char>) -> Option<(i32, nat)> {
    if s.len() > 0 && (s[0] == '+' || s[0] == '-') {
        within_i32(s[0] == '-', decimal(s.skip(1)))
    } else {
        None
    }
}

/// The hexadecimal form of a signed integer: `+` or `-` and a hexadecimal
/// number.
pub open spec fn signed_hex(s: Seq<char>) -> Option<(i32, nat)> {
    if s.len() > 0 && (s[0] == '+' || s[0] == '-') {
        within_i32(s[0] == '-', hexadecimal(s.skip(1)))
    } else {
        None
    }
}

/// A signed integer: the longer of its decimal and its hexadecimal form. A
/// number without sign is never one.
pub open spec fn signed(s: Seq<char>) -> Option<(Lexeme, nat)> {
    match pick(signed_dec(s), signed_hex(s)) {
        Some((value, n)) => Some((Lexeme::SignedInt(value), n)),
        None => None,
    }
}

/// The length of the fraction at the head of `s`: `.` and the number that
/// may follow it. Zero where `s` starts with no `.`.
pub open spec fn fraction_len(s: Seq<char>, hex: bool) -> nat {
    if s.len() > 0 && s[0] == '.' {
        1 + number_len(s.skip(1), hex)
    } else {
        0
    }
}

/// The length of the exponent at the head of `s`: `e` or `E` (`p` or `P`
/// behind a hexadecimal number), a sign or none, and a decimal number. Zero
/// where there is none.
pub open spec fn exponent_len(s: Seq<char>, hex: bool) -> nat {
    if s.len() > 0 && (if hex {
        s[0] == 'p' || s[0] == 'P'
    } else {
        s[0] == 'e' || s[0] == 'E'
    }) {
        let mark: nat = if s.len() > 1 && (s[1] == '+' || s[1] == '-') {
            2
        } else {
            1
        };
        let n = number_len(s.skip(mark as int), false);
        if n > 0 {
            mark + n
        } else {
            0
        }
    } else {
        0
    }
}

/// The length of the number with fraction or exponent at the head of `s`:
/// a number, then a fraction, an exponent, or a fraction and an exponent.
/// Zero where `s` starts with no number, and where neither fraction nor
/// exponent follows it: a number alone is an integer.
pub open spec fn mantissa_len(s: Seq<char>, hex: bool) -> nat {
    let whole = number_len(s, hex);
    let fraction = fraction_len(s.skip(whole as int), hex);
    let exponent = exponent_len(s.skip(whole as int + fraction as int), hex);
    if whole == 0 || (fraction == 0 && exponent == 0) {
        0
    } else {
        whole + fraction + exponent
    }
}

/// Whether `s` starts with the characters `a`, `b`, `c`.
pub open spec fn starts_with3(s: Seq<char>, a: char, b: char, c: char) -> bool {
    s.len() >= 3 && s[0] == a && s[1] == b && s[2] == c
}

/// The length of the floating-point magnitude at the head of `s`: `inf`;
/// `nan`, alone or with `:0x` and a hexadecimal number; `0x` and a
/// hexadecimal number with fraction or exponent; or a decimal number with
/// fraction or exponent. Zero where there is none.
pub open spec fn magnitude_len(s: Seq<char>) -> nat {
    if starts_with3(s, 'i', 'n', 'f') {
        3
    } else if starts_with3(s, 'n', 'a', 'n') {
        if starts_with3(s.skip(3), ':', '0', 'x') && number_len(s.skip(6), true) > 0 {
            6 + number_len(s.skip(6), true)
        } else {
            3
        }
    } else if s.len() >= 2 && s[0] == '0' && s[1] == 'x' && mantissa_len(s.skip(2), true) > 0 {
        2 + mantissa_len(s.skip(2), true)
    } else {
        mantissa_len(s, false)
    }
}

/// The length of the floating-point literal at the head of `s`: a sign or
/// none, and a magnitude. Zero where there is none.
pub open spec fn float_len(s: Seq<char>) -> nat {
    let sign: nat = if s.len() > 0 && (s[0] == '+' || s[0] == '-') {
        1
    } else {
        0
    };
    let magnitude = magnitude_len(s.skip(sign as int));
    if magnitude > 0 {
        sign + magnitude
    } else {
        0
    }
}

/// A floating-point literal: a word, that is a run of identifier
/// characters, that is a floating-point literal from its first character to
/// its last. It holds a fraction, an exponent, `inf` or `nan`; a word of
/// digits alone is none, whatever its size. The lexeme holds the word as
/// written.
pub open spec fn float(s: Seq<char>) -> Option<(Lexeme, nat)> {
    let n = run(s, Class::IdChar);
    let word = s.take(n as int);
    if n > 0 && float_len(word) == n {
        Some((Lexeme::Float(word), n))
    } else {
        None
    }
}

/// A keyword: a lowercase letter and the identifier characters that follow it.
pub open spec fn keyword(s: Seq<char>) -> Option<(Lexeme, nat)> {
    if s.len() > 0 && lower(s[0]) {
        let n = run(s, Class::IdChar);
        Some((Lexeme::Keyword(s.take(n as int)), n))
    } else {
        None
    }
}

/// An identifier: `$` and at least one identifier character. The lexeme
/// holds the name without the `$`.
pub open spec fn identifier(s: Seq<char>) -> Option<(Lexeme, nat)> {
    if s.len() > 0 && s[0] == '$' && run(s.skip(1), Class::IdChar) > 0 {
        let n = 1 + run(s.skip(1), Class::IdChar);
        Some((Lexeme::Id(s.subrange(1, n as int)), n))
    } else {
        None
    }
}

/// A reserved word: a run of at least one identifier character.
pub open spec fn reserved(s: Seq<char>) -> Option<(Lexeme, nat)> {
    let n = run(s, Class::IdChar);
    if n > 0 {
        Some((Lexeme::Reserved(s.take(n as int)), n))
    } else {
        None
    }
}

/// The four hexadecimal digits at the head of `s` as a number.
pub open spec fn hex4(s: Seq<char>) -> nat {
    digit_value(s[0]) * 0x1000 + digit_value(s[1]) * 0x100 + digit_value(s[2]) * 0x10
        + digit_value(s[3])
}

/// Whether `v` is the number of a character: no more than `0x10FFFF` and
/// no surrogate.
pub open spec fn scalar(v: nat) -> bool {
    v <= 0x10FFFF && !(0xD800 <= v <= 0xDFFF)
}

/// One element in the body of a string literal, at the head of a
/// nonempty `s`, and the bytes it stands for:
///
/// - a character other than `\`: its UTF-8 encoding;
/// - `\n`, `\t`, `\\`, `\"`: line feed, tab, backslash, quote;
/// - `\u` and four hexadecimal digits: the UTF-8 encoding of the character
///   with that number;
/// - `\` and two hexadecimal digits: the byte with that value.
#[verifier::opaque]
pub open spec fn string_element(s: Seq<char>) -> Option<(Seq<u8>, nat)> {
    if s[0] != '\\' {
        Some((encode_scalar(s[0] as u32), 1))
    } else if s.len() >= 2 && s[1] == 'n' {
        Some((seq![0x0Au8], 2))
    } else if s.len() >= 2 && s[1] == 't' {
        Some((seq![0x09u8], 2))
    } else if s.len() >= 2 && s[1] == '\\' {
        Some((seq![0x5Cu8], 2))
    } else if s.len() >= 2 && s[1] == '"' {
        Some((seq![0x22u8], 2))
    } else if s.len() >= 6 && s[1] == 'u' && hex_digit(s[2]) && hex_digit(s[3]) && hex_digit(s[4])
        && hex_digit(s[5]) && scalar(hex4(s.skip(2))) {
        Some((encode_scalar(hex4(s.skip(2)) as u32), 6))
    } else if s.len() >= 3 && hex_digit(s[1]) && hex_digit(s[2]) {
        Some((seq![(digit_value(s[1]) * 16 + digit_value(s[2])) as u8], 3))
    } else {
        None
    }
}

/// The body of a string literal at the head of `s`, behind the opening
/// quote: the bytes of its elements, and its length with the closing quote.
pub open spec fn string_body(s: Seq<char>) -> Option<(Seq<u8>, nat)>
    decreases s.len(),
{
    if s.len() == 0 {
        None
    } else if s[0] == '"' {
        Some((Seq::empty(), 1))
    } else {
        match string_element(s) {
            Some((bytes, n)) => if 0 < n <= s.len() {
                extend(bytes, n, string_body(s.skip(n as int)))
            } else {
                None
            },
            None => None,
        }
    }
}

/// A string body that went on as `later` after `bytes` over `n` characters.
pub open spec fn extend(bytes: Seq<u8>, n: nat, later: Option<(Seq<u8>, nat)>) -> Option<
    (Seq<u8>, nat),
> {
    match later {
        Some((more, m)) => Some((bytes + more, n + m)),
        None => None,
    }
}

/// A string literal: a quote, elements, a quote. One that is not closed, or
/// that holds a malformed escape, is no match.
pub open spec fn string(s: Seq<char>) -> Option<(Lexeme, nat)> {
    if s.len() > 0 && s[0] == '"' {
        match string_body(s.skip(1)) {
            Some((bytes, n)) => Some((Lexeme::StringLiteral(bytes), 1 + n)),
            None => None,
        }
    } else {
        None
    }
}

/// An opening parenthesis.
pub open spec fn open_paren(s: Seq<char>) -> Option<(Lexeme, nat)> {
    if s.len() > 0 && s[0] == '(' {
        Some((Lexeme::OpenParen, 1))
    } else {
        None
    }
}

/// A closing parenthesis.
pub open spec fn close_paren(s: Seq<char>) -> Option<(Lexeme, nat)> {
    if s.len() > 0 && s[0] == ')' {
        Some((Lexeme::CloseParen, 1))
    } else {
        None
    }
}

/// The token at the head of `s`: the longest match among the productions,
/// and among matches of equal length the first in the order unsigned
/// integer, signed integer, floating-point literal, keyword, identifier,
/// reserved word, string, parentheses.
#[verifier::opaque]
pub open spec fn token_at(s: Seq<char>) -> Option<(Lexeme, nat)> {
    let numbers = pick(pick(unsigned(s), signed(s)), float(s));
    let words = pick(pick(pick(numbers, keyword(s)), identifier(s)), reserved(s));
    pick(pick(pick(words, string(s)), open_paren(s)), close_paren(s))
}

/// A run of blank space.
pub open spec fn blank(s: Seq<char>) -> Option<nat> {
    let n = run(s, Class::Blank);
    if n > 0 {
        Some(n)
    } else {
        None
    }
}

/// The length of the line at the head of `s`, its line feed included; the
/// last line of a text may lack one.
pub open spec fn line_len(s: Seq<char>) -> nat
    decreases s.len(),
{
    if s.len() == 0 {
        0
    } else if s[0] == '\n' {
        1
    } else {
        1 + line_len(s.skip(1))
    }
}

/// A line comment: `;;` and the rest of the line.
pub open spec fn line_comment(s: Seq<char>) -> Option<nat> {
    if s.len() >= 2 && s[0] == ';' && s[1] == ';' {
        Some(2 + line_len(s.skip(2)))
    } else {
        None
    }
}

/// The length of the rest of a block comment at the head of `s` when
/// `depth` comments are open: up to the `;)` that closes the outermost one.
/// `None` where the text ends before that.
pub open spec fn block_rest(s: Seq<char>, depth: nat) -> Option<nat>
    decreases s.len(),
{
    if s.len() < 2 {
        None
    } else if s[0] == ';' && s[1] == ')' {
        if depth <= 1 {
            Some(2)
        } else {
            further(2, block_rest(s.skip(2), (depth - 1) as nat))
        }
    } else if s[0] == '(' && s[1] == ';' {
        further(2, block_rest(s.skip(2), depth + 1))
    } else {
        further(1, block_rest(s.skip(1), depth))
    }
}

/// A length that went on as `later` after `n` characters.
pub open spec fn further(n: nat, later: Option<nat>) -> Option<nat> {
    match later {
        Some(m) => Some(n + m),
        None => None,
    }
}

/// A block comment: `(;`, any text in which block comments nest, and `;)`.
/// One that is not closed is no match.
pub open spec fn block_comment(s: Seq<char>) -> Option<nat> {
    if s.len() >= 2 && s[0] == '(' && s[1] == ';' {
        further(2, block_rest(s.skip(2), 1))
    } else {
        None
    }
}

/// Insignificant text at the head of `s`: a run of blank space, a line
/// comment or a block comment.
#[verifier::opaque]
pub open spec fn space_at(s: Seq<char>) -> Option<nat> {
    match blank(s) {
        Some(n) => Some(n),
        None => match line_comment(s) {
            Some(n) => Some(n),
            None => block_comment(s),
        },
    }
}

/// One step of the scan at the head of `s`: the lexemes it emits (one for a
/// token, none for insignificant text) and the characters it consumes, or
/// `None` where nothing matches. The token and the insignificant text
/// compete by length, so that a block comment wins against the parenthesis
/// it starts with; on equal lengths the token would win.
pub open spec fn step(s: Seq<char>) -> Option<(Seq<Lexeme>, nat)> {
    match (token_at(s), space_at(s)) {
        (Some((lexeme, n)), Some(m)) => if m > n {
            Some((Seq::empty(), m))
        } else {
            Some((seq![lexeme], n))
        },
        (Some((lexeme, n)), None) => Some((seq![lexeme], n)),
        (None, Some(m)) => Some((Seq::empty(), m)),
        (None, None) => None,
    }
}

/// What is known after `done` was emitted over the first `consumed`
/// characters and the scan of the rest gave `later`.
pub open spec fn after(done: Seq<Lexeme>, consumed: nat, later: Result<Seq<Lexeme>, nat>) -> Result<
    Seq<Lexeme>,
    nat,
> {
    match later {
        Ok(lexemes) => Ok(done + lexemes),
        Err(offset) => Err(consumed + offset),
    }
}

/// The tokens of `s`, or the offset of the first character at which no
/// production matches: step after step from the start of the text to its
/// end. Every step consumes at least one character and none beyond the text
/// (see [`lemma_step_bound`]); the test for that is there for termination.
pub open spec fn scan(s: Seq<char>) -> Result<Seq<Lexeme>, nat>
    decreases s.len(),
{
    if s.len() == 0 {
        Ok(Seq::empty())
    } else {
        match step(s) {
            Some((emitted, n)) => if 0 < n <= s.len() {
                after(emitted, n, scan(s.skip(n as int)))
            } else {
                Err(0)
            },
            None => Err(0),
        }
    }
}

/// Resuming twice is resuming once, with the lexemes joined and the
/// offsets added.
pub proof fn lemma_after_after(
    done: Seq<Lexeme>,
    consumed: nat,
    emitted: Seq<Lexeme>,
    n: nat,
    later: Result<Seq<Lexeme>, nat>,
)
    ensures
        after(done, consumed, after(emitted, n, later)) == after(
            done + emitted,
            consumed + n,
            later,
        ),
{
    match later {
        Ok(lexemes) => {
            assert(done + (emitted + lexemes) =~= (done + emitted) + lexemes);
        },
        Err(_) => {},
    }
}

/// Resuming after nothing changes nothing.
pub proof fn lemma_after_nothing(later: Result<Seq<Lexeme>, nat>)
    ensures
        after(Seq::empty(), 0, later) == later,
{
    match later {
        Ok(lexemes) => {
            assert(Seq::<Lexeme>::empty() + lexemes =~= lexemes);
        },
        Err(_) => {},
    }
}

/// A scan is its first step and the scan of what that leaves.
pub proof fn lemma_scan_step(s: Seq<char>)
    requires
        s.len() > 0,
    ensures
        scan(s) == (match step(s) {
            Some((emitted, n)) => after(emitted, n, scan(s.skip(n as int))),
            None => Err(0),
        }),
{
    lemma_step_bound(s);
}

/// A run stays within the text.
pub proof fn lemma_run_bound(s: Seq<char>, class: Class)
    ensures
        run(s, class) <= s.len(),
    decreases s.len(),
{
    if s.len() > 0 && class.has(s[0]) {
        lemma_run_bound(s.skip(1), class);
    }
}

/// A number stays within the text.
pub proof fn lemma_number_bound(s: Seq<char>, hex: bool)
    ensures
        number_tail(s, hex) <= s.len(),
        number_len(s, hex) <= s.len(),
    decreases s.len(),
{
    if s.len() >= 1 && numeral(s[0], hex) {
        lemma_number_bound(s.skip(1), hex);
    } else if s.len() >= 2 && s[0] == '_' && numeral(s[1], hex) {
        lemma_number_bound(s.skip(2), hex);
    }
}

/// A line stays within the text.
pub proof fn lemma_line_bound(s: Seq<char>)
    ensures
        line_len(s) <= s.len(),
    decreases s.len(),
{
    if s.len() > 0 && s[0] != '\n' {
        lemma_line_bound(s.skip(1));
    }
}

/// The rest of a block comment stays within the text.
pub proof fn lemma_block_bound(s: Seq<char>, depth: nat)
    ensures
        block_rest(s, depth) matches Some(n) ==> 2 <= n <= s.len(),
    decreases s.len(),
{
    if s.len() < 2 {
    } else if s[0] == ';' && s[1] == ')' {
        if depth > 1 {
            lemma_block_bound(s.skip(2), (depth - 1) as nat);
        }
    } else if s[0] == '(' && s[1] == ';' {
        lemma_block_bound(s.skip(2), depth + 1);
    } else {
        lemma_block_bound(s.skip(1), depth);
    }
}

/// The body of a string literal stays within the text.
pub proof fn lemma_string_bound(s: Seq<char>)
    ensures
        string_body(s) matches Some((_, n)) ==> 1 <= n <= s.len(),
    decreases s.len(),
{
    reveal(string_element);
    if s.len() > 0 && s[0] != '"' {
        if let Some((_, n)) = string_element(s) {
            if 0 < n <= s.len() {
                lemma_string_bound(s.skip(n as int));
            }
        }
    }
}

/// Every step consumes at least one character and none beyond the text.
pub proof fn lemma_step_bound(s: Seq<char>)
    ensures
        token_at(s) matches Some((_, n)) ==> 0 < n <= s.len(),
        space_at(s) matches Some(n) ==> 0 < n <= s.len(),
        step(s) matches Some((_, n)) ==> 0 < n <= s.len(),
{
    reveal(token_at);
    reveal(space_at);
    lemma_run_bound(s, Class::IdChar);
    lemma_run_bound(s, Class::Blank);
    lemma_number_bound(s, false);
    if s.len() >= 1 {
        lemma_run_bound(s.skip(1), Class::IdChar);
        lemma_number_bound(s.skip(1), false);
        lemma_string_bound(s.skip(1));
    }
    if s.len() >= 2 {
        lemma_number_bound(s.skip(2), true);
        lemma_line_bound(s.skip(2));
        lemma_block_bound(s.skip(2), 1);
    }
    if s.len() >= 3 {
        assert(s.skip(1).skip(2) =~= s.skip(3));
        lemma_number_bound(s.skip(3), true);
    }
}

} // verus!
