//! The tokenizer: a cursor over the text, one recognizer per production of
//! the grammar, and the loop that lets them compete at every position.

use vstd::prelude::*;
use vstd::utf8::{encode_scalar, is_scalar};
use super::chars::{Class, digit_value, hex_digit_value, is_digit, is_hex_digit, is_lower};
use super::grammar::{
    after, blank, block_comment, block_rest, close_paren, decimal, exponent_len, extend, float,
    float_len, fraction_len, further, hex4, hexadecimal, identifier, keyword, lemma_after_after,
    lemma_step_bound, line_comment, line_len, magnitude_len, mantissa_len, number_len,
    number_tail, number_value, numeral, open_paren, reserved, run, scan, signed, signed_dec,
    signed_hex, space_at, starts_with3, string, string_body, string_element, token_at, unsigned,
    unsigned_dec, unsigned_hex,
};
use super::lemmas::{lemma_number_cut, lemma_number_in_word, lemma_run_skip};
use super::{Lexeme, lexemes, LexError, Token};

verus! {

/// What a recognizer returns: nothing, or what it recognised together with
/// the number of characters it covers.
pub type Lex<A> = Option<(A, usize)>;

/// The mathematical value of a recognizer's result.
pub open spec fn candidate<A: View>(found: Lex<A>) -> Option<(A::V, nat)> {
    match found {
        Some((value, n)) => Some((value@, n as nat)),
        None => None,
    }
}

/// The mathematical value of a tokenizer's result.
pub open spec fn outcome(result: Result<Vec<Token>, LexError>) -> Result<Seq<Lexeme>, nat> {
    match result {
        Ok(tokens) => Ok(lexemes(tokens@)),
        Err(LexError::UnscannableInput { offset }) => Err(offset as nat),
    }
}

/// `String::push` of the standard library: the string afterwards is the
/// string before with `c` appended. Assumed, not proved.
pub assume_specification[ String::push ](text: &mut String, c: char)
    ensures
        final(text)@ == old(text)@.push(c),
;

/// The text being tokenized and the position reached in it, counted in
/// characters.
pub struct State {
    input: Vec<char>,
    cursor: usize,
}

impl State {
    #[verifier::type_invariant]
    spec fn cursor_within_input(self) -> bool {
        self.cursor <= self.input.len()
    }

    /// The whole text.
    pub closed spec fn text(&self) -> Seq<char> {
        self.input@
    }

    /// The number of characters already consumed.
    pub closed spec fn offset(&self) -> nat {
        self.cursor as nat
    }

    /// The text that remains to be read.
    pub open spec fn rest(&self) -> Seq<char> {
        self.text().skip(self.offset() as int)
    }

    /// A state at the start of `input`.
    pub fn new(input: &str) -> (state: State)
        ensures
            state.text() == input@,
            state.offset() == 0,
    {
        broadcast use vstd::string::group_string_axioms;

        let mut chars: Vec<char> = Vec::new();
        for c in it: input.chars()
            invariant
                it.seq() == input@,
                chars@ == it.seq().take(it.index()),
        {
            chars.push(c);
        }
        State { input: chars, cursor: 0 }
    }

    /// Moves the cursor `offset` characters on.
    pub fn advance(&mut self, offset: usize)
        requires
            offset <= old(self).rest().len(),
        ensures
            final(self).text() == old(self).text(),
            final(self).offset() == old(self).offset() + offset,
    {
        proof {
            use_type_invariant(&*self);
        }
        self.cursor += offset;
    }

    /// Whether the whole text has been consumed.
    pub fn eof(&self) -> (done: bool)
        ensures
            done == (self.rest().len() == 0),
    {
        proof {
            use_type_invariant(self);
        }
        self.cursor == self.input.len()
    }

    /// The number of characters consumed so far.
    pub fn position(&self) -> (offset: usize)
        ensures
            offset == self.offset(),
    {
        self.cursor
    }
}

/// The length of the run of `class` that starts at `from`.
fn class_run(input: &Vec<char>, from: usize, class: Class) -> (n: usize)
    requires
        from <= input.len(),
    ensures
        n == run(input@.skip(from as int), class),
        from + n <= input.len(),
{
    let mut end: usize = from;
    while end < input.len() && class.contains(input[end])
        invariant
            from <= end <= input.len(),
            run(input@.skip(from as int), class) == (end - from) + run(
                input@.skip(end as int),
                class,
            ),
        decreases input.len() - end,
    {
        assert(input@.skip(end as int).skip(1) =~= input@.skip(end + 1));
        end += 1;
    }
    end - from
}

/// A number as a 32-bit value, where it fits.
pub open spec fn narrow(value: nat) -> Option<u32> {
    if value <= u32::MAX {
        Some(value as u32)
    } else {
        None
    }
}

/// The number that starts at `from`: its length, zero where there is none,
/// and its value where that fits 32 bits.
fn number_run(input: &Vec<char>, from: usize, hex: bool) -> (found: (usize, Option<u32>))
    requires
        from <= input.len(),
    ensures
        found.0 == number_len(input@.skip(from as int), hex),
        from + found.0 <= input.len(),
        found.1 == narrow(
            number_value(input@.subrange(from as int, from + found.0), if hex { 16 } else { 10 }),
        ),
{
    let radix: u64 = if hex { 16 } else { 10 };
    if !(from < input.len() && is_numeral(input[from], hex)) {
        assert(input@.subrange(from as int, from as int).len() == 0);
        return (0, Some(0));
    }
    let ghost s = input@;
    let mut end: usize = from;
    let mut value: u64 = 0;
    let mut fits = true;
    loop
        invariant
            from <= end <= input.len(),
            s == input@,
            radix == (if hex { 16u64 } else { 10 }),
            number_tail(s.skip(from as int), hex) == (end - from) + number_tail(
                s.skip(end as int),
                hex,
            ),
            fits ==> value == number_value(s.subrange(from as int, end as int), radix as nat)
                && value <= u32::MAX,
            !fits ==> number_value(s.subrange(from as int, end as int), radix as nat) > u32::MAX,
        ensures
            number_tail(s.skip(end as int), hex) == 0,
        decreases input.len() - end,
    {
        let digit_at = if end < input.len() && is_numeral(input[end], hex) {
            end
        } else if input.len() - end > 1 && input[end] == '_' && is_numeral(input[end + 1], hex) {
            end + 1
        } else {
            break ;
        };
        let ghost before = s.subrange(from as int, end as int);
        let ghost through = s.subrange(from as int, digit_at + 1);
        proof {
            assert(s.skip(end as int).skip(digit_at + 1 - end) =~= s.skip(digit_at + 1));
            assert(through.last() == s[digit_at as int]);
            assert(through.drop_last() =~= s.subrange(from as int, digit_at as int));
            if digit_at > end {
                assert(through.drop_last().drop_last() =~= before);
                assert(through.drop_last().last() == '_');
                assert(number_value(through.drop_last(), radix as nat) == number_value(
                    before,
                    radix as nat,
                ));
            }
            assert(number_value(through, radix as nat) == number_value(before, radix as nat)
                * radix + digit_value(s[digit_at as int]));
            assert(number_value(before, radix as nat) * radix >= number_value(
                before,
                radix as nat,
            )) by (nonlinear_arith)
                requires
                    radix >= 1,
            ;
        }
        if fits {
            value = value * radix + hex_digit_value(input[digit_at]) as u64;
            if value > 0xffff_ffff {
                fits = false;
            }
        }
        end = digit_at + 1;
    }
    assert(s.subrange(from as int, end as int) =~= s.subrange(from as int, from + (end - from)));
    if fits {
        (end - from, Some(value as u32))
    } else {
        (end - from, None)
    }
}

/// Whether `c` is a digit of a decimal (`hex` false) or hexadecimal number.
fn is_numeral(c: char, hex: bool) -> (b: bool)
    ensures
        b == numeral(c, hex),
{
    if hex {
        is_hex_digit(c)
    } else {
        is_digit(c)
    }
}

/// The decimal number that starts at `from`: its length, zero where there
/// is none, and its value where that fits 32 bits.
fn decimal_at(input: &Vec<char>, from: usize) -> (found: (usize, Option<u32>))
    requires
        from <= input.len(),
    ensures
        from + found.0 <= input.len(),
        match decimal(input@.skip(from as int)) {
            Some((value, n)) => found.0 == n && found.1 == narrow(value),
            None => found.0 == 0,
        },
{
    let found = number_run(input, from, false);
    assert(input@.subrange(from as int, from + found.0) =~= input@.skip(from as int).take(
        found.0 as int,
    ));
    found
}

/// The hexadecimal number that starts at `from` with `0x`: its length, zero
/// where there is none, and its value where that fits 32 bits.
fn hexadecimal_at(input: &Vec<char>, from: usize) -> (found: (usize, Option<u32>))
    requires
        from <= input.len(),
    ensures
        from + found.0 <= input.len(),
        match hexadecimal(input@.skip(from as int)) {
            Some((value, n)) => found.0 == n && found.1 == narrow(value),
            None => found.0 == 0,
        },
{
    if input.len() - from > 1 && input[from] == '0' && input[from + 1] == 'x' {
        assert(input@.skip(from as int).skip(2) =~= input@.skip(from + 2));
        let (n, value) = number_run(input, from + 2, true);
        assert(input@.subrange(from + 2, from + 2 + n) =~= input@.skip(from as int).subrange(
            2,
            2 + n,
        ));
        if n == 0 {
            (0, None)
        } else {
            (n + 2, value)
        }
    } else {
        (0, None)
    }
}

/// An unsigned number as a recognizer hands it out.
fn unsigned_from(found: (usize, Option<u32>)) -> (result: Lex<u32>)
    ensures
        result == (match found.1 {
            Some(value) if found.0 > 0 => Some((value, found.0)),
            _ => None,
        }),
{
    match found.1 {
        Some(value) => if found.0 > 0 {
            Some((value, found.0))
        } else {
            None
        },
        None => None,
    }
}

/// A number behind a sign as a recognizer hands it out: negated where
/// `negative`, one character longer, and nothing where it does not fit.
fn signed_from(negative: bool, found: (usize, Option<u32>)) -> (result: Lex<i32>)
    requires
        found.0 < usize::MAX,
    ensures
        result == (match found.1 {
            Some(value) if found.0 > 0 && negative && value <= 0x8000_0000 => Some(
                ((-(value as int)) as i32, (found.0 + 1) as usize),
            ),
            Some(value) if found.0 > 0 && !negative && value <= i32::MAX => Some(
                (value as i32, (found.0 + 1) as usize),
            ),
            _ => None,
        }),
{
    match found.1 {
        Some(value) => if found.0 == 0 {
            None
        } else if negative && value <= 0x8000_0000 {
            Some(((-(value as i64)) as i32, found.0 + 1))
        } else if !negative && value <= 0x7fff_ffff {
            Some((value as i32, found.0 + 1))
        } else {
            None
        },
        None => None,
    }
}

/// Appends the UTF-8 encoding of the character with number `v`.
fn push_scalar(bytes: &mut Vec<u8>, v: u32)
    requires
        is_scalar(v),
    ensures
        final(bytes)@ == old(bytes)@ + encode_scalar(v),
{
    if v <= 0x7F {
        bytes.push((v & 0x7F) as u8);
        assert(bytes@ =~= old(bytes)@ + encode_scalar(v));
    } else if v <= 0x7FF {
        bytes.push(0xC0 | ((v >> 6) & 0x1F) as u8);
        bytes.push(0x80 | (v & 0x3F) as u8);
        assert(bytes@ =~= old(bytes)@ + encode_scalar(v));
    } else if v <= 0xFFFF {
        bytes.push(0xE0 | ((v >> 12) & 0x0F) as u8);
        bytes.push(0x80 | ((v >> 6) & 0x3F) as u8);
        bytes.push(0x80 | (v & 0x3F) as u8);
        assert(bytes@ =~= old(bytes)@ + encode_scalar(v));
    } else {
        bytes.push(0xF0 | ((v >> 18) & 0x7) as u8);
        bytes.push(0x80 | ((v >> 12) & 0x3F) as u8);
        bytes.push(0x80 | ((v >> 6) & 0x3F) as u8);
        bytes.push(0x80 | (v & 0x3F) as u8);
        assert(bytes@ =~= old(bytes)@ + encode_scalar(v));
    }
}

/// The characters of `input` from `from` up to `to`, as a string.
fn text_between(input: &Vec<char>, from: usize, to: usize) -> (text: String)
    requires
        from <= to <= input.len(),
    ensures
        text@ == input@.subrange(from as int, to as int),
{
    let mut text = String::new();
    let mut at: usize = from;
    while at < to
        invariant
            from <= at <= to <= input.len(),
            text@ == input@.subrange(from as int, at as int),
        decreases to - at,
    {
        text.push(input[at]);
        at += 1;
    }
    text
}

/// The result of [`choose_longest`]: the longer of two candidates, on equal lengths
/// the first.
pub open spec fn chosen<A>(current: Lex<A>, next: Lex<A>) -> Lex<A> {
    match (current, next) {
        (Some(c), Some(n)) => if c.1 >= n.1 {
            current
        } else {
            next
        },
        (Some(_), None) => current,
        (None, _) => next,
    }
}

/// Keeps the longer of two candidates. On equal lengths `current` stays,
/// so that the production tried first has precedence.
pub fn choose_longest<A>(current: Lex<A>, next: Lex<A>) -> (best: Lex<A>)
    ensures
        best == chosen(current, next),
{
    match current {
        None => next,
        Some(c) => match next {
            None => Some(c),
            Some(n) => if c.1 >= n.1 {
                Some(c)
            } else {
                Some(n)
            },
        },
    }
}

/// The mathematical value of the result of a recognizer of insignificant
/// text.
pub open spec fn skipped(found: Lex<()>) -> Option<nat> {
    match found {
        Some((_, n)) => Some(n as nat),
        None => None,
    }
}

/// Recognizes a run of blank space.
pub fn lex_blank(state: &State) -> (found: Lex<()>)
    ensures
        skipped(found) == blank(state.rest()),
{
    proof {
        use_type_invariant(state);
    }
    let n = class_run(&state.input, state.cursor, Class::Blank);
    if n > 0 {
        Some(((), n))
    } else {
        None
    }
}

/// Recognizes a line comment.
pub fn lex_line_comment(state: &State) -> (found: Lex<()>)
    ensures
        skipped(found) == line_comment(state.rest()),
{
    proof {
        use_type_invariant(state);
    }
    let input = &state.input;
    let start = state.cursor;
    if input.len() - start > 1 && input[start] == ';' && input[start + 1] == ';' {
        assert(state.rest().skip(2) =~= input@.skip(start + 2));
        let mut end: usize = start + 2;
        while end < input.len() && input[end] != '\n'
            invariant
                start + 2 <= end <= input.len(),
                line_len(input@.skip(start + 2)) == (end - (start + 2)) + line_len(
                    input@.skip(end as int),
                ),
            decreases input.len() - end,
        {
            assert(input@.skip(end as int).skip(1) =~= input@.skip(end + 1));
            end += 1;
        }
        if end < input.len() {
            assert(input@.skip(end as int).skip(1) =~= input@.skip(end + 1));
            end += 1;
        }
        Some(((), end - start))
    } else {
        None
    }
}

/// Recognizes a block comment, with the block comments nested in it.
#[verifier::loop_isolation(false)]
pub fn lex_block_comment(state: &State) -> (found: Lex<()>)
    ensures
        skipped(found) == block_comment(state.rest()),
{
    proof {
        use_type_invariant(state);
    }
    let input = &state.input;
    let start = state.cursor;
    if !(input.len() - start > 1 && input[start] == '(' && input[start + 1] == ';') {
        return None;
    }
    assert(state.rest().skip(2) =~= input@.skip(start + 2));
    let mut at: usize = start + 2;
    let mut depth: usize = 1;
    loop
        invariant
            start + 2 <= at <= input.len(),
            1 <= depth <= at - start,
            block_rest(input@.skip(start + 2), 1) == further(
                (at - (start + 2)) as nat,
                block_rest(input@.skip(at as int), depth as nat),
            ),
        decreases input.len() - at,
    {
        if input.len() - at < 2 {
            return None;
        }
        assert(input@.skip(at as int).skip(1) =~= input@.skip(at + 1));
        assert(input@.skip(at as int).skip(2) =~= input@.skip(at + 2));
        if input[at] == ';' && input[at + 1] == ')' {
            if depth == 1 {
                return Some(((), at + 2 - start));
            }
            depth -= 1;
            at += 2;
        } else if input[at] == '(' && input[at + 1] == ';' {
            depth += 1;
            at += 2;
        } else {
            at += 1;
        }
    }
}

/// Recognizes insignificant text: blank space or a comment.
pub fn lex_space(state: &State) -> (found: Lex<()>)
    ensures
        skipped(found) == space_at(state.rest()),
{
    proof {
        reveal(space_at);
    }
    let mut span: Lex<()> = lex_blank(state);
    if span.is_none() {
        span = lex_line_comment(state);
    }
    if span.is_none() {
        span = lex_block_comment(state);
    }
    span
}

/// Recognizes `(`.
pub fn lex_left_paren(state: &State) -> (found: Lex<Token>)
    ensures
        candidate(found) == open_paren(state.rest()),
{
    proof {
        use_type_invariant(state);
    }
    if state.cursor < state.input.len() && state.input[state.cursor] == '(' {
        Some((Token::OpenParen, 1))
    } else {
        None
    }
}

/// Recognizes `)`.
pub fn lex_right_paren(state: &State) -> (found: Lex<Token>)
    ensures
        candidate(found) == close_paren(state.rest()),
{
    proof {
        use_type_invariant(state);
    }
    if state.cursor < state.input.len() && state.input[state.cursor] == ')' {
        Some((Token::CloseParen, 1))
    } else {
        None
    }
}

/// Recognizes a keyword.
pub fn lex_keyword(state: &State) -> (found: Lex<Token>)
    ensures
        candidate(found) == keyword(state.rest()),
{
    proof {
        use_type_invariant(state);
    }
    if state.cursor < state.input.len() && is_lower(state.input[state.cursor]) {
        let n = class_run(&state.input, state.cursor, Class::IdChar);
        let text = text_between(&state.input, state.cursor, state.cursor + n);
        assert(text@ =~= state.rest().take(n as int));
        Some((Token::Keyword(text), n))
    } else {
        None
    }
}

/// Recognizes a reserved word.
pub fn lex_reserved(state: &State) -> (found: Lex<Token>)
    ensures
        candidate(found) == reserved(state.rest()),
{
    proof {
        use_type_invariant(state);
    }
    let n = class_run(&state.input, state.cursor, Class::IdChar);
    if n > 0 {
        let text = text_between(&state.input, state.cursor, state.cursor + n);
        assert(text@ =~= state.rest().take(n as int));
        Some((Token::Reserved(text), n))
    } else {
        None
    }
}

/// Recognizes an identifier.
pub fn lex_id(state: &State) -> (found: Lex<Token>)
    ensures
        candidate(found) == identifier(state.rest()),
{
    proof {
        use_type_invariant(state);
    }
    if state.cursor < state.input.len() && state.input[state.cursor] == '$' {
        assert(state.rest().skip(1) =~= state.input@.skip(state.cursor + 1));
        let n = class_run(&state.input, state.cursor + 1, Class::IdChar);
        if n > 0 {
            let name = text_between(&state.input, state.cursor + 1, state.cursor + 1 + n);
            assert(name@ =~= state.rest().subrange(1, 1 + n));
            Some((Token::Id(name), n + 1))
        } else {
            None
        }
    } else {
        None
    }
}

/// Recognizes the decimal form of an unsigned integer.
pub fn lex_unsigned_dec(state: &State) -> (found: Lex<u32>)
    ensures
        candidate(found) == unsigned_dec(state.rest()),
{
    proof {
        use_type_invariant(state);
    }
    unsigned_from(decimal_at(&state.input, state.cursor))
}

/// Recognizes the hexadecimal form of an unsigned integer.
pub fn lex_unsigned_hex(state: &State) -> (found: Lex<u32>)
    ensures
        candidate(found) == unsigned_hex(state.rest()),
{
    proof {
        use_type_invariant(state);
    }
    unsigned_from(hexadecimal_at(&state.input, state.cursor))
}

/// Recognizes the decimal form of a signed integer.
pub fn lex_signed_dec(state: &State) -> (found: Lex<i32>)
    ensures
        candidate(found) == signed_dec(state.rest()),
{
    proof {
        use_type_invariant(state);
    }
    let input = &state.input;
    let at = state.cursor;
    if at < input.len() && (input[at] == '+' || input[at] == '-') {
        assert(state.rest().skip(1) =~= input@.skip(at + 1));
        signed_from(input[at] == '-', decimal_at(input, at + 1))
    } else {
        None
    }
}

/// Recognizes the hexadecimal form of a signed integer.
pub fn lex_signed_hex(state: &State) -> (found: Lex<i32>)
    ensures
        candidate(found) == signed_hex(state.rest()),
{
    proof {
        use_type_invariant(state);
    }
    let input = &state.input;
    let at = state.cursor;
    if at < input.len() && (input[at] == '+' || input[at] == '-') {
        assert(state.rest().skip(1) =~= input@.skip(at + 1));
        signed_from(input[at] == '-', hexadecimal_at(input, at + 1))
    } else {
        None
    }
}

/// Whether the word that starts at `at` ends at `to`.
spec fn word_ends(input: Seq<char>, at: int, to: int) -> bool {
    0 <= at <= to <= input.len() && run(input.skip(at), Class::IdChar) == to - at
}

/// Where a word ends, every later part of it ends.
proof fn lemma_word_ends(input: Seq<char>, at: int, to: int, n: int)
    requires
        word_ends(input, at, to),
        0 <= n <= to - at,
    ensures
        word_ends(input, at + n, to),
        input.subrange(at, to).skip(n) == input.subrange(at + n, to),
        n < to - at ==> input.subrange(at, to)[n] == input[at + n],
{
    lemma_run_skip(input.skip(at), n as nat, Class::IdChar);
    assert(input.skip(at).skip(n) =~= input.skip(at + n));
    assert(input.subrange(at, to).skip(n) =~= input.subrange(at + n, to));
}

/// The length of the number at `at` in the word that ends at `to`.
fn number_within(input: &Vec<char>, at: usize, to: usize, hex: bool) -> (n: usize)
    requires
        word_ends(input@, at as int, to as int),
    ensures
        n == number_len(input@.subrange(at as int, to as int), hex),
        at + n <= to,
{
    let found = number_run(input, at, hex);
    proof {
        lemma_number_cut(input@.skip(at as int), (to - at) as nat, hex);
        lemma_number_in_word(input@.skip(at as int), hex);
        assert(input@.skip(at as int).take(to - at) =~= input@.subrange(at as int, to as int));
    }
    found.0
}

/// The length of the fraction at `at` in the word that ends at `to`.
fn fraction_within(input: &Vec<char>, at: usize, to: usize, hex: bool) -> (n: usize)
    requires
        word_ends(input@, at as int, to as int),
    ensures
        n == fraction_len(input@.subrange(at as int, to as int), hex),
        at + n <= to,
{
    if at < to && input[at] == '.' {
        proof {
            lemma_word_ends(input@, at as int, to as int, 0);
            lemma_word_ends(input@, at as int, to as int, 1);
        }
        1 + number_within(input, at + 1, to, hex)
    } else {
        0
    }
}

/// The length of the exponent at `at` in the word that ends at `to`.
fn exponent_within(input: &Vec<char>, at: usize, to: usize, hex: bool) -> (n: usize)
    requires
        word_ends(input@, at as int, to as int),
    ensures
        n == exponent_len(input@.subrange(at as int, to as int), hex),
        at + n <= to,
{
    if at < to && (if hex {
        input[at] == 'p' || input[at] == 'P'
    } else {
        input[at] == 'e' || input[at] == 'E'
    }) {
        proof {
            lemma_word_ends(input@, at as int, to as int, 0);
            lemma_word_ends(input@, at as int, to as int, 1);
        }
        let mark: usize = if to - at > 1 && (input[at + 1] == '+' || input[at + 1] == '-') {
            2
        } else {
            1
        };
        proof {
            lemma_word_ends(input@, at as int, to as int, mark as int);
        }
        let n = number_within(input, at + mark, to, false);
        if n > 0 {
            mark + n
        } else {
            0
        }
    } else {
        0
    }
}

/// The length of the number with fraction or exponent at `at` in the
/// word that ends at `to`.
fn mantissa_within(input: &Vec<char>, at: usize, to: usize, hex: bool) -> (n: usize)
    requires
        word_ends(input@, at as int, to as int),
    ensures
        n == mantissa_len(input@.subrange(at as int, to as int), hex),
        at + n <= to,
{
    let whole = number_within(input, at, to, hex);
    proof {
        lemma_word_ends(input@, at as int, to as int, whole as int);
    }
    let fraction = fraction_within(input, at + whole, to, hex);
    proof {
        lemma_word_ends(input@, at as int, to as int, whole + fraction);
    }
    let exponent = exponent_within(input, at + whole + fraction, to, hex);
    if whole == 0 || (fraction == 0 && exponent == 0) {
        0
    } else {
        whole + fraction + exponent
    }
}

/// Whether the characters `a`, `b`, `c` stand at `at` in the word that
/// ends at `to`.
fn three_within(input: &Vec<char>, at: usize, to: usize, a: char, b: char, c: char) -> (found: bool)
    requires
        word_ends(input@, at as int, to as int),
    ensures
        found == starts_with3(input@.subrange(at as int, to as int), a, b, c),
{
    to - at >= 3 && input[at] == a && input[at + 1] == b && input[at + 2] == c
}

/// The length of the floating-point magnitude at `at` in the word that
/// ends at `to`.
fn magnitude_within(input: &Vec<char>, at: usize, to: usize) -> (n: usize)
    requires
        word_ends(input@, at as int, to as int),
    ensures
        n == magnitude_len(input@.subrange(at as int, to as int)),
        at + n <= to,
{
    if three_within(input, at, to, 'i', 'n', 'f') {
        3
    } else if three_within(input, at, to, 'n', 'a', 'n') {
        proof {
            lemma_word_ends(input@, at as int, to as int, 3);
        }
        if three_within(input, at + 3, to, ':', '0', 'x') {
            proof {
                lemma_word_ends(input@, at as int, to as int, 6);
            }
            let payload = number_within(input, at + 6, to, true);
            if payload > 0 {
                6 + payload
            } else {
                3
            }
        } else {
            3
        }
    } else {
        if to - at >= 2 && input[at] == '0' && input[at + 1] == 'x' {
            proof {
                lemma_word_ends(input@, at as int, to as int, 2);
            }
            let hexadecimal = mantissa_within(input, at + 2, to, true);
            if hexadecimal > 0 {
                return 2 + hexadecimal;
            }
        }
        mantissa_within(input, at, to, false)
    }
}

/// The length of the floating-point literal at `at` in the word that ends
/// at `to`.
fn float_within(input: &Vec<char>, at: usize, to: usize) -> (n: usize)
    requires
        word_ends(input@, at as int, to as int),
    ensures
        n == float_len(input@.subrange(at as int, to as int)),
        at + n <= to,
{
    let sign: usize = if at < to && (input[at] == '+' || input[at] == '-') {
        1
    } else {
        0
    };
    proof {
        lemma_word_ends(input@, at as int, to as int, sign as int);
    }
    let magnitude = magnitude_within(input, at + sign, to);
    if magnitude > 0 {
        sign + magnitude
    } else {
        0
    }
}

/// Recognizes a floating-point literal: a whole word of that shape.
pub fn lex_float(state: &State) -> (found: Lex<Token>)
    ensures
        candidate(found) == float(state.rest()),
{
    proof {
        use_type_invariant(state);
    }
    let input = &state.input;
    let at = state.cursor;
    let n = class_run(input, at, Class::IdChar);
    assert(input@.subrange(at as int, at + n) =~= state.rest().take(n as int));
    if n > 0 && float_within(input, at, at + n) == n {
        Some((Token::Float(text_between(input, at, at + n)), n))
    } else {
        None
    }
}

/// Recognizes a signed integer in either form.
pub fn lex_signed(state: &State) -> (found: Lex<Token>)
    ensures
        candidate(found) == signed(state.rest()),
{
    let mut i: Lex<i32> = None;
    i = choose_longest(i, lex_signed_dec(state));
    i = choose_longest(i, lex_signed_hex(state));
    match i {
        Some((value, n)) => Some((Token::SignedInt(value), n)),
        None => None,
    }
}

/// Decodes the element of a string literal that starts at `at`, appends
/// its bytes, and returns its length; `None` where the escape is malformed.
fn string_element_at(input: &Vec<char>, at: usize, bytes: &mut Vec<u8>) -> (width: Option<usize>)
    requires
        at < input.len(),
    ensures
        match string_element(input@.skip(at as int)) {
            Some((produced, n)) => width == Some(n as usize) && 0 < n && at + n <= input.len()
                && final(bytes)@ == old(bytes)@ + produced,
            None => width is None,
        },
{
    reveal(string_element);
    let ghost here = input@.skip(at as int);
    let c = input[at];
    let left = input.len() - at;
    if c != '\\' {
        proof {
            vstd::utf8::char_is_scalar(c);
        }
        push_scalar(bytes, c as u32);
        Some(1)
    } else if left >= 2 && input[at + 1] == 'n' {
        bytes.push(0x0A);
        assert(bytes@ =~= old(bytes)@ + seq![0x0Au8]);
        Some(2)
    } else if left >= 2 && input[at + 1] == 't' {
        bytes.push(0x09);
        assert(bytes@ =~= old(bytes)@ + seq![0x09u8]);
        Some(2)
    } else if left >= 2 && input[at + 1] == '\\' {
        bytes.push(0x5C);
        assert(bytes@ =~= old(bytes)@ + seq![0x5Cu8]);
        Some(2)
    } else if left >= 2 && input[at + 1] == '"' {
        bytes.push(0x22);
        assert(bytes@ =~= old(bytes)@ + seq![0x22u8]);
        Some(2)
    } else if left >= 6 && input[at + 1] == 'u' && is_hex_digit(input[at + 2]) && is_hex_digit(
        input[at + 3],
    ) && is_hex_digit(input[at + 4]) && is_hex_digit(input[at + 5]) {
        let v: u32 = hex_digit_value(input[at + 2]) * 0x1000 + hex_digit_value(input[at + 3])
            * 0x100 + hex_digit_value(input[at + 4]) * 0x10 + hex_digit_value(input[at + 5]);
        assert(v == hex4(here.skip(2)));
        if 0xD800 <= v && v <= 0xDFFF {
            None
        } else {
            push_scalar(bytes, v);
            Some(6)
        }
    } else if left >= 3 && is_hex_digit(input[at + 1]) && is_hex_digit(input[at + 2]) {
        let byte: u32 = hex_digit_value(input[at + 1]) * 16 + hex_digit_value(input[at + 2]);
        bytes.push(byte as u8);
        assert(bytes@ =~= old(bytes)@ + seq![byte as u8]);
        Some(3)
    } else {
        None
    }
}

/// Recognizes a string literal and decodes its escapes.
pub fn lex_string(state: &State) -> (found: Lex<Token>)
    ensures
        candidate(found) == string(state.rest()),
{
    proof {
        use_type_invariant(state);
    }
    let input = &state.input;
    let start = state.cursor;
    if !(start < input.len() && input[start] == '"') {
        return None;
    }
    assert(state.rest().skip(1) =~= input@.skip(start + 1));
    let mut bytes: Vec<u8> = Vec::new();
    let mut at: usize = start + 1;
    loop
        invariant
            state.rest().len() > 0,
            state.rest()[0] == '"',
            state.rest().skip(1) == input@.skip(start + 1),
            start + 1 <= at <= input.len(),
            string_body(input@.skip(start + 1)) == extend(
                bytes@,
                (at - (start + 1)) as nat,
                string_body(input@.skip(at as int)),
            ),
        decreases input.len() - at,
    {
        if at >= input.len() {
            return None;
        }
        let ghost so_far = bytes@;
        if input[at] == '"' {
            assert(so_far + Seq::<u8>::empty() =~= so_far);
            return Some((Token::StringLiteral(bytes), at + 1 - start));
        }
        match string_element_at(input, at, &mut bytes) {
            Some(n) => {
                proof {
                    let (produced, _) = string_element(input@.skip(at as int)).unwrap();
                    assert(input@.skip(at as int).skip(n as int) =~= input@.skip(at + n));
                    if let Some((more, _)) = string_body(input@.skip(at + n)) {
                        assert(so_far + (produced + more) =~= bytes@ + more);
                    }
                }
                at += n;
            },
            None => {
                return None;
            },
        }
    }
}

/// Recognizes an unsigned integer in either form.
pub fn lex_unsigned(state: &State) -> (found: Lex<Token>)
    ensures
        candidate(found) == unsigned(state.rest()),
{
    let mut u: Lex<u32> = None;
    u = choose_longest(u, lex_unsigned_dec(state));
    u = choose_longest(u, lex_unsigned_hex(state));
    match u {
        Some((value, n)) => Some((Token::UnsignedInt(value), n)),
        None => None,
    }
}

/// Recognizes the token at the cursor: the longest match among the
/// productions, the first in order of precedence among equals.
pub fn lex_token(state: &State) -> (found: Lex<Token>)
    ensures
        candidate(found) == token_at(state.rest()),
{
    proof {
        reveal(token_at);
    }
    let mut token: Lex<Token> = None;
    token = choose_longest(token, lex_unsigned(state));
    token = choose_longest(token, lex_signed(state));
    token = choose_longest(token, lex_float(state));
    token = choose_longest(token, lex_keyword(state));
    token = choose_longest(token, lex_id(state));
    token = choose_longest(token, lex_reserved(state));
    token = choose_longest(token, lex_string(state));
    token = choose_longest(token, lex_left_paren(state));
    token = choose_longest(token, lex_right_paren(state));
    token
}

/// Tokenizes `input`.
///
/// At every position the token and the insignificant text that start there
/// compete by length. Returns the tokens in the order of the text, blank
/// space and comments left out, or the offset of the first character at
/// which no production matches.
pub fn lex(input: &String) -> (result: Result<Vec<Token>, LexError>)
    ensures
        outcome(result) == scan(input@),
{
    let mut state = State::new(input.as_str());
    let mut tokens: Vec<Token> = Vec::new();
    proof {
        assert(state.rest() =~= input@);
        if let Ok(all) = scan(input@) {
            assert(Seq::<Lexeme>::empty() + all =~= all);
        }
        assert(lexemes(tokens@) =~= Seq::empty());
    }
    while !state.eof()
        invariant
            state.text() == input@,
            scan(input@) == after(lexemes(tokens@), state.offset(), scan(state.rest())),
        decreases state.rest().len(),
    {
        proof {
            use_type_invariant(&state);
            lemma_step_bound(state.rest());
        }
        let ghost before = state;
        let ghost done = lexemes(tokens@);
        let token = lex_token(&state);
        let skip = match lex_space(&state) {
            Some((_, m)) => m,
            None => 0,
        };
        match token {
            Some((token, n)) if n >= skip => {
                tokens.push(token);
                state.advance(n);
                proof {
                    assert(state.rest() =~= before.rest().skip(n as int));
                    assert(lexemes(tokens@) =~= done + seq![token@]);
                    lemma_after_after(
                        done,
                        before.offset(),
                        seq![token@],
                        n as nat,
                        scan(state.rest()),
                    );
                }
            },
            _ => {
                if skip == 0 {
                    return Err(LexError::UnscannableInput { offset: state.position() });
                }
                state.advance(skip);
                proof {
                    assert(state.rest() =~= before.rest().skip(skip as int));
                    assert(done + Seq::<Lexeme>::empty() =~= done);
                    lemma_after_after(
                        done,
                        before.offset(),
                        Seq::empty(),
                        skip as nat,
                        scan(state.rest()),
                    );
                }
            },
        }
    }
    proof {
        assert(lexemes(tokens@) + Seq::<Lexeme>::empty() =~= lexemes(tokens@));
    }
    Ok(tokens)
}

} // verus!
