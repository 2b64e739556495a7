//! Lemmas on runs, words and prefixes that the laws of the grammar rest on.

use vstd::prelude::*;
use super::chars::{Class, idchar, space};
use super::grammar::{
    after, blank, block_comment, block_rest, decimal, float, further, hexadecimal, identifier,
    keyword, lemma_after_after, lemma_after_nothing, lemma_block_bound, lemma_run_bound,
    lemma_scan_step, lemma_step_bound, lemma_string_bound, line_comment, line_len, number_len,
    number_tail, numeral, open_paren, reserved, run, scan, signed, space_at, step, string_body,
    string_element, token_at, unsigned,
};
use super::laws::lemma_token_is_word;
use super::Lexeme;

verus! {

/// What a run is: its characters belong to the class, and the character
/// behind it, if there is one, does not.
pub proof fn lemma_run(s: Seq<char>, class: Class)
    ensures
        run(s, class) <= s.len(),
        forall|i: int| 0 <= i < run(s, class) ==> class.has(#[trigger] s[i]),
        run(s, class) < s.len() ==> !class.has(s[run(s, class) as int]),
    decreases s.len(),
{
    if s.len() > 0 && class.has(s[0]) {
        let t = s.skip(1);
        lemma_run(t, class);
        assert forall|i: int| 0 <= i < run(s, class) implies class.has(#[trigger] s[i]) by {
            if i > 0 {
                assert(s[i] == t[i - 1]);
            }
        }
        if run(s, class) < s.len() {
            assert(s[run(s, class) as int] == t[run(t, class) as int]);
        }
    }
}

/// Nothing else is the run: a prefix of characters of the class that
/// ends the text or stands before a character outside the class.
pub proof fn lemma_run_unique(s: Seq<char>, class: Class, n: nat)
    requires
        n <= s.len(),
        forall|i: int| 0 <= i < n ==> class.has(#[trigger] s[i]),
        n < s.len() ==> !class.has(s[n as int]),
    ensures
        run(s, class) == n,
    decreases n,
{
    if n > 0 {
        let t = s.skip(1);
        assert forall|i: int| 0 <= i < n - 1 implies class.has(#[trigger] t[i]) by {
            assert(t[i] == s[i + 1]);
        }
        if n - 1 < t.len() {
            assert(t[n - 1] == s[n as int]);
        }
        lemma_run_unique(t, class, (n - 1) as nat);
    }
}

/// A run is the same in every prefix of the text that holds it.
pub proof fn lemma_run_cut(s: Seq<char>, k: nat, class: Class)
    requires
        run(s, class) <= k <= s.len(),
    ensures
        run(s.take(k as int), class) == run(s, class),
{
    lemma_run(s, class);
    lemma_run_unique(s.take(k as int), class, run(s, class));
}

/// A run over a text that starts with characters of the class goes
/// through them.
pub proof fn lemma_run_concat(w: Seq<char>, b: Seq<char>, class: Class)
    requires
        forall|i: int| 0 <= i < w.len() ==> class.has(#[trigger] w[i]),
    ensures
        run(w + b, class) == w.len() + run(b, class),
{
    let s = w + b;
    let n = w.len() + run(b, class);
    lemma_run(b, class);
    assert forall|i: int| 0 <= i < n implies class.has(#[trigger] s[i]) by {
        if i >= w.len() {
            assert(s[i] == b[i - w.len()]);
        } else {
            assert(s[i] == w[i]);
        }
    }
    if n < s.len() {
        assert(s[n as int] == b[run(b, class) as int]);
    }
    lemma_run_unique(s, class, n);
}

/// A run that starts with two characters of the class goes on behind them.
pub proof fn lemma_run_two(s: Seq<char>, class: Class)
    requires
        s.len() >= 2,
        class.has(s[0]),
        class.has(s[1]),
    ensures
        run(s, class) == 2 + run(s.skip(2), class),
{
    assert(s.skip(1)[0] == s[1]);
    assert(s.skip(1).skip(1) =~= s.skip(2));
    assert(run(s.skip(1), class) == 1 + run(s.skip(1).skip(1), class));
}

/// Behind the first characters of a run, the run goes on with what is
/// left of it.
pub proof fn lemma_run_skip(s: Seq<char>, j: nat, class: Class)
    requires
        j <= run(s, class),
    ensures
        run(s.skip(j as int), class) == run(s, class) - j,
    decreases j,
{
    lemma_run_bound(s, class);
    if j == 0 {
        assert(s.skip(0) =~= s);
    } else {
        lemma_run_skip(s.skip(1), (j - 1) as nat, class);
        assert(s.skip(1).skip(j - 1) =~= s.skip(j as int));
    }
}

/// The characters of a number are identifier characters.
pub proof fn lemma_number_in_word(s: Seq<char>, hex: bool)
    ensures
        number_tail(s, hex) <= run(s, Class::IdChar),
        number_len(s, hex) <= run(s, Class::IdChar),
    decreases s.len(),
{
    if s.len() >= 1 && numeral(s[0], hex) {
        lemma_number_in_word(s.skip(1), hex);
    } else if s.len() >= 2 && s[0] == '_' && numeral(s[1], hex) {
        lemma_run_two(s, Class::IdChar);
        lemma_number_in_word(s.skip(2), hex);
    }
}

/// A number is the same in every prefix of the text that holds the word it
/// is part of.
pub proof fn lemma_number_cut(s: Seq<char>, k: nat, hex: bool)
    requires
        run(s, Class::IdChar) <= k <= s.len(),
    ensures
        number_tail(s.take(k as int), hex) == number_tail(s, hex),
        number_len(s.take(k as int), hex) == number_len(s, hex),
    decreases s.len(),
{
    let t = s.take(k as int);
    if s.len() >= 1 && numeral(s[0], hex) {
        assert(t.skip(1) =~= s.skip(1).take(k - 1));
        lemma_number_cut(s.skip(1), (k - 1) as nat, hex);
    } else if s.len() >= 2 && s[0] == '_' && numeral(s[1], hex) {
        lemma_run_two(s, Class::IdChar);
        assert(t.skip(2) =~= s.skip(2).take(k - 2));
        lemma_number_cut(s.skip(2), (k - 2) as nat, hex);
    }
}

/// A decimal number is the same in every prefix that holds its word.
pub proof fn lemma_decimal_cut(s: Seq<char>, k: nat)
    requires
        run(s, Class::IdChar) <= k <= s.len(),
    ensures
        decimal(s.take(k as int)) == decimal(s),
        decimal(s) matches Some((_, n)) ==> n <= run(s, Class::IdChar),
{
    lemma_number_cut(s, k, false);
    lemma_number_in_word(s, false);
    let n = number_len(s, false);
    assert(s.take(k as int).take(n as int) =~= s.take(n as int));
}

/// A hexadecimal number is the same in every prefix that holds its word.
pub proof fn lemma_hexadecimal_cut(s: Seq<char>, k: nat)
    requires
        run(s, Class::IdChar) <= k <= s.len(),
    ensures
        hexadecimal(s.take(k as int)) == hexadecimal(s),
        hexadecimal(s) matches Some((_, n)) ==> n <= run(s, Class::IdChar),
{
    let t = s.take(k as int);
    if s.len() >= 2 && s[0] == '0' && s[1] == 'x' {
        lemma_run_two(s, Class::IdChar);
        assert(t.skip(2) =~= s.skip(2).take(k - 2));
        lemma_number_cut(s.skip(2), (k - 2) as nat, true);
        lemma_number_in_word(s.skip(2), true);
        let n = number_len(s.skip(2), true);
        assert(t.subrange(2, 2 + n as int) =~= s.subrange(2, 2 + n as int));
    }
}

/// The productions made of identifier characters read the word at the
/// head of the text and nothing behind it: each gives the same in every
/// prefix of the text that holds the word, and matches no more than the word.
pub proof fn lemma_word_cut(s: Seq<char>, k: nat)
    requires
        run(s, Class::IdChar) <= k <= s.len(),
    ensures
        unsigned(s.take(k as int)) == unsigned(s),
        signed(s.take(k as int)) == signed(s),
        float(s.take(k as int)) == float(s),
        keyword(s.take(k as int)) == keyword(s),
        identifier(s.take(k as int)) == identifier(s),
        reserved(s.take(k as int)) == reserved(s),
        unsigned(s) matches Some((_, n)) ==> n <= run(s, Class::IdChar),
        signed(s) matches Some((_, n)) ==> n <= run(s, Class::IdChar),
        float(s) matches Some((_, n)) ==> n == run(s, Class::IdChar),
        keyword(s) matches Some((_, n)) ==> n == run(s, Class::IdChar),
        identifier(s) matches Some((_, n)) ==> n == run(s, Class::IdChar),
        reserved(s) matches Some((_, n)) ==> n == run(s, Class::IdChar),
{
    let t = s.take(k as int);
    let r = run(s, Class::IdChar);
    lemma_run_cut(s, k, Class::IdChar);
    assert(t.take(r as int) =~= s.take(r as int));
    lemma_decimal_cut(s, k);
    lemma_hexadecimal_cut(s, k);
    if s.len() > 0 && idchar(s[0]) {
        assert(t.skip(1) =~= s.skip(1).take(k - 1));
        lemma_decimal_cut(s.skip(1), (k - 1) as nat);
        lemma_hexadecimal_cut(s.skip(1), (k - 1) as nat);
        lemma_run_cut(s.skip(1), (k - 1) as nat, Class::IdChar);
        let q = run(s.skip(1), Class::IdChar);
        assert(t.subrange(1, 1 + q as int) =~= s.subrange(1, 1 + q as int));
    }
}

/// Texts with the same first `n` characters have the same character at
/// every place before `n`.
pub proof fn lemma_same_prefix(s: Seq<char>, s2: Seq<char>, n: nat)
    requires
        n <= s.len(),
        n <= s2.len(),
        s2.take(n as int) == s.take(n as int),
    ensures
        forall|i: int| 0 <= i < n ==> s2[i] == s[i],
        forall|j: nat| j <= n ==> #[trigger] s2.take(j as int) == s.take(j as int),
        forall|j: nat|
            j <= n ==> #[trigger] s2.skip(j as int).take(n - j) == s.skip(j as int).take(n - j),
{
    assert forall|i: int| 0 <= i < n implies s2[i] == s[i] by {
        assert(s2.take(n as int)[i] == s2[i]);
        assert(s.take(n as int)[i] == s[i]);
    }
    assert forall|j: nat| j <= n implies #[trigger] s2.take(j as int) == s.take(j as int) by {
        assert(s2.take(j as int) =~= s.take(j as int));
    }
    assert forall|j: nat| j <= n implies #[trigger] s2.skip(j as int).take(n - j) == s.skip(
        j as int,
    ).take(n - j) by {
        assert(s2.skip(j as int).take(n - j) =~= s.skip(j as int).take(n - j));
    }
}

/// Texts with the same word at their head give the productions made of
/// identifier characters the same.
pub proof fn lemma_same_word(s: Seq<char>, s2: Seq<char>)
    requires
        run(s2, Class::IdChar) == run(s, Class::IdChar),
        s2.take(run(s, Class::IdChar) as int) == s.take(run(s, Class::IdChar) as int),
    ensures
        unsigned(s2) == unsigned(s),
        signed(s2) == signed(s),
        float(s2) == float(s),
        keyword(s2) == keyword(s),
        identifier(s2) == identifier(s),
        reserved(s2) == reserved(s),
{
    let r = run(s, Class::IdChar);
    lemma_run_bound(s, Class::IdChar);
    lemma_run_bound(s2, Class::IdChar);
    lemma_word_cut(s, r);
    lemma_word_cut(s2, r);
}

/// No token starts with blank space or with `;`.
pub proof fn lemma_no_token(s: Seq<char>)
    requires
        s.len() > 0,
        space(s[0]) || s[0] == ';',
    ensures
        token_at(s) is None,
{
    reveal(token_at);
}

/// The token at a `(` is the parenthesis.
pub proof fn lemma_paren_token(s: Seq<char>)
    requires
        s.len() > 0,
        s[0] == '(',
    ensures
        token_at(s) == open_paren(s),
        open_paren(s) == Some((Lexeme::OpenParen, 1nat)),
{
    reveal(token_at);
}

/// Insignificant text starts with blank space, `;` or `(`; behind `(` it
/// is a block comment, of four characters at least.
pub proof fn lemma_space_start(s: Seq<char>)
    requires
        space_at(s) is Some,
    ensures
        s.len() > 0,
        space(s[0]) || s[0] == ';' || s[0] == '(',
        s[0] == '(' ==> space_at(s) == block_comment(s) && space_at(s).unwrap() >= 4,
        s[0] == ';' ==> space_at(s) == line_comment(s),
        space(s[0]) ==> space_at(s) == blank(s),
{
    reveal(space_at);
    if s.len() >= 2 {
        lemma_block_bound(s.skip(2), 1);
    }
}

/// The body of a string literal is the same in every text that starts with
/// the characters it covers.
pub proof fn lemma_string_body_prefix(s: Seq<char>, s2: Seq<char>)
    requires
        string_body(s) matches Some((_, n)) && n <= s2.len() && s2.take(n as int) == s.take(
            n as int,
        ),
    ensures
        string_body(s2) == string_body(s),
    decreases s.len(),
{
    lemma_string_bound(s);
    let n = string_body(s).unwrap().1;
    lemma_same_prefix(s, s2, n);
    if s[0] != '"' {
        reveal(string_element);
        let (bytes, m) = string_element(s).unwrap();
        lemma_string_bound(s.skip(m as int));
        assert(string_element(s2) == string_element(s)) by {
            if m == 6 {
                assert(s2.skip(2)[0] == s.skip(2)[0]);
                assert(s2.skip(2)[1] == s.skip(2)[1]);
                assert(s2.skip(2)[2] == s.skip(2)[2]);
                assert(s2.skip(2)[3] == s.skip(2)[3]);
            }
        }
        assert(s2.skip(m as int).take(n - m) == s.skip(m as int).take(n - m));
        lemma_string_body_prefix(s.skip(m as int), s2.skip(m as int));
    }
}

/// The rest of a block comment is the same in every text that starts with
/// the characters it covers.
pub proof fn lemma_block_rest_prefix(s: Seq<char>, s2: Seq<char>, depth: nat)
    requires
        block_rest(s, depth) matches Some(n) && n <= s2.len() && s2.take(n as int) == s.take(
            n as int,
        ),
    ensures
        block_rest(s2, depth) == block_rest(s, depth),
    decreases s.len(),
{
    lemma_block_bound(s, depth);
    let n = block_rest(s, depth).unwrap();
    lemma_same_prefix(s, s2, n);
    if s[0] == ';' && s[1] == ')' {
        if depth > 1 {
            assert(s2.skip(2).take(n - 2) == s.skip(2).take(n - 2));
            lemma_block_rest_prefix(s.skip(2), s2.skip(2), (depth - 1) as nat);
        }
    } else if s[0] == '(' && s[1] == ';' {
        assert(s2.skip(2).take(n - 2) == s.skip(2).take(n - 2));
        lemma_block_rest_prefix(s.skip(2), s2.skip(2), depth + 1);
    } else {
        assert(s2.skip(1).take(n - 1) == s.skip(1).take(n - 1));
        lemma_block_rest_prefix(s.skip(1), s2.skip(1), depth);
    }
}

/// What a line is: it holds no line feed before its last character, and
/// it ends with a line feed unless it ends the text.
pub proof fn lemma_line(s: Seq<char>)
    ensures
        line_len(s) <= s.len(),
        s.len() > 0 ==> line_len(s) > 0,
        forall|i: int| 0 <= i < line_len(s) - 1 ==> #[trigger] s[i] != '\n',
        line_len(s) < s.len() ==> s[line_len(s) - 1] == '\n',
    decreases s.len(),
{
    if s.len() > 0 && s[0] != '\n' {
        let t = s.skip(1);
        lemma_line(t);
        assert forall|i: int| 0 <= i < line_len(s) - 1 implies #[trigger] s[i] != '\n' by {
            if i > 0 {
                assert(s[i] == t[i - 1]);
            }
        }
        if line_len(s) < s.len() {
            assert(s[line_len(s) - 1] == t[line_len(t) - 1]);
        }
    }
}

/// Nothing else is the line: a prefix without a line feed before its last
/// character that ends with a line feed or ends the text.
pub proof fn lemma_line_unique(s: Seq<char>, n: nat)
    requires
        n <= s.len(),
        s.len() > 0 ==> n > 0,
        forall|i: int| 0 <= i < n - 1 ==> #[trigger] s[i] != '\n',
        n == s.len() || s[n - 1] == '\n',
    ensures
        line_len(s) == n,
    decreases s.len(),
{
    if s.len() > 0 && s[0] != '\n' {
        let t = s.skip(1);
        assert(n > 1 || n == s.len());
        assert forall|i: int| 0 <= i < n - 2 implies #[trigger] t[i] != '\n' by {
            assert(t[i] == s[i + 1]);
        }
        if n > 1 {
            assert(t[n - 2] == s[n - 1]);
        }
        lemma_line_unique(t, (n - 1) as nat);
    } else if s.len() > 0 {
        if n > 1 {
            assert(s[0] != '\n');
        }
    }
}

/// Whether `s2` goes on behind its first `n` characters as `s` does, or
/// with blank space, or not at all.
pub open spec fn goes_on_alike(s: Seq<char>, s2: Seq<char>, n: nat) -> bool {
    s2.len() == n || space(s2[n as int]) || (n < s.len() && s2[n as int] == s[n as int])
}

/// A token is the same in every text that starts with the characters it
/// covers and goes on alike behind them.
pub proof fn lemma_token_stable(s: Seq<char>, s2: Seq<char>)
    requires
        token_at(s) matches Some((_, n)) && n <= s2.len() && s2.take(n as int) == s.take(n as int)
            && goes_on_alike(s, s2, n),
    ensures
        token_at(s2) == token_at(s),
{
    lemma_step_bound(s);
    let n = token_at(s).unwrap().1;
    lemma_same_prefix(s, s2, n);
    if idchar(s[0]) {
        lemma_token_is_word(s);
        lemma_run(s, Class::IdChar);
        lemma_run_unique(s2, Class::IdChar, n);
        lemma_same_word(s, s2);
        reveal(token_at);
    } else {
        assert(run(s, Class::IdChar) == 0);
        assert(run(s2, Class::IdChar) == 0);
        assert(s2.take(0) =~= s.take(0));
        lemma_same_word(s, s2);
        reveal(token_at);
        if s[0] == '"' {
            assert(s2.skip(1).take(n - 1) == s.skip(1).take(n - 1));
            lemma_string_body_prefix(s.skip(1), s2.skip(1));
        }
    }
}

/// A step is the same on the characters it consumes alone: each piece of
/// a scanned text is by itself one token or one stretch of insignificant
/// text.
pub proof fn lemma_step_cut(s: Seq<char>)
    requires
        step(s) is Some,
    ensures
        step(s.take(step(s).unwrap().1 as int)) == step(s),
{
    lemma_step_bound(s);
    let (emitted, n) = step(s).unwrap();
    let s2 = s.take(n as int);
    assert(s2.take(n as int) =~= s.take(n as int));
    lemma_same_prefix(s, s2, n);
    if emitted.len() > 0 {
        lemma_token_stable(s, s2);
        if space_at(s2) is Some {
            lemma_space_start(s2);
            if s[0] == '(' {
                lemma_paren_token(s);
            } else {
                lemma_no_token(s2);
            }
        }
    } else {
        lemma_space_start(s);
        if space(s[0]) {
            lemma_no_token(s2);
            lemma_run_cut(s, n, Class::Blank);
            assert(space_at(s2) == Some(n)) by {
                reveal(space_at);
            }
        } else if s[0] == ';' {
            lemma_no_token(s2);
            lemma_line(s.skip(2));
            assert(s2.skip(2) =~= s.skip(2).take(n - 2));
            lemma_line_unique(s2.skip(2), (n - 2) as nat);
            assert(space_at(s2) == Some(n)) by {
                reveal(space_at);
            }
        } else {
            lemma_paren_token(s2);
            lemma_block_bound(s.skip(2), 1);
            assert(s2.skip(2).take(n - 2) == s.skip(2).take(n - 2));
            lemma_block_rest_prefix(s.skip(2), s2.skip(2), 1);
            assert(space_at(s2) == Some(n)) by {
                reveal(space_at);
            }
        }
    }
}

/// A scan fails at a character of the text.
pub proof fn lemma_failure_bound(s: Seq<char>)
    ensures
        scan(s) matches Err(offset) ==> offset < s.len(),
    decreases s.len(),
{
    if s.len() > 0 {
        lemma_scan_step(s);
        lemma_step_bound(s);
        if let Some((_, n)) = step(s) {
            lemma_failure_bound(s.skip(n as int));
        }
    }
}

/// Whether `w` is blank space throughout.
pub open spec fn blanks(w: Seq<char>) -> bool {
    forall|i: int| 0 <= i < w.len() ==> space(#[trigger] w[i])
}

/// Blank space at the start of a text only delays its scan.
pub proof fn lemma_leading_blanks(w: Seq<char>, b: Seq<char>)
    requires
        blanks(w),
    ensures
        scan(w + b) == after(Seq::empty(), w.len(), scan(b)),
{
    let s = w + b;
    if w.len() == 0 {
        assert(s =~= b);
        lemma_after_nothing(scan(b));
    } else {
        lemma_run_concat(w, b, Class::Blank);
        lemma_run_bound(b, Class::Blank);
        let m = run(b, Class::Blank);
        let r = w.len() + m;
        assert(s[0] == w[0]);
        lemma_no_token(s);
        lemma_scan_step(s);
        assert(step(s) == Some((Seq::<Lexeme>::empty(), r))) by {
            reveal(space_at);
        }
        assert(s.skip(r as int) =~= b.skip(m as int));
        if m == 0 {
            assert(b.skip(0) =~= b);
        } else {
            lemma_no_token(b);
            lemma_scan_step(b);
            assert(step(b) == Some((Seq::<Lexeme>::empty(), m))) by {
                reveal(space_at);
            }
            lemma_after_after(Seq::empty(), w.len(), Seq::empty(), m, scan(b.skip(m as int)));
            assert(Seq::<Lexeme>::empty() + Seq::<Lexeme>::empty() =~= Seq::<Lexeme>::empty());
        }
    }
}

/// A line without a line feed goes on into the text that follows it.
pub proof fn lemma_line_concat(x: Seq<char>, w: Seq<char>)
    requires
        forall|i: int| 0 <= i < x.len() ==> #[trigger] x[i] != '\n',
    ensures
        line_len(x + w) == x.len() + line_len(w),
    decreases x.len(),
{
    if x.len() == 0 {
        assert(x + w =~= w);
    } else {
        let t = x.skip(1);
        assert((x + w)[0] == x[0]);
        assert((x + w).skip(1) =~= t + w);
        assert forall|i: int| 0 <= i < t.len() implies #[trigger] t[i] != '\n' by {
            assert(t[i] == x[i + 1]);
        }
        lemma_line_concat(t, w);
    }
}

/// A block comment that more open comments do not close is not closed
/// by fewer.
pub proof fn lemma_block_rest_deeper(x: Seq<char>, depth: nat, deeper: nat)
    requires
        block_rest(x, depth) is None,
        1 <= depth <= deeper,
    ensures
        block_rest(x, deeper) is None,
    decreases x.len(),
{
    if x.len() < 2 {
    } else if x[0] == ';' && x[1] == ')' {
        lemma_block_rest_deeper(x.skip(2), (depth - 1) as nat, (deeper - 1) as nat);
    } else if x[0] == '(' && x[1] == ';' {
        lemma_block_rest_deeper(x.skip(2), depth + 1, deeper + 1);
    } else {
        lemma_block_rest_deeper(x.skip(1), depth, deeper);
    }
}

/// Blank space at the head of the rest of a block comment only makes it
/// longer.
pub proof fn lemma_block_rest_blanks(w: Seq<char>, x: Seq<char>, depth: nat)
    requires
        blanks(w),
    ensures
        block_rest(w + x, depth) == further(w.len(), block_rest(x, depth)),
    decreases w.len(),
{
    if w.len() == 0 {
        assert(w + x =~= x);
    } else {
        let s = w + x;
        assert(s[0] == w[0]);
        assert(s.skip(1) =~= w.skip(1) + x);
        assert forall|i: int| 0 <= i < w.skip(1).len() implies space(#[trigger] w.skip(1)[i]) by {
            assert(w.skip(1)[i] == w[i + 1]);
        }
        lemma_block_rest_blanks(w.skip(1), x, depth);
    }
}

/// The last character of the rest of a block comment is `)`.
pub proof fn lemma_block_rest_last(x: Seq<char>, depth: nat)
    requires
        block_rest(x, depth) is Some,
    ensures
        x[block_rest(x, depth).unwrap() - 1] == ')',
    decreases x.len(),
{
    lemma_block_bound(x, depth);
    if x[0] == ';' && x[1] == ')' {
        if depth > 1 {
            lemma_block_bound(x.skip(2), (depth - 1) as nat);
            lemma_block_rest_last(x.skip(2), (depth - 1) as nat);
        }
    } else if x[0] == '(' && x[1] == ';' {
        lemma_block_bound(x.skip(2), depth + 1);
        lemma_block_rest_last(x.skip(2), depth + 1);
    } else {
        lemma_block_bound(x.skip(1), depth);
        lemma_block_rest_last(x.skip(1), depth);
    }
}

/// The last character of the body of a string literal is the quote.
pub proof fn lemma_string_body_last(x: Seq<char>)
    requires
        string_body(x) is Some,
    ensures
        x[string_body(x).unwrap().1 - 1] == '"',
    decreases x.len(),
{
    lemma_string_bound(x);
    if x[0] != '"' {
        let n = string_element(x).unwrap().1;
        lemma_string_bound(x.skip(n as int));
        lemma_string_body_last(x.skip(n as int));
    }
}

/// Whether blank space put before the character at `p` would part no `;)`
/// of `x`, and would part a `(;` only where no block comment starts with
/// it and no `)` follows it.
pub open spec fn cut_clear(x: Seq<char>, p: nat) -> bool {
    1 <= p < x.len() ==> {
        &&& !(x[p - 1] == ';' && x[p as int] == ')')
        &&& (x[p - 1] == '(' && x[p as int] == ';' ==> (p + 1 < x.len() ==> x[p as int + 1] != ')')
            && block_rest(x.skip(p as int + 1), 1) is None)
    }
}

/// [`cut_clear`] speaks of the characters around the cut alone.
pub proof fn lemma_cut_clear_skip(x: Seq<char>, p: nat, k: nat)
    requires
        k < p <= x.len(),
    ensures
        cut_clear(x.skip(k as int), (p - k) as nat) == cut_clear(x, p),
{
    let y = x.skip(k as int);
    if p < x.len() {
        assert(y.skip(p - k + 1) =~= x.skip(p as int + 1));
        assert(y[p - k] == x[p as int]);
        if p - k >= 1 {
            assert(y[p - k - 1] == x[p - 1]);
        }
        if p + 1 < x.len() {
            assert(y[p - k + 1] == x[p as int + 1]);
        }
    }
}

/// Blank space put into the rest of a block comment that is not closed
/// does not close it, where [`cut_clear`] holds of the place.
pub proof fn lemma_block_rest_insertion(x: Seq<char>, p: nat, w: Seq<char>, depth: nat)
    requires
        p <= x.len(),
        blanks(w),
        w.len() > 0,
        depth >= 1,
        cut_clear(x, p),
        block_rest(x, depth) is None,
    ensures
        block_rest(x.take(p as int) + w + x.skip(p as int), depth) is None,
    decreases x.len(),
{
    let x2 = x.take(p as int) + w + x.skip(p as int);
    if p == 0 {
        assert(x2 =~= w + x);
        lemma_block_rest_blanks(w, x, depth);
    } else if p == 1 {
        assert(x2[0] == x[0]);
        assert(x2[1] == w[0]);
        assert(x2.skip(1) =~= w + x.skip(1));
        lemma_block_rest_blanks(w, x.skip(1), depth);
        if x.len() >= 2 && x[0] == '(' && x[1] == ';' {
            let y = x.skip(1);
            assert(y[0] == ';');
            assert(y.skip(1) =~= x.skip(2));
            if y.len() >= 2 {
                assert(y[1] == x[2]);
            }
            lemma_block_rest_deeper(x.skip(2), 1, depth);
        }
    } else {
        assert(x2[0] == x[0]);
        assert(x2[1] == x[1]);
        if x[0] == ';' && x[1] == ')' {
            let y = x.skip(2);
            assert(x2.skip(2) =~= y.take(p - 2) + w + y.skip(p - 2));
            if p > 2 {
                lemma_cut_clear_skip(x, p, 2);
            }
            lemma_block_rest_insertion(y, (p - 2) as nat, w, (depth - 1) as nat);
        } else if x[0] == '(' && x[1] == ';' {
            let y = x.skip(2);
            assert(x2.skip(2) =~= y.take(p - 2) + w + y.skip(p - 2));
            if p > 2 {
                lemma_cut_clear_skip(x, p, 2);
            }
            lemma_block_rest_insertion(y, (p - 2) as nat, w, depth + 1);
        } else {
            let y = x.skip(1);
            assert(x2.skip(1) =~= y.take(p - 1) + w + y.skip(p - 1));
            lemma_cut_clear_skip(x, p, 1);
            lemma_block_rest_insertion(y, (p - 1) as nat, w, depth);
        }
    }
}

/// How a step ends before the end of the text: never with `;`, and with
/// `(` only as the parenthesis, where no block comment starts.
pub proof fn lemma_step_last(s: Seq<char>)
    requires
        step(s) is Some,
    ensures
        ({
            let n = step(s).unwrap().1;
            &&& 0 < n <= s.len()
            &&& n < s.len() ==> s[n - 1] != ';'
            &&& n < s.len() && s[n - 1] == '(' ==> n == 1 && block_comment(s) is None
        }),
{
    lemma_step_bound(s);
    let (emitted, n) = step(s).unwrap();
    if emitted.len() > 0 {
        if idchar(s[0]) {
            lemma_token_is_word(s);
            lemma_run(s, Class::IdChar);
            assert(idchar(s[n - 1]));
        } else {
            reveal(token_at);
            assert(run(s, Class::IdChar) == 0);
            if s[0] == '"' {
                lemma_string_bound(s.skip(1));
                lemma_string_body_last(s.skip(1));
                assert(s.skip(1)[n - 2] == s[n - 1]);
            } else if s[0] == '(' {
                if space_at(s) is Some {
                    lemma_space_start(s);
                } else {
                    reveal(space_at);
                }
            }
        }
    } else {
        lemma_space_start(s);
        if space(s[0]) {
            reveal(space_at);
            lemma_run(s, Class::Blank);
            assert(space(s[n - 1]));
        } else if s[0] == ';' {
            reveal(space_at);
            lemma_line(s.skip(2));
            if n < s.len() {
                assert(s.skip(2)[n - 3] == s[n - 1]);
            }
            if n == 2 {
                assert(s.skip(2).len() == 0);
            }
        } else {
            reveal(space_at);
            lemma_block_bound(s.skip(2), 1);
            lemma_block_rest_last(s.skip(2), 1);
            assert(s.skip(2)[n - 3] == s[n - 1]);
        }
    }
}

} // verus!
