//! Laws of the lexical grammar, proved from its definition: what holds of
//! every text, of every token and of every result of the tokenizer.

use vstd::prelude::*;
use super::chars::{Class, digit, idchar, space};
use super::grammar::{
    block_comment, close_paren, float, identifier, keyword, lemma_block_bound, lemma_line_bound,
    lemma_run_bound, lemma_scan_step, lemma_step_bound, line_len, number_tail, number_value,
    open_paren, pick, reserved, run, scan, signed, space_at, step, string, token_at, unsigned,
};
use super::lemmas::{
    blanks, cut_clear, goes_on_alike, lemma_block_rest_insertion, lemma_block_rest_prefix,
    lemma_cut_clear_skip, lemma_failure_bound, lemma_leading_blanks, lemma_line,
    lemma_line_concat, lemma_line_unique, lemma_no_token, lemma_paren_token, lemma_run,
    lemma_run_unique, lemma_same_prefix, lemma_space_start, lemma_step_cut, lemma_step_last,
    lemma_token_stable, lemma_word_cut,
};
use super::lexer::outcome;
use super::{Lexeme, lexemes, LexError, Token};

verus! {

/// The pieces into which a scan cuts a text, up to its end or to where
/// the scan stops: for each step the characters it consumed and the
/// lexemes it emitted.
pub open spec fn pieces(s: Seq<char>) -> Seq<(Seq<char>, Seq<Lexeme>)>
    decreases s.len(),
{
    if s.len() == 0 {
        Seq::empty()
    } else {
        match step(s) {
            Some((emitted, n)) => if 0 < n <= s.len() {
                seq![(s.take(n as int), emitted)] + pieces(s.skip(n as int))
            } else {
                Seq::empty()
            },
            None => Seq::empty(),
        }
    }
}

/// The characters of `pieces`, joined in order.
pub open spec fn joined_text(pieces: Seq<(Seq<char>, Seq<Lexeme>)>) -> Seq<char>
    decreases pieces.len(),
{
    if pieces.len() == 0 {
        Seq::empty()
    } else {
        pieces[0].0 + joined_text(pieces.skip(1))
    }
}

/// The lexemes of `pieces`, joined in order.
pub open spec fn joined_lexemes(pieces: Seq<(Seq<char>, Seq<Lexeme>)>) -> Seq<Lexeme>
    decreases pieces.len(),
{
    if pieces.len() == 0 {
        Seq::empty()
    } else {
        pieces[0].1 + joined_lexemes(pieces.skip(1))
    }
}

/// A scan cuts the text into pieces without gap or overlap.
///
/// The characters of the pieces, joined in order, are the text itself where
/// the text is scannable, and otherwise the text up to the offset of the
/// failure. The lexemes of the pieces, joined in order, are the tokens of
/// the text. And every piece is by itself exactly one step of the grammar:
/// the literal text of the one token it emitted, or one stretch of blank
/// space or one comment.
pub proof fn lemma_scan_decomposes(s: Seq<char>)
    ensures
        joined_text(pieces(s)) == (match scan(s) {
            Ok(_) => s,
            Err(offset) => s.take(offset as int),
        }),
        scan(s) matches Ok(lexemes) ==> joined_lexemes(pieces(s)) == lexemes,
        forall|i: int|
            0 <= i < pieces(s).len() ==> step((#[trigger] pieces(s)[i]).0) == Some(
                (pieces(s)[i].1, pieces(s)[i].0.len()),
            ),
    decreases s.len(),
{
    if s.len() == 0 {
        assert(s.take(0) =~= s);
    } else {
        lemma_scan_step(s);
        lemma_step_bound(s);
        match step(s) {
            Some((emitted, n)) => {
                let head = (s.take(n as int), emitted);
                let tail = pieces(s.skip(n as int));
                let all = pieces(s);
                lemma_scan_decomposes(s.skip(n as int));
                lemma_step_cut(s);
                assert(all.skip(1) =~= tail);
                assert(all[0] == head);
                match scan(s.skip(n as int)) {
                    Ok(_) => {
                        assert(s.take(n as int) + s.skip(n as int) =~= s);
                    },
                    Err(offset) => {
                        lemma_failure_bound(s.skip(n as int));
                        assert(s.take(n as int) + s.skip(n as int).take(offset as int) =~= s.take(
                            n as int + offset as int,
                        ));
                    },
                }
                assert forall|i: int| 0 <= i < all.len() implies step((#[trigger] all[i]).0)
                    == Some((all[i].1, all[i].0.len())) by {
                    if i > 0 {
                        assert(all[i] == tail[i - 1]);
                    }
                }
            },
            None => {
                assert(s.take(0) =~= Seq::<char>::empty());
            },
        }
    }
}

/// Whether a scan of `s` reaches the offset `p` between two steps: `p` is
/// where a token, a stretch of blank space or a comment ends, or the start
/// of the text.
pub open spec fn boundary(s: Seq<char>, p: nat) -> bool
    decreases s.len(),
{
    p == 0 || (s.len() > 0 && match step(s) {
        Some((_, n)) => 0 < n <= p && n <= s.len() && boundary(s.skip(n as int), (p - n) as nat),
        None => false,
    })
}

/// Around a place that a scannable text reaches between two steps, no
/// comment mark stands that blank space put there would part or join
/// ([`cut_clear`]).
pub proof fn lemma_boundary_cut(s: Seq<char>, p: nat)
    requires
        boundary(s, p),
        scan(s) is Ok,
    ensures
        p <= s.len(),
        cut_clear(s, p),
    decreases s.len(),
{
    if p > 0 {
        lemma_scan_step(s);
        lemma_step_bound(s);
        let n = step(s).unwrap().1;
        let rest = s.skip(n as int);
        lemma_boundary_cut(rest, (p - n) as nat);
        if n < p {
            lemma_cut_clear_skip(s, p, n);
        } else if p < s.len() {
            lemma_step_last(s);
            if s[p - 1] == '(' && s[p as int] == ';' {
                assert(rest[0] == ';');
                lemma_scan_step(rest);
                lemma_no_token(rest);
                assert(space_at(rest) is Some);
                lemma_space_start(rest);
                assert(rest.len() >= 2 && rest[1] == ';');
                assert(rest[1] == s[p as int + 1]);
                assert(s.skip(2) =~= s.skip(p as int + 1));
            }
        }
    }
}

/// The text `s` with the blank space `w` put before the character at `p`.
pub open spec fn spaced(s: Seq<char>, p: nat, w: Seq<char>) -> Seq<char> {
    s.take(p as int) + w + s.skip(p as int)
}

/// Blank space put behind a parenthesis at which no block comment starts
/// makes no block comment start there.
proof fn lemma_paren_stays(s: Seq<char>, p: nat, w: Seq<char>)
    requires
        boundary(s, p),
        scan(s) is Ok,
        blanks(w),
        w.len() > 0,
        p >= 1,
        s[0] == '(',
        block_comment(s) is None,
    ensures
        block_comment(spaced(s, p, w)) is None,
{
    let s2 = spaced(s, p, w);
    lemma_boundary_cut(s, p);
    assert(s2[0] == s[0]);
    if p == 1 {
        assert(s2[1] == w[0]);
    } else {
        assert(s2[1] == s[1]);
        if s[1] == ';' {
            let x = s.skip(2);
            if p > 2 {
                lemma_cut_clear_skip(s, p, 2);
            }
            lemma_block_rest_insertion(x, (p - 2) as nat, w, 1);
            assert(s2.skip(2) =~= x.take(p - 2) + w + x.skip(p - 2));
        }
    }
}

/// Blank space put behind a token leaves the step that emits it as it is.
proof fn lemma_token_step_stays(s: Seq<char>, p: nat, w: Seq<char>)
    requires
        boundary(s, p),
        scan(s) is Ok,
        blanks(w),
        w.len() > 0,
        p >= 1,
        step(s) matches Some((emitted, _)) && emitted.len() > 0,
    ensures
        step(spaced(s, p, w)) == step(s),
{
    let s2 = spaced(s, p, w);
    lemma_step_bound(s);
    lemma_boundary_cut(s, p);
    let n = step(s).unwrap().1;
    assert(s2.take(n as int) =~= s.take(n as int));
    assert(goes_on_alike(s, s2, n)) by {
        if n == p {
            assert(s2[n as int] == w[0]);
        } else {
            assert(s2[n as int] == s[n as int]);
        }
    }
    lemma_same_prefix(s, s2, n);
    lemma_token_stable(s, s2);
    if space_at(s2) is Some {
        lemma_space_start(s2);
        if s[0] == '(' {
            lemma_paren_token(s);
            if space_at(s) is Some {
                lemma_space_start(s);
            }
            assert(block_comment(s) is None) by {
                reveal(space_at);
            }
            lemma_paren_stays(s, p, w);
        } else {
            lemma_no_token(s2);
        }
    }
}

/// Blank space put behind a comment or behind blank space leaves the step
/// that skips it as it is, or makes it longer and leaves the tokens as they
/// are.
proof fn lemma_space_step_stays(s: Seq<char>, p: nat, w: Seq<char>)
    requires
        boundary(s, p),
        scan(s) is Ok,
        blanks(w),
        w.len() > 0,
        p >= 1,
        step(s) matches Some((emitted, _)) && emitted.len() == 0,
    ensures
        step(spaced(s, p, w)) == step(s) || scan(spaced(s, p, w)) == scan(s),
{
    let s2 = spaced(s, p, w);
    lemma_step_bound(s);
    lemma_boundary_cut(s, p);
    lemma_scan_step(s);
    let n = step(s).unwrap().1;
    let a = s.take(p as int);
    let b = s.skip(p as int);
    assert(a + b =~= s);
    assert(s2.take(n as int) =~= s.take(n as int));
    lemma_same_prefix(s, s2, n);
    lemma_space_start(s);
    if space(s[0]) {
        lemma_run(s, Class::Blank);
        lemma_no_token(s2);
        if n < p {
            assert(s2[n as int] == s[n as int]);
            lemma_run_unique(s2, Class::Blank, n);
            assert(space_at(s2) == space_at(s)) by {
                reveal(space_at);
            }
        } else {
            assert(n == p) by {
                reveal(space_at);
            }
            assert forall|i: int| 0 <= i < a.len() implies space(#[trigger] a[i]) by {
                assert(a[i] == s[i]);
            }
            assert(blanks(a + w)) by {
                assert forall|i: int| 0 <= i < (a + w).len() implies space(
                    #[trigger] (a + w)[i],
                ) by {
                    if i < a.len() {
                        assert((a + w)[i] == a[i]);
                    } else {
                        assert((a + w)[i] == w[i - a.len()]);
                    }
                }
            }
            lemma_leading_blanks(a, b);
            lemma_leading_blanks(a + w, b);
        }
    } else if s[0] == ';' {
        let x = s.skip(2);
        let len = line_len(x);
        lemma_line(x);
        lemma_no_token(s2);
        assert(n == 2 + len) by {
            reveal(space_at);
        }
        if len >= 1 && x[len - 1] == '\n' {
            let x2 = s2.skip(2);
            assert forall|i: int| 0 <= i < len implies #[trigger] x2[i] == x[i] by {
                assert(x2[i] == s2[i + 2]);
                assert(x[i] == s[i + 2]);
            }
            lemma_line_unique(x2, len);
            assert(space_at(s2) == space_at(s)) by {
                reveal(space_at);
            }
        } else {
            assert(b.len() == 0);
            assert(s2.skip(2) =~= x + w);
            lemma_line_concat(x, w);
            lemma_line_bound(w);
            let rest = w.skip(line_len(w) as int);
            let n2 = 2 + len + line_len(w);
            assert(space_at(s2) == Some(n2)) by {
                reveal(space_at);
            }
            lemma_scan_step(s2);
            assert(s2.skip(n2 as int) =~= rest + Seq::<char>::empty());
            lemma_leading_blanks(rest, Seq::empty());
            assert(s.skip(n as int) =~= Seq::<char>::empty());
        }
    } else {
        lemma_block_bound(s.skip(2), 1);
        lemma_paren_token(s2);
        assert(s2.skip(2).take(n - 2) == s.skip(2).take(n - 2));
        lemma_block_rest_prefix(s.skip(2), s2.skip(2), 1);
        assert(space_at(s2) == space_at(s)) by {
            reveal(space_at);
        }
        lemma_paren_token(s);
    }
}

/// Blank space put between two steps of a scan leaves the tokens as they
/// are.
///
/// Where the scan of `a + b` succeeds and reaches the end of `a` between
/// two steps, and `w` is blank space, the scan of `a + w + b` gives the
/// same tokens.
pub proof fn lemma_blank_insertion(a: Seq<char>, w: Seq<char>, b: Seq<char>)
    requires
        boundary(a + b, a.len()),
        blanks(w),
        scan(a + b) is Ok,
    ensures
        scan(a + w + b) == scan(a + b),
    decreases a.len(),
{
    let s = a + b;
    let s2 = a + w + b;
    let p = a.len();
    if w.len() == 0 {
        assert(s2 =~= s);
    } else if p == 0 {
        assert(s =~= b);
        assert(s2 =~= w + b);
        lemma_leading_blanks(w, b);
    } else {
        assert(spaced(s, p, w) =~= s2);
        lemma_step_bound(s);
        lemma_scan_step(s);
        let (emitted, n) = step(s).unwrap();
        if emitted.len() > 0 {
            lemma_token_step_stays(s, p, w);
        } else {
            lemma_space_step_stays(s, p, w);
        }
        if step(s2) == step(s) {
            let a1 = a.skip(n as int);
            assert(s.skip(n as int) =~= a1 + b);
            assert(s2.skip(n as int) =~= a1 + w + b);
            lemma_scan_step(s2);
            lemma_blank_insertion(a1, w, b);
        }
    }
}

/// The scan of a text from a boundary on decides how the scan of the
/// whole text ends: it fails where the rest fails, that many places on.
pub proof fn lemma_scan_past_boundary(s: Seq<char>, p: nat)
    requires
        boundary(s, p),
    ensures
        p <= s.len(),
        scan(s) is Ok <==> scan(s.skip(p as int)) is Ok,
        scan(s.skip(p as int)) matches Err(offset) ==> scan(s) == Err::<Seq<Lexeme>, nat>(
            p + offset,
        ),
    decreases s.len(),
{
    if p == 0 {
        assert(s.skip(0) =~= s);
    } else {
        lemma_scan_step(s);
        let n = step(s).unwrap().1;
        lemma_scan_past_boundary(s.skip(n as int), (p - n) as nat);
        assert(s.skip(n as int).skip(p - n) =~= s.skip(p as int));
    }
}

/// A scan fails at the first place that it reaches between two steps and
/// at which no production matches, and nowhere else.
pub proof fn lemma_failure_offset(s: Seq<char>, offset: nat)
    ensures
        scan(s) == Err::<Seq<Lexeme>, nat>(offset) <==> offset < s.len() && boundary(s, offset)
            && step(s.skip(offset as int)) is None,
    decreases s.len(),
{
    if boundary(s, offset) {
        lemma_scan_past_boundary(s, offset);
        if offset < s.len() {
            lemma_scan_step(s.skip(offset as int));
            lemma_failure_bound(s.skip(offset as int));
            lemma_step_bound(s.skip(offset as int));
        }
    }
    if scan(s) == Err::<Seq<Lexeme>, nat>(offset) {
        lemma_scan_step(s);
        lemma_step_bound(s);
        match step(s) {
            Some((_, n)) => {
                lemma_failure_bound(s.skip(n as int));
                let later = scan(s.skip(n as int))->Err_0;
                lemma_failure_offset(s.skip(n as int), later);
                assert(s.skip(n as int).skip(later as int) =~= s.skip(offset as int));
            },
            None => {
                assert(s.skip(0) =~= s);
            },
        }
    }
}

/// Whether no production starts with `c`: it is no identifier character,
/// no blank space, no parenthesis, no quote and no `;`.
pub open spec fn illegal(c: char) -> bool {
    !idchar(c) && !space(c) && c != '(' && c != ')' && c != '"' && c != ';'
}

/// An illegal character that a scan reaches between two steps stops it,
/// and the failure carries the offset of that character.
pub proof fn lemma_illegal_character(s: Seq<char>, offset: nat)
    requires
        offset < s.len(),
        boundary(s, offset),
        illegal(s[offset as int]),
    ensures
        scan(s) == Err::<Seq<Lexeme>, nat>(offset),
{
    let rest = s.skip(offset as int);
    assert(rest[0] == s[offset as int]);
    assert(step(rest) is None) by {
        reveal(token_at);
        reveal(space_at);
    }
    lemma_failure_offset(s, offset);
}

/// A token that starts with an identifier character is the whole word at
/// the head of the text, and the text behind the word has no part in it.
pub proof fn lemma_token_is_word(s: Seq<char>)
    requires
        s.len() > 0,
        idchar(s[0]),
    ensures
        token_at(s) matches Some((_, n)) && n == run(s, Class::IdChar),
        token_at(s.take(run(s, Class::IdChar) as int)) == token_at(s),
{
    reveal(token_at);
    let r = run(s, Class::IdChar);
    lemma_run_bound(s, Class::IdChar);
    lemma_word_cut(s, r);
    assert(s.take(r as int)[0] == s[0]);
}

/// The productions for tokens in their order of precedence.
pub open spec fn productions(s: Seq<char>) -> Seq<Option<(Lexeme, nat)>> {
    seq![
        unsigned(s),
        signed(s),
        float(s),
        keyword(s),
        identifier(s),
        reserved(s),
        string(s),
        open_paren(s),
        close_paren(s),
    ]
}

/// The longest of `candidates`, and among the longest the first.
pub open spec fn best(candidates: Seq<Option<(Lexeme, nat)>>) -> Option<(Lexeme, nat)>
    decreases candidates.len(),
{
    if candidates.len() == 0 {
        None
    } else {
        pick(best(candidates.drop_last()), candidates.last())
    }
}

/// What [`best`] picks: one of the candidates such that none is longer and
/// all before it are shorter.
pub proof fn lemma_best(candidates: Seq<Option<(Lexeme, nat)>>)
    ensures
        best(candidates) is None <==> forall|i: int|
            0 <= i < candidates.len() ==> #[trigger] candidates[i] is None,
        best(candidates) matches Some((_, n)) ==> exists|i: int|
            0 <= i < candidates.len() && #[trigger] candidates[i] == best(candidates) && (forall|
                j: int,
            |
                0 <= j < candidates.len() ==> ((#[trigger] candidates[j]) matches Some((_, m))
                    ==> m <= n && (j < i ==> m < n))),
    decreases candidates.len(),
{
    if candidates.len() > 0 {
        let front = candidates.drop_last();
        let last = candidates.len() - 1;
        lemma_best(front);
        assert forall|i: int| 0 <= i < front.len() implies front[i] == candidates[i] by {}
        if let Some((_, n)) = best(candidates) {
            if best(candidates) == best(front) {
                let i = choose|i: int|
                    0 <= i < front.len() && #[trigger] front[i] == best(front) && (forall|j: int|
                        0 <= j < front.len() ==> ((#[trigger] front[j]) matches Some((_, m)) ==> m
                            <= n && (j < i ==> m < n)));
                assert(candidates[i] == best(candidates));
                assert forall|j: int| 0 <= j < candidates.len() implies ((
                #[trigger] candidates[j]) matches Some((_, m)) ==> m <= n && (j < i ==> m < n)) by {
                    if j < last {
                        assert(front[j] == candidates[j]);
                    }
                }
            } else {
                assert(candidates[last] == best(candidates));
                assert forall|j: int| 0 <= j < candidates.len() implies ((
                #[trigger] candidates[j]) matches Some((_, m)) ==> m <= n && (j < last ==> m
                    < n)) by {
                    if j < last {
                        assert(front[j] == candidates[j]);
                    }
                }
            }
        } else {
            assert forall|i: int| 0 <= i < candidates.len() implies #[trigger] candidates[i]
                is None by {
                if i < last {
                    assert(front[i] == candidates[i]);
                }
            }
        }
    }
}

/// The best of the first `k` candidates is the pick between the best of
/// the first `k - 1` and the one that follows them.
proof fn lemma_best_take(candidates: Seq<Option<(Lexeme, nat)>>, k: nat)
    requires
        0 < k <= candidates.len(),
    ensures
        best(candidates.take(k as int)) == pick(
            best(candidates.take(k - 1)),
            candidates[k - 1],
        ),
{
    assert(candidates.take(k as int).drop_last() =~= candidates.take(k - 1));
}

/// The token at the head of a text is the longest match, and on a tie the
/// match of the production that comes first: it is what one of the
/// productions matched; no production matched more characters, and every
/// production before that one in the order of precedence matched fewer.
pub proof fn lemma_longest_match(s: Seq<char>)
    ensures
        token_at(s) == best(productions(s)),
        token_at(s) is None <==> forall|i: int|
            0 <= i < productions(s).len() ==> #[trigger] productions(s)[i] is None,
        token_at(s) matches Some((_, n)) ==> exists|i: int|
            0 <= i < productions(s).len() && #[trigger] productions(s)[i] == token_at(s) && (forall|
                j: int,
            |
                0 <= j < productions(s).len() ==> ((#[trigger] productions(s)[j]) matches Some(
                    (_, m),
                ) ==> m <= n && (j < i ==> m < n))),
{
    let ps = productions(s);
    assert(token_at(s) == best(ps)) by {
        reveal(token_at);
        assert(best(ps.take(0)) is None);
        lemma_best_take(ps, 1);
        lemma_best_take(ps, 2);
        lemma_best_take(ps, 3);
        lemma_best_take(ps, 4);
        lemma_best_take(ps, 5);
        lemma_best_take(ps, 6);
        lemma_best_take(ps, 7);
        lemma_best_take(ps, 8);
        lemma_best_take(ps, 9);
        assert(ps.take(9) =~= ps);
    }
    lemma_best(ps);
}

/// The decimal digit that stands for `d`, which is less than ten.
pub open spec fn digit_char(d: nat) -> char {
    ('0' as nat + d) as char
}

/// The decimal numeral of `value`, without leading zeros.
pub open spec fn decimal_digits(value: nat) -> Seq<char>
    decreases value,
{
    if value < 10 {
        seq![digit_char(value)]
    } else {
        decimal_digits(value / 10).push(digit_char(value % 10))
    }
}

/// Whether `s` is made of decimal digits and holds at least one.
pub open spec fn digits(s: Seq<char>) -> bool {
    s.len() > 0 && forall|i: int| 0 <= i < s.len() ==> digit(#[trigger] s[i])
}

/// A text of digits is one number.
pub proof fn lemma_digits_are_a_number(s: Seq<char>)
    requires
        forall|i: int| 0 <= i < s.len() ==> digit(#[trigger] s[i]),
    ensures
        number_tail(s, false) == s.len(),
        run(s, Class::IdChar) == s.len(),
    decreases s.len(),
{
    if s.len() > 0 {
        let t = s.skip(1);
        assert forall|i: int| 0 <= i < t.len() implies digit(#[trigger] t[i]) by {
            assert(t[i] == s[i + 1]);
        }
        lemma_digits_are_a_number(t);
        assert(digit(s[0]));
    }
}

/// A text of digits whose value fits 32 bits is that value as one
/// unsigned integer.
pub proof fn lemma_digits_scan(s: Seq<char>)
    requires
        digits(s),
        number_value(s, 10) <= u32::MAX,
    ensures
        scan(s) == Ok::<Seq<Lexeme>, nat>(seq![Lexeme::UnsignedInt(number_value(s, 10) as u32)]),
{
    lemma_digits_are_a_number(s);
    assert(digit(s[0]));
    assert(s.take(s.len() as int) =~= s);
    if s.len() > 1 {
        assert(digit(s[1]));
    }
    let lexeme = Lexeme::UnsignedInt(number_value(s, 10) as u32);
    assert(token_at(s) == Some((lexeme, s.len()))) by {
        reveal(token_at);
    }
    lemma_scan_step(s);
    assert(s.skip(s.len() as int) =~= Seq::<char>::empty());
    assert(seq![lexeme] + Seq::<Lexeme>::empty() =~= seq![lexeme]);
}

/// A text of digits whose value does not fit 32 bits is no integer and no
/// floating-point literal: it is a reserved word.
pub proof fn lemma_overflow_is_reserved(s: Seq<char>)
    requires
        digits(s),
        number_value(s, 10) > u32::MAX,
    ensures
        token_at(s) == Some((Lexeme::Reserved(s), s.len())),
        scan(s) == Ok::<Seq<Lexeme>, nat>(seq![Lexeme::Reserved(s)]),
{
    lemma_digits_are_a_number(s);
    assert(digit(s[0]));
    assert(s.take(s.len() as int) =~= s);
    assert(s.skip(s.len() as int) =~= Seq::<char>::empty());
    if s.len() > 1 {
        assert(digit(s[1]));
    }
    let lexeme = Lexeme::Reserved(s);
    assert(token_at(s) == Some((lexeme, s.len()))) by {
        reveal(token_at);
    }
    assert(space_at(s) is None) by {
        reveal(space_at);
    }
    lemma_scan_step(s);
    assert(seq![lexeme] + Seq::<Lexeme>::empty() =~= seq![lexeme]);
}

/// Where a token starts: at an identifier character, at a parenthesis, and
/// at the quote of a string literal that is well formed and closed.
pub proof fn lemma_token_start(s: Seq<char>)
    ensures
        token_at(s) is Some <==> s.len() > 0 && (idchar(s[0]) || s[0] == '(' || s[0] == ')'
            || string(s) is Some),
{
    if s.len() > 0 && idchar(s[0]) {
        lemma_token_is_word(s);
    } else {
        reveal(token_at);
        assert(run(s, Class::IdChar) == 0);
    }
}

/// The decimal numeral of a value is made of digits and has that value.
pub proof fn lemma_decimal_digits(value: nat)
    ensures
        digits(decimal_digits(value)),
        number_value(decimal_digits(value), 10) == value,
    decreases value,
{
    let s = decimal_digits(value);
    if value < 10 {
        assert(s.drop_last() =~= Seq::<char>::empty());
        assert(s.last() == digit_char(value));
        assert(number_value(s.drop_last(), 10) == 0);
    } else {
        let front = decimal_digits(value / 10);
        lemma_decimal_digits(value / 10);
        assert(s.drop_last() =~= front);
        assert(s.last() == digit_char(value % 10));
        assert forall|i: int| 0 <= i < s.len() implies digit(#[trigger] s[i]) by {
            if i < front.len() {
                assert(s[i] == front[i]);
            }
        }
    }
}

/// A text of decimal digits whose value fits 32 bits scans to that value,
/// and so does the decimal numeral of the value, whatever leading zeros the
/// text had.
pub proof fn lemma_decimal_round_trip(s: Seq<char>)
    requires
        digits(s),
        number_value(s, 10) <= u32::MAX,
    ensures
        scan(s) == Ok::<Seq<Lexeme>, nat>(seq![Lexeme::UnsignedInt(number_value(s, 10) as u32)]),
        scan(decimal_digits(number_value(s, 10))) == scan(s),
{
    lemma_digits_scan(s);
    lemma_decimal_digits(number_value(s, 10));
    lemma_digits_scan(decimal_digits(number_value(s, 10)));
}

/// What the tokenizer returns is a function of the text.
///
/// Two results that each meet the contract of [`lex`](super::lexer::lex) for
/// the same text hold the same tokens, or the same offset of failure.
pub proof fn lemma_deterministic(
    input: Seq<char>,
    first: Result<Vec<Token>, LexError>,
    second: Result<Vec<Token>, LexError>,
)
    requires
        outcome(first) == scan(input),
        outcome(second) == scan(input),
    ensures
        outcome(first) == outcome(second),
        first is Ok <==> second is Ok,
        first matches Ok(tokens) ==> second matches Ok(others) && lexemes(tokens@) == lexemes(
            others@,
        ),
        first matches Err(error) ==> second == Err::<Vec<Token>, LexError>(error),
{
}

} // verus!
