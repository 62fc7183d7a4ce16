//! Laws of the tokenizer, proved once and for all inputs: what it does on
//! identifier-and-whitespace input, on a base prefix with no digits, on a
//! lone minus or slash, and how comments carry their text.
//!
//! The rollback law of the scanner itself — a scan that finds no match
//! leaves the input exactly as it was — is part of `Scanner::scan`'s own
//! contract, restated over the model by
//! `crate::scanner::lemma_scan_result_progress`.

use vstd::prelude::*;

use crate::scanner::lemma_prefix_len_while;
use crate::scanner::lemma_prefix_len_while_is;
use crate::scanner::prefix_len_while;
use crate::scanner::scan_model;
use crate::scanner::scan_result;
use crate::scanner::ScanError;
use crate::scanner::ScannerAction;
use crate::token::all_base_digits;
use crate::token::block_body;
use crate::token::comment_model;
use crate::token::digit_val;
use crate::token::ident_pred;
use crate::token::is_base_digit;
use crate::token::is_digit_char;
use crate::token::is_ident_char;
use crate::token::is_ident_start;
use crate::token::is_ws_char;
use crate::token::next_token_model;
use crate::token::number_matcher;
use crate::token::tokenize_model;
use crate::token::tokenize_model_from;
use crate::token::Token;
use crate::token::TokenError;
use crate::token::TokView;
use crate::token::ws_pred;

verus! {

// ------------------------------------------------------------------
// Identifier round trip
// ------------------------------------------------------------------
/// Every character is whitespace or an identifier character, and never
/// both.
pub open spec fn ident_ws_input(s: Seq<char>) -> bool {
    forall|j: int| 0 <= j < s.len() ==> (is_ws_char(s[j]) <==> !is_ident_char(s[j]))
}

/// Every maximal run of identifier characters opens with a character that
/// may start an identifier (a letter or an underscore, not a digit).
pub open spec fn runs_start_like_idents(s: Seq<char>) -> bool {
    forall|j: int|
        0 <= j < s.len() && is_ident_char(s[j]) && (j == 0 || is_ws_char(s[j - 1]))
            ==> is_ident_start(s[j])
}

/// The whitespace-delimited runs of identifier characters in `s`, in order.
///
/// The clamps never take effect on input this is applied to (see
/// `lemma_prefix_len_while`); they only make termination of the definition
/// evident.
pub open spec fn ident_runs(s: Seq<char>) -> Seq<Seq<char>>
    decreases s.len(),
{
    let k0 = prefix_len_while(s, ws_pred());
    let k = if k0 < 0 {
        0int
    } else if k0 > s.len() {
        s.len() as int
    } else {
        k0
    };
    let t = s.skip(k);
    if t.len() <= 0 {
        Seq::empty()
    } else {
        let r0 = prefix_len_while(t, ident_pred());
        let r = if r0 < 1 {
            1int
        } else if r0 > t.len() {
            t.len() as int
        } else {
            r0
        };
        seq![t.take(r)] + ident_runs(t.skip(r))
    }
}

/// Law: on input of only whitespace and identifier characters, where each
/// run starts like an identifier, tokenizing yields exactly the
/// whitespace-delimited runs, as identifiers, in order, each with its exact
/// characters.
pub proof fn lemma_ident_ws_from(total: int, s: Seq<char>)
    requires
        ident_ws_input(s),
        runs_start_like_idents(s),
    ensures
        tokenize_model_from(total, s) == Ok::<Seq<TokView>, TokenError>(
            ident_runs(s).map_values(|run: Seq<char>| TokView::Ident(run)),
        ),
    decreases s.len(),
{
    lemma_prefix_len_while(s, ws_pred());
    let k = prefix_len_while(s, ws_pred());
    let t = s.skip(k);
    if t.len() == 0 {
        assert(ident_runs(s).map_values(|run: Seq<char>| TokView::Ident(run))
            =~= Seq::<TokView>::empty());
    } else {
        assert(!is_ws_char(t[0]));
        assert(is_ident_char(t[0]));
        assert(is_ident_start(t[0])) by {
            if k == 0 {
                assert(t[0] == s[0]);
            } else {
                assert(is_ws_char(s[k - 1]));
                assert(t[0] == s[k]);
            }
        }
        lemma_prefix_len_while(t, ident_pred());
        let r = prefix_len_while(t, ident_pred());
        assert(r >= 1) by {
            if r == 0 {
                assert(!is_ident_char(t[0]));
            }
        }
        assert(next_token_model(t) == Ok::<(TokView, int), ScanError>(
            (TokView::Ident(t.take(r)), r),
        ));
        let t2 = t.skip(r);
        assert(ident_ws_input(t2)) by {
            assert forall|j: int| 0 <= j < t2.len() implies (is_ws_char(t2[j]) <==> !is_ident_char(
                t2[j],
            )) by {
                assert(t2[j] == s[k + r + j]);
            }
        }
        assert(runs_start_like_idents(t2)) by {
            assert forall|j: int|
                0 <= j < t2.len() && is_ident_char(t2[j]) && (j == 0 || is_ws_char(
                    t2[j - 1],
                )) implies is_ident_start(t2[j]) by {
                if j == 0 {
                    assert(t2[0] == t[r]);
                    if r < t.len() {
                        assert(!is_ident_char(t[r]));
                    }
                    assert(false);
                } else {
                    assert(t2[j] == s[k + r + j]);
                    assert(t2[j - 1] == s[k + r + j - 1]);
                }
            }
        }
        lemma_ident_ws_from(total, t2);
        let tail = ident_runs(t2).map_values(|run: Seq<char>| TokView::Ident(run));
        assert(tokenize_model_from(total, t2) == Ok::<Seq<TokView>, TokenError>(tail));
        assert(ident_runs(s) == seq![t.take(r)] + ident_runs(t2));
        assert(ident_runs(s).map_values(|run: Seq<char>| TokView::Ident(run)) =~= seq![
            TokView::Ident(t.take(r)),
        ] + tail);
    }
}

/// A well-formed identifier: non-empty, opening like an identifier, made
/// of identifier characters only, none of them whitespace.
pub open spec fn wf_ident(run: Seq<char>) -> bool {
    run.len() > 0 && is_ident_start(run[0]) && (forall|j: int|
        0 <= j < run.len() ==> is_ident_char(#[trigger] run[j]) && !is_ws_char(run[j]))
}

/// A sequence of well-formed identifiers.
pub open spec fn wf_idents(runs: Seq<Seq<char>>) -> bool {
    forall|i: int| 0 <= i < runs.len() ==> wf_ident(#[trigger] runs[i])
}

/// The runs joined into one text with single spaces between them.
pub open spec fn join_runs(runs: Seq<Seq<char>>) -> Seq<char>
    decreases runs.len(),
{
    if runs.len() == 0 {
        Seq::empty()
    } else if runs.len() == 1 {
        runs[0]
    } else {
        runs[0] + seq![' '] + join_runs(runs.skip(1))
    }
}

/// Joined well-formed identifiers are made of whitespace and identifier
/// characters only, with every run opening like an identifier.
pub proof fn lemma_join_runs_shape(runs: Seq<Seq<char>>)
    requires
        wf_idents(runs),
    ensures
        ident_ws_input(join_runs(runs)),
        runs_start_like_idents(join_runs(runs)),
        runs.len() > 0 ==> join_runs(runs).len() > 0 && join_runs(runs)[0] == runs[0][0],
    decreases runs.len(),
{
    let u = join_runs(runs);
    if runs.len() == 0 {
    } else if runs.len() == 1 {
        assert(wf_ident(runs[0]));
        assert forall|j: int|
            0 <= j < u.len() && is_ident_char(u[j]) && (j == 0 || is_ws_char(
                u[j - 1],
            )) implies is_ident_start(u[j]) by {
            if j > 0 {
                assert(!is_ws_char(u[j - 1]));
            }
        }
    } else {
        let a = runs[0];
        let w = join_runs(runs.skip(1));
        assert(wf_ident(a));
        assert(wf_idents(runs.skip(1))) by {
            assert forall|i: int| 0 <= i < runs.skip(1).len() implies wf_ident(
                #[trigger] runs.skip(1)[i],
            ) by {
                assert(runs.skip(1)[i] == runs[i + 1]);
            }
        }
        lemma_join_runs_shape(runs.skip(1));
        assert(u == a + seq![' '] + w);
        assert(u.len() == a.len() + 1 + w.len());
        assert(w.len() > 0 && w[0] == runs.skip(1)[0][0]);
        assert(is_ident_start(w[0])) by {
            assert(wf_ident(runs.skip(1)[0]));
        }
        assert(is_ws_char(' ') && !is_ident_char(' '));
        assert forall|j: int| 0 <= j < u.len() implies (is_ws_char(u[j]) <==> !is_ident_char(
            u[j],
        )) by {
            if j < a.len() {
                assert(u[j] == a[j]);
            } else if j == a.len() {
                assert(u[j] == ' ');
            } else {
                assert(u[j] == w[j - a.len() - 1]);
            }
        }
        assert forall|j: int|
            0 <= j < u.len() && is_ident_char(u[j]) && (j == 0 || is_ws_char(
                u[j - 1],
            )) implies is_ident_start(u[j]) by {
            if j < a.len() {
                if j > 0 {
                    assert(u[j - 1] == a[j - 1]);
                    assert(!is_ws_char(u[j - 1]));
                }
            } else if j == a.len() {
                assert(u[j] == ' ');
            } else {
                let l = j - a.len() - 1;
                assert(u[j] == w[l]);
                if l == 0 {
                    assert(is_ident_start(w[0]));
                } else {
                    assert(u[j - 1] == w[l - 1]);
                }
            }
        }
    }
}

/// A leading space does not change the runs of a text.
pub proof fn lemma_ident_runs_after_space(s: Seq<char>)
    ensures
        ident_runs(seq![' '] + s) == ident_runs(s),
{
    let u = seq![' '] + s;
    assert(is_ws_char(' '));
    assert(u.skip(1) =~= s);
    assert(prefix_len_while(u, ws_pred()) == 1 + prefix_len_while(s, ws_pred()));
    lemma_prefix_len_while(s, ws_pred());
    let kp = prefix_len_while(s, ws_pred());
    assert(u.skip(1 + kp) =~= s.skip(kp));
}

/// The runs of joined well-formed identifiers are exactly those
/// identifiers.
pub proof fn lemma_ident_runs_of_join(runs: Seq<Seq<char>>)
    requires
        wf_idents(runs),
    ensures
        ident_runs(join_runs(runs)) == runs,
    decreases runs.len(),
{
    let u = join_runs(runs);
    if runs.len() == 0 {
        assert(ident_runs(u) =~= runs);
    } else {
        let a = runs[0];
        assert(wf_ident(a));
        assert(!is_ws_char(u[0])) by {
            assert(u[0] == a[0]);
        }
        assert(prefix_len_while(u, ws_pred()) == 0);
        assert(u.skip(0) =~= u);
        let rest = if runs.len() == 1 {
            Seq::<char>::empty()
        } else {
            seq![' '] + join_runs(runs.skip(1))
        };
        assert(u =~= a + rest);
        assert forall|j: int| 0 <= j < a.len() implies is_ident_char(#[trigger] u[j]) by {
            assert(u[j] == a[j]);
        }
        if runs.len() > 1 {
            assert(u[a.len() as int] == ' ');
            assert(!is_ident_char(u[a.len() as int]));
        }
        lemma_prefix_len_while_is(u, ident_pred(), a.len() as int);
        assert(u.take(a.len() as int) =~= a);
        assert(u.skip(a.len() as int) =~= rest);
        if runs.len() == 1 {
            assert(ident_runs(rest) =~= Seq::<Seq<char>>::empty());
            assert(ident_runs(u) == seq![a] + ident_runs(rest));
            assert(seq![a] + Seq::<Seq<char>>::empty() =~= runs);
        } else {
            assert(wf_idents(runs.skip(1))) by {
                assert forall|i: int| 0 <= i < runs.skip(1).len() implies wf_ident(
                    #[trigger] runs.skip(1)[i],
                ) by {
                    assert(runs.skip(1)[i] == runs[i + 1]);
                }
            }
            lemma_ident_runs_of_join(runs.skip(1));
            lemma_ident_runs_after_space(join_runs(runs.skip(1)));
            assert(ident_runs(rest) == runs.skip(1));
            assert(ident_runs(u) == seq![a] + ident_runs(rest));
            assert(seq![a] + runs.skip(1) =~= runs);
        }
    }
}

/// Law: re-tokenizing the extracted identifiers, re-joined with single
/// spaces, yields the same identifier sequence — tokenization of
/// identifier-and-whitespace input is idempotent in this sense.
pub proof fn lemma_rejoined_idents_retokenize(runs: Seq<Seq<char>>)
    requires
        wf_idents(runs),
    ensures
        tokenize_model(join_runs(runs)) == Ok::<Seq<TokView>, TokenError>(
            runs.map_values(|run: Seq<char>| TokView::Ident(run)),
        ),
{
    lemma_join_runs_shape(runs);
    lemma_ident_ws_round_trip(join_runs(runs));
    lemma_ident_runs_of_join(runs);
}

/// Law: the identifier round trip, at the whole-input level.
pub proof fn lemma_ident_ws_round_trip(s: Seq<char>)
    requires
        ident_ws_input(s),
        runs_start_like_idents(s),
    ensures
        tokenize_model(s) == Ok::<Seq<TokView>, TokenError>(
            ident_runs(s).map_values(|run: Seq<char>| TokView::Ident(run)),
        ),
{
    lemma_ident_ws_from(s.len() as int, s);
}

// ------------------------------------------------------------------
// Base prefixes without digits
// ------------------------------------------------------------------
/// Law: `0x`, `0o` or `0b` followed by no valid digit of its base fails —
/// with the unmet extension obligation reported as the end of input or as
/// the offending character — and never yields a number.
pub proof fn lemma_bare_base_prefix_fails(s: Seq<char>, marker: char, base: int)
    requires
        s.len() >= 2,
        s[0] == '0',
        s[1] == marker,
        (marker == 'x' && base == 16) || (marker == 'o' && base == 8) || (marker == 'b' && base
            == 2),
        s.len() == 2 || !is_base_digit(s[2], base),
    ensures
        tokenize_model(s) == Err::<Seq<TokView>, TokenError>(
            TokenError {
                kind: if s.len() == 2 {
                    ScanError::UnexpectedEnd
                } else {
                    ScanError::UnexpectedToken
                },
                pos: 0,
            },
        ),
{
    let m = number_matcher();
    assert(!is_ws_char('0'));
    assert(prefix_len_while(s, ws_pred()) == 0);
    assert(s.skip(0) =~= s);
    assert(s.take(1).len() == 1 && s.take(1)[0] == '0');
    assert(m(s.take(1)) == Some(ScannerAction::Request(Token::Number(0))));
    assert(s.take(2).len() == 2 && s.take(2)[0] == '0' && s.take(2)[1] == marker);
    assert(m(s.take(2)) == Some(ScannerAction::<Token>::Require));
    assert(scan_result(m, s) == scan_model(m, s, 1, Some(Token::Number(0)), false));
    assert(scan_result(m, s) == scan_model(m, s, 2, Some(Token::Number(0)), true));
    if s.len() == 2 {
        assert(scan_result(m, s) == (2int, Err::<Option<Token>, ScanError>(
            ScanError::UnexpectedEnd,
        )));
    } else {
        let p = s.take(3);
        assert(p.len() == 3 && p[0] == '0' && p[1] == marker && p[2] == s[2]);
        assert(p.skip(2).len() == 1 && p.skip(2)[0] == s[2]);
        assert(!all_base_digits(p.skip(2), base));
        assert(digit_val(marker) >= 10);
        assert(!all_base_digits(p, 10)) by {
            assert(!is_base_digit(p[1], 10));
        }
        assert(m(p) is None);
        assert(scan_result(m, s) == (2int, Err::<Option<Token>, ScanError>(
            ScanError::UnexpectedToken,
        )));
    }
    assert(!is_ident_start('0'));
    assert(is_digit_char('0'));
}

// ------------------------------------------------------------------
// Lone minus and lone slash
// ------------------------------------------------------------------
/// Law: a `-` not followed immediately by a decimal digit is extracted as
/// the punctuation token `-`, consuming only itself.
pub proof fn lemma_lone_minus_is_punct(t: Seq<char>)
    requires
        t.len() >= 1,
        t[0] == '-',
        t.len() >= 2 ==> !is_digit_char(t[1]),
    ensures
        next_token_model(t) == Ok::<(TokView, int), ScanError>((TokView::Punct('-'), 1int)),
{
    let m = number_matcher();
    assert(t.take(1).len() == 1 && t.take(1)[0] == '-');
    assert(m(t.take(1)) == Some(ScannerAction::Request(Token::Punct('-'))));
    assert(scan_result(m, t) == scan_model(m, t, 1, Some(Token::Punct('-')), false));
    if t.len() == 1 {
        assert(scan_result(m, t) == (1int, Ok::<Option<Token>, ScanError>(
            Some(Token::Punct('-')),
        )));
    } else {
        let p = t.take(2);
        assert(p.len() == 2 && p[0] == '-' && p[1] == t[1]);
        assert(p.skip(1).len() == 1 && p.skip(1)[0] == t[1]);
        assert(!all_base_digits(p.skip(1), 10));
        assert(!all_base_digits(p, 10)) by {
            assert(!is_base_digit(p[0], 10));
        }
        assert(m(p) is None);
        assert(scan_result(m, t) == (1int, Ok::<Option<Token>, ScanError>(
            Some(Token::Punct('-')),
        )));
    }
    assert(!is_ident_start('-'));
}

/// Law: a `/` that opens neither `//` nor `/*` is extracted as the
/// punctuation token `/`, consuming only itself.
pub proof fn lemma_lone_slash_is_punct(t: Seq<char>)
    requires
        t.len() >= 1,
        t[0] == '/',
        t.len() >= 2 ==> (t[1] != '/' && t[1] != '*'),
    ensures
        next_token_model(t) == Ok::<(TokView, int), ScanError>((TokView::Punct('/'), 1int)),
{
    assert(!is_ident_start('/'));
    assert(comment_model(t) == Ok::<(TokView, int), ScanError>((TokView::Punct('/'), 1int)));
}

// ------------------------------------------------------------------
// Comment extraction
// ------------------------------------------------------------------
/// Law: `//` followed by newline-free text, up to the end of input or the
/// first line feed, is extracted as a comment holding exactly that text.
pub proof fn lemma_line_comment_text(text: Seq<char>, rest: Seq<char>)
    requires
        forall|j: int| 0 <= j < text.len() ==> text[j] != '\n',
        rest.len() > 0 ==> rest[0] == '\n',
    ensures
        next_token_model(seq!['/', '/'] + text + rest) == Ok::<(TokView, int), ScanError>(
            (TokView::Comment(text), 2 + text.len() as int),
        ),
{
    let s = seq!['/', '/'] + text + rest;
    assert(s.len() == 2 + text.len() + rest.len());
    assert(s[0] == '/' && s[1] == '/');
    assert(!is_ident_start('/'));
    let u = s.skip(2);
    assert(u =~= text + rest);
    assert forall|j: int| 0 <= j < text.len() implies u[j] != '\n' by {
        assert(u[j] == text[j]);
    }
    if rest.len() > 0 {
        assert(u[text.len() as int] == rest[0]);
    }
    lemma_prefix_len_while_is(u, crate::token::not_newline_pred(), text.len() as int);
    assert(u.take(text.len() as int) =~= text);
}

/// The body of a block comment evaluates to exactly the text before the
/// first `*/`.
pub proof fn lemma_block_body_eval(text: Seq<char>, rest: Seq<char>)
    requires
        forall|j: int|
            #![trigger text[j]]
            0 <= j < text.len() - 1 ==> !(text[j] == '*' && text[j + 1] == '/'),
    ensures
        block_body(text + seq!['*', '/'] + rest) == Ok::<(Seq<char>, int), ScanError>(
            (text, text.len() as int + 2),
        ),
    decreases text.len(),
{
    let u = text + seq!['*', '/'] + rest;
    assert(u.len() == text.len() + 2 + rest.len());
    if text.len() == 0 {
        assert(u[0] == '*' && u[1] == '/');
        assert(text + Seq::<char>::empty() =~= text);
    } else {
        assert(u[0] == text[0]);
        if text.len() == 1 {
            assert(u[1] == '*');
        } else {
            assert(u[1] == text[1]);
        }
        assert(!(u.len() >= 2 && u[0] == '*' && u[1] == '/'));
        let text2 = text.skip(1);
        assert forall|j: int|
            #![trigger text2[j]]
            0 <= j < text2.len() - 1 implies !(text2[j] == '*' && text2[j + 1] == '/') by {
            assert(text2[j] == text[j + 1] && text2[j + 1] == text[j + 2]);
        }
        lemma_block_body_eval(text2, rest);
        assert(u.skip(1) =~= text2 + seq!['*', '/'] + rest);
        assert(seq![text[0]] + text2 =~= text);
    }
}

/// Law: `/*` followed by text free of `*/`, closed by the first `*/`, is
/// extracted as a comment holding exactly that text, delimiters stripped.
pub proof fn lemma_block_comment_text(text: Seq<char>, rest: Seq<char>)
    requires
        forall|j: int|
            #![trigger text[j]]
            0 <= j < text.len() - 1 ==> !(text[j] == '*' && text[j + 1] == '/'),
    ensures
        next_token_model(seq!['/', '*'] + text + seq!['*', '/'] + rest) == Ok::<
            (TokView, int),
            ScanError,
        >((TokView::Comment(text), 4 + text.len() as int)),
{
    let s = seq!['/', '*'] + text + seq!['*', '/'] + rest;
    assert(s[0] == '/' && s[1] == '*');
    assert(!is_ident_start('/'));
    lemma_block_body_eval(text, rest);
    assert(s.skip(2) =~= text + seq!['*', '/'] + rest);
}

} // verus!
