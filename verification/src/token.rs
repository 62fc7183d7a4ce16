//! A character-level tokenizer built on the backtracking scanner.
//!
//! `tokenize` turns source text into a flat sequence of tokens: identifiers,
//! numeric literals in four bases, quoted strings, character literals,
//! comments, and single-character punctuation. Matchers are tried in a fixed
//! priority order — identifier, comment, string, number, character literal,
//! punctuation fallback — and the first that accepts the next character wins.
//!
//! The whole behaviour is pinned down by the spec function `tokenize_model`;
//! the number matcher and the comment dispatch run through `Scanner::scan`,
//! and their models are stated with `scan_result` over transparent spec
//! matchers.

use vstd::prelude::*;
use vstd::string::StrSliceExecFns;

use crate::scanner::lemma_prefix_len_while;
use crate::scanner::lemma_prefix_len_while_is;
use crate::scanner::lemma_scan_model_bounds;
use crate::scanner::lemma_scan_result_progress;
use crate::scanner::matcher_fits;
use crate::scanner::pred_fits;
use crate::scanner::prefix_len_while;
use crate::scanner::scan_model;
use crate::scanner::scan_result;
use crate::scanner::ScanError;
use crate::scanner::Scanner;
use crate::scanner::ScannerAction;

verus! {

// ------------------------------------------------------------------
// Character classes
// ------------------------------------------------------------------
/// Whether a character above the ASCII range has the Unicode White_Space
/// property. Left abstract: only `char::is_whitespace` decides it.
pub uninterp spec fn whitespace_above_ascii(c: char) -> bool;

/// Whether a character above the ASCII range has the Unicode Alphabetic
/// property. Left abstract: only `char::is_alphabetic` decides it.
pub uninterp spec fn alphabetic_above_ascii(c: char) -> bool;

/// Whether a character above the ASCII range is numeric in the Unicode
/// sense. Left abstract: only `char::is_alphanumeric` decides it.
pub uninterp spec fn numeric_above_ascii(c: char) -> bool;

/// The characters the tokenizer skips between tokens.
pub open spec fn is_ws_char(c: char) -> bool {
    if (c as int) < 128 {
        c == ' ' || c == '\t' || c == '\n' || c == '\r' || c == '\u{b}' || c == '\u{c}'
    } else {
        whitespace_above_ascii(c)
    }
}

/// Alphabetic characters; in the ASCII range exactly the letters.
pub open spec fn is_alpha_char(c: char) -> bool {
    if (c as int) < 128 {
        (('a' as int) <= (c as int) && (c as int) <= ('z' as int)) || (('A' as int) <= (c as int)
            && (c as int) <= ('Z' as int))
    } else {
        alphabetic_above_ascii(c)
    }
}

/// ASCII decimal digits.
pub open spec fn is_digit_char(c: char) -> bool {
    ('0' as int) <= (c as int) && (c as int) <= ('9' as int)
}

/// Alphanumeric characters: alphabetic or numeric.
pub open spec fn is_alnum_char(c: char) -> bool {
    is_alpha_char(c) || (if (c as int) < 128 {
        is_digit_char(c)
    } else {
        numeric_above_ascii(c)
    })
}

/// Characters that may open an identifier.
pub open spec fn is_ident_start(c: char) -> bool {
    is_alpha_char(c) || c == '_'
}

/// Characters that may continue an identifier.
pub open spec fn is_ident_char(c: char) -> bool {
    is_alnum_char(c) || c == '_'
}

/// Relies on char::is_whitespace: true exactly on characters with the
/// Unicode White_Space property; within ASCII those are space, tab, line
/// feed, vertical tab, form feed and carriage return.
#[verifier::external_body]
fn char_is_whitespace(c: char) -> (r: bool)
    ensures
        r == is_ws_char(c),
        (c as int) >= 128 ==> r == whitespace_above_ascii(c),
{
    c.is_whitespace()
}

/// Relies on char::is_alphabetic: true exactly on characters with the
/// Unicode Alphabetic property; within ASCII those are the letters.
#[verifier::external_body]
fn char_is_alphabetic(c: char) -> (r: bool)
    ensures
        r == is_alpha_char(c),
        (c as int) >= 128 ==> r == alphabetic_above_ascii(c),
{
    c.is_alphabetic()
}

/// Relies on char::is_alphanumeric: true exactly on characters that are
/// alphabetic or numeric; within ASCII those are the letters and digits.
#[verifier::external_body]
fn char_is_alphanumeric(c: char) -> (r: bool)
    ensures
        r == is_alnum_char(c),
        (c as int) >= 128 ==> r == (alphabetic_above_ascii(c) || numeric_above_ascii(c)),
{
    c.is_alphanumeric()
}

// ------------------------------------------------------------------
// Digits and numeric values
// ------------------------------------------------------------------
/// The numeric value of a digit character in bases up to sixteen, or an
/// out-of-range marker for any other character.
pub open spec fn digit_val(c: char) -> int {
    let n = c as int;
    if ('0' as int) <= n && n <= ('9' as int) {
        n - ('0' as int)
    } else if ('a' as int) <= n && n <= ('f' as int) {
        n - ('a' as int) + 10
    } else if ('A' as int) <= n && n <= ('F' as int) {
        n - ('A' as int) + 10
    } else {
        99int
    }
}

/// Whether `c` is a valid digit in the given base.
pub open spec fn is_base_digit(c: char, base: int) -> bool {
    digit_val(c) < base
}

/// Whether every character of `s` is a valid digit in the given base.
pub open spec fn all_base_digits(s: Seq<char>, base: int) -> bool {
    forall|j: int| 0 <= j < s.len() ==> is_base_digit(s[j], base)
}

/// The value of a digit string read in the given base.
pub open spec fn base_val(s: Seq<char>, base: int) -> int
    decreases s.len(),
{
    if s.len() == 0 {
        0int
    } else {
        base_val(s.drop_last(), base) * base + digit_val(s.last())
    }
}

/// Digit-string values are never negative.
pub proof fn lemma_base_val_nonneg(s: Seq<char>, base: int)
    requires
        base >= 1,
    ensures
        base_val(s, base) >= 0,
    decreases s.len(),
{
    if s.len() > 0 {
        lemma_base_val_nonneg(s.drop_last(), base);
        assert(base_val(s.drop_last(), base) * base >= 0) by (nonlinear_arith)
            requires
                base_val(s.drop_last(), base) >= 0,
                base >= 1,
        ;
    }
}

/// Extending a digit string never shrinks its value.
pub proof fn lemma_base_val_mono(s: Seq<char>, base: int, k: int)
    requires
        base >= 1,
        0 <= k <= s.len(),
    ensures
        base_val(s.take(k), base) <= base_val(s, base),
    decreases s.len(),
{
    if k == s.len() {
        assert(s.take(k) =~= s);
    } else {
        lemma_base_val_nonneg(s.drop_last(), base);
        lemma_base_val_nonneg(s, base);
        assert(base_val(s.drop_last(), base) * base >= base_val(s.drop_last(), base))
            by (nonlinear_arith)
            requires
                base_val(s.drop_last(), base) >= 0,
                base >= 1,
        ;
        assert(s.drop_last().take(k) =~= s.take(k));
        lemma_base_val_mono(s.drop_last(), base, k);
    }
}

/// The value of the digit character `c`, if it is a digit in the given
/// base.
fn base_digit(c: char, base: u64) -> (r: Option<u64>)
    requires
        2 <= base <= 16,
    ensures
        r is Some <==> is_base_digit(c, base as int),
        r is Some ==> r == Some(digit_val(c) as u64),
{
    let n = c as u32;
    let v: u64 = if ('0' as u32) <= n && n <= ('9' as u32) {
        (n - ('0' as u32)) as u64
    } else if ('a' as u32) <= n && n <= ('f' as u32) {
        (n - ('a' as u32)) as u64 + 10
    } else if ('A' as u32) <= n && n <= ('F' as u32) {
        (n - ('A' as u32)) as u64 + 10
    } else {
        99
    };
    if v < base {
        Some(v)
    } else {
        None
    }
}

/// Read `chars[start..]` as a digit string in the given base: the value, if
/// every character is a digit of that base and the value stays within
/// `limit`; nothing otherwise.
fn parse_base(chars: &[char], start: usize, base: u64, limit: u64) -> (r: Option<u64>)
    requires
        2 <= base <= 16,
        start <= chars@.len(),
    ensures
        r is Some <==> (all_base_digits(chars@.skip(start as int), base as int) && base_val(
            chars@.skip(start as int),
            base as int,
        ) <= limit),
        r is Some ==> r == Some(base_val(chars@.skip(start as int), base as int) as u64),
{
    let ghost digits = chars@.skip(start as int);
    let mut acc: u64 = 0;
    let mut i: usize = start;
    let n = chars.len();
    while i < n
        invariant
            digits == chars@.skip(start as int),
            start <= i <= n,
            n == chars@.len(),
            2 <= base <= 16,
            acc == base_val(digits.take(i - start), base as int),
            acc <= limit,
            all_base_digits(digits.take(i - start), base as int),
        decreases n - i,
    {
        let c = chars[i];
        proof {
            assert(c == digits[i - start]);
        }
        match base_digit(c, base) {
            None => {
                proof {
                    assert(!is_base_digit(digits[i - start], base as int));
                }
                return None;
            },
            Some(d) => {
                proof {
                    assert(digits.take(i - start + 1).drop_last() =~= digits.take(i - start));
                    assert(digits.take(i - start + 1).last() == digits[i - start]);
                }
                let ghost next_val = base_val(digits.take(i - start + 1), base as int);
                proof {
                    lemma_base_val_nonneg(digits.take(i - start), base as int);
                    assert(next_val == acc * base + d);
                }
                let mut too_big = false;
                match acc.checked_mul(base) {
                    None => {
                        too_big = true;
                        proof {
                            assert(next_val > limit);
                        }
                    },
                    Some(mul) => {
                        if mul > limit || d > limit - mul {
                            too_big = true;
                            proof {
                                assert(next_val > limit);
                            }
                        } else {
                            acc = mul + d;
                        }
                    },
                }
                if too_big {
                    proof {
                        lemma_base_val_mono(digits, base as int, i - start + 1);
                        assert(base_val(digits, base as int) > limit);
                    }
                    return None;
                }
                i = i + 1;
            },
        }
    }
    proof {
        assert(digits.take(i - start) =~= digits);
    }
    Some(acc)
}

// ------------------------------------------------------------------
// Tokens
// ------------------------------------------------------------------
/// A token of the source language. Tokens form a flat ordered sequence;
/// there is no nesting.
#[derive(Debug, Clone, PartialEq)]
pub enum Token {
    /// An identifier: a letter or underscore followed by letters, digits
    /// and underscores.
    Ident(String),
    /// A numeric literal, decimal (possibly negated) or with a `0x`, `0o`
    /// or `0b` base prefix.
    Number(i64),
    /// A single character of punctuation: any character no other matcher
    /// accepted.
    Punct(char),
    /// The text of a `//` line comment or a `/* ... */` block comment,
    /// delimiters excluded.
    Comment(String),
    /// The contents of a double-quoted string literal, with `\"` unescaped.
    String(String),
    /// A single-quoted character literal, with `\'` unescaped.
    Char(char),
}

/// The mathematical shape of a token: text as a character sequence.
pub enum TokView {
    Ident(Seq<char>),
    Number(i64),
    Punct(char),
    Comment(Seq<char>),
    String(Seq<char>),
    Char(char),
}

impl View for Token {
    type V = TokView;

    open spec fn view(&self) -> TokView {
        match self {
            Token::Ident(s) => TokView::Ident(s@),
            Token::Number(n) => TokView::Number(*n),
            Token::Punct(c) => TokView::Punct(*c),
            Token::Comment(s) => TokView::Comment(s@),
            Token::String(s) => TokView::String(s@),
            Token::Char(c) => TokView::Char(*c),
        }
    }
}

/// A structured tokenization error: the kind of failure and the number of
/// characters consumed before the failing token attempt began.
#[derive(Debug, Clone, Copy, PartialEq, Eq, Structural)]
pub struct TokenError {
    pub kind: ScanError,
    pub pos: usize,
}

// ------------------------------------------------------------------
// Text helpers
// ------------------------------------------------------------------
/// Relies on String's FromIterator impl for char: collecting characters
/// builds the string of exactly those characters, in order.
#[verifier::external_body]
fn chars_to_string(v: &Vec<char>) -> (s: String)
    ensures
        s@ == v@,
{
    v.iter().collect()
}

/// The characters of a string slice, in order.
fn str_chars(s: &str) -> (v: Vec<char>)
    ensures
        v@ == s@,
{
    let n = s.unicode_len();
    let mut v: Vec<char> = Vec::new();
    let mut i: usize = 0;
    while i < n
        invariant
            i <= n,
            n == s@.len(),
            v@ == s@.take(i as int),
        decreases n - i,
    {
        let c = s.get_char(i);
        v.push(c);
        proof {
            assert(v@ =~= s@.take(i + 1));
        }
        i = i + 1;
    }
    proof {
        assert(s@.take(n as int) =~= s@);
    }
    v
}

// ------------------------------------------------------------------
// Whitespace and identifiers
// ------------------------------------------------------------------
/// The whitespace predicate as a spec-level function value.
pub open spec fn ws_pred() -> spec_fn(char) -> bool {
    |c: char| is_ws_char(c)
}

/// The identifier-continuation predicate as a spec-level function value.
pub open spec fn ident_pred() -> spec_fn(char) -> bool {
    |c: char| is_ident_char(c)
}

/// Discard the run of leading whitespace, if any.
fn skip_whitespace(scanner: &mut Scanner<char>)
    ensures
        final(scanner)@ == old(scanner)@.skip(prefix_len_while(old(scanner)@, ws_pred())),
{
    let cb = |c: &char| -> (b: bool)
        ensures
            b == is_ws_char(*c),
        { char_is_whitespace(*c) };
    proof {
        assert(pred_fits(cb, ws_pred()));
    }
    let _ws = scanner.take_while(cb);
}

/// Match an identifier: accepted exactly when the next character is
/// alphabetic or an underscore; takes the maximal run of alphanumeric or
/// underscore characters.
fn match_identifier(scanner: &mut Scanner<char>) -> (r: Option<Token>)
    ensures
        ({
            let s = old(scanner)@;
            if s.len() > 0 && is_ident_start(s[0]) {
                let k = prefix_len_while(s, ident_pred());
                final(scanner)@ == s.skip(k) && (match r {
                    Some(t) => t@ == TokView::Ident(s.take(k)),
                    None => false,
                })
            } else {
                r is None && final(scanner)@ == s
            }
        }),
{
    let is_start = match scanner.peek() {
        Some(c) => char_is_alphabetic(*c) || *c == '_',
        None => false,
    };
    if !is_start {
        return None;
    }
    let cb = |c: &char| -> (b: bool)
        ensures
            b == is_ident_char(*c),
        { char_is_alphanumeric(*c) || *c == '_' };
    proof {
        assert(pred_fits(cb, ident_pred()));
    }
    let chars = scanner.take_while(cb);
    Some(Token::Ident(chars_to_string(&chars)))
}

// ------------------------------------------------------------------
// Numbers
// ------------------------------------------------------------------
/// The number matcher's verdict on an accumulated prefix, following the
/// scan protocol:
/// - a bare `-` is provisionally punctuation, superseded if digits follow;
/// - `-` followed by decimal digits is a negated decimal literal;
/// - a bare `0` is provisionally zero, superseded by a base prefix;
/// - `0x`, `0o`, `0b` alone must be extended by a digit of that base;
/// - a base prefix followed by digits of that base, or a run of decimal
///   digits, is a literal of that base, extended greedily.
///
/// A prefix whose value no longer fits in a signed 64-bit integer is
/// rejected like any other mismatch, so the best shorter literal stands.
pub open spec fn number_action(p: Seq<char>) -> Option<ScannerAction<Token>> {
    if p.len() == 1 && p[0] == '-' {
        Some(ScannerAction::Request(Token::Punct('-')))
    } else if p.len() >= 2 && p[0] == '-' && all_base_digits(p.skip(1), 10) && base_val(
        p.skip(1),
        10,
    ) <= 0x8000_0000_0000_0000 {
        Some(ScannerAction::Request(Token::Number((-base_val(p.skip(1), 10)) as i64)))
    } else if p.len() == 1 && p[0] == '0' {
        Some(ScannerAction::Request(Token::Number(0)))
    } else if p.len() == 2 && p[0] == '0' && (p[1] == 'x' || p[1] == 'o' || p[1] == 'b') {
        Some(ScannerAction::Require)
    } else if p.len() >= 3 && p[0] == '0' && p[1] == 'x' && all_base_digits(p.skip(2), 16)
        && base_val(p.skip(2), 16) <= 0x7fff_ffff_ffff_ffff {
        Some(ScannerAction::Request(Token::Number(base_val(p.skip(2), 16) as i64)))
    } else if p.len() >= 3 && p[0] == '0' && p[1] == 'o' && all_base_digits(p.skip(2), 8)
        && base_val(p.skip(2), 8) <= 0x7fff_ffff_ffff_ffff {
        Some(ScannerAction::Request(Token::Number(base_val(p.skip(2), 8) as i64)))
    } else if p.len() >= 3 && p[0] == '0' && p[1] == 'b' && all_base_digits(p.skip(2), 2)
        && base_val(p.skip(2), 2) <= 0x7fff_ffff_ffff_ffff {
        Some(ScannerAction::Request(Token::Number(base_val(p.skip(2), 2) as i64)))
    } else if p.len() >= 1 && all_base_digits(p, 10) && base_val(p, 10) <= 0x7fff_ffff_ffff_ffff {
        Some(ScannerAction::Request(Token::Number(base_val(p, 10) as i64)))
    } else {
        None
    }
}

/// The number matcher as a spec-level function value.
pub open spec fn number_matcher() -> spec_fn(Seq<char>) -> Option<ScannerAction<Token>> {
    |p: Seq<char>| number_action(p)
}

/// Whether the number matcher is tried at all: the next character is an
/// ASCII digit or a minus sign.
pub open spec fn number_guard(s: Seq<char>) -> bool {
    s.len() > 0 && (is_digit_char(s[0]) || s[0] == '-')
}

/// Match a numeric literal (or a lone `-` as punctuation) by scanning with
/// `number_action`.
fn match_number(scanner: &mut Scanner<char>) -> (r: Result<Option<Token>, ScanError>)
    ensures
        ({
            let s = old(scanner)@;
            if number_guard(s) {
                final(scanner)@ == s.skip(scan_result(number_matcher(), s).0) && (match scan_result(
                    number_matcher(),
                    s,
                ).1 {
                    Ok(t) => t is Some && r == Ok::<Option<Token>, ScanError>(t),
                    Err(e) => r == Err::<Option<Token>, ScanError>(e),
                })
            } else {
                r == Ok::<Option<Token>, ScanError>(None) && final(scanner)@ == s
            }
        }),
{
    let ghost s = scanner@;
    let guard = match scanner.peek() {
        Some(c) => base_digit(*c, 10).is_some() || *c == '-',
        None => false,
    };
    if !guard {
        return Ok(None);
    }
    let cb = |p: &[char]| -> (a: Option<ScannerAction<Token>>)
        ensures
            a == number_action(p@),
        {
            if p.len() == 1 && p[0] == '-' {
                Some(ScannerAction::Request(Token::Punct('-')))
            } else if p.len() >= 2 && p[0] == '-' {
                proof {
                    assert(!is_base_digit(p@[0], 10));
                }
                match parse_base(p, 1, 10, 0x8000_0000_0000_0000) {
                    Some(m) => {
                        proof {
                            lemma_base_val_nonneg(p@.skip(1), 10);
                        }
                        let v: i64 = if m == 0x8000_0000_0000_0000 {
                            i64::MIN
                        } else {
                            -(m as i64)
                        };
                        Some(ScannerAction::Request(Token::Number(v)))
                    },
                    None => None,
                }
            } else if p.len() == 1 && p[0] == '0' {
                Some(ScannerAction::Request(Token::Number(0)))
            } else if p.len() == 2 && p[0] == '0' && (p[1] == 'x' || p[1] == 'o' || p[1] == 'b') {
                Some(ScannerAction::Require)
            } else if p.len() >= 3 && p[0] == '0' && (p[1] == 'x' || p[1] == 'o' || p[1] == 'b') {
                let base: u64 = if p[1] == 'x' {
                    16
                } else if p[1] == 'o' {
                    8
                } else {
                    2
                };
                proof {
                    assert(!is_base_digit(p@[1], 10));
                }
                match parse_base(p, 2, base, 0x7fff_ffff_ffff_ffff) {
                    Some(m) => {
                        proof {
                            lemma_base_val_nonneg(p@.skip(2), base as int);
                        }
                        Some(ScannerAction::Request(Token::Number(m as i64)))
                    },
                    None => None,
                }
            } else if p.len() == 0 {
                None
            } else {
                match parse_base(p, 0, 10, 0x7fff_ffff_ffff_ffff) {
                    Some(m) => {
                        proof {
                            assert(p@.skip(0) =~= p@);
                            lemma_base_val_nonneg(p@, 10);
                        }
                        Some(ScannerAction::Request(Token::Number(m as i64)))
                    },
                    None => {
                        proof {
                            assert(p@.skip(0) =~= p@);
                        }
                        None
                    },
                }
            }
        };
    proof {
        assert(matcher_fits(cb, number_matcher()));
    }
    let scanned = scanner.scan(&cb);
    proof {
        let ghost act1 = number_action(s.take(1));
        match act1 {
            Option::Some(ScannerAction::Request(t)) => {
                crate::scanner::lemma_scan_model_committed(
                    number_matcher(),
                    s,
                    1,
                    Some(t),
                    false,
                );
            },
            _ => {
                assert(s.take(1).len() == 1);
                assert(s.take(1)[0] == s[0]);
                if s[0] != '-' && s[0] != '0' {
                    assert(is_digit_char(s[0]));
                    assert(s.take(1).drop_last() =~= Seq::<char>::empty());
                    assert(s.take(1).last() == s[0]);
                    assert(base_val(Seq::<char>::empty(), 10) == 0);
                    assert(base_val(s.take(1), 10) == digit_val(s[0]));
                    assert forall|j: int| 0 <= j < s.take(1).len() implies is_base_digit(
                        s.take(1)[j],
                        10,
                    ) by {
                        assert(s.take(1)[j] == s[0]);
                    }
                }
                assert(false);
            },
        }
    }
    match scanned {
        Ok(Some(t)) => Ok(Some(t)),
        Ok(None) => {
            proof {
                assert(false);
            }
            Ok(None)
        },
        Err(e) => Err(e),
    }
}

// ------------------------------------------------------------------
// Strings and character literals
// ------------------------------------------------------------------
/// The body of a string literal: given the characters after the opening
/// quote, the decoded contents and the number of characters consumed,
/// closing quote included. A `\"` decodes to a literal quote; any other
/// escape is unknown; input that ends before the closing quote leaves the
/// string unterminated.
pub open spec fn string_body(s: Seq<char>) -> Result<(Seq<char>, int), ScanError>
    decreases s.len(),
{
    if s.len() == 0 {
        Err(ScanError::UnterminatedString)
    } else if s[0] == '"' {
        Ok((Seq::empty(), 1int))
    } else if s[0] == '\\' {
        if s.len() == 1 {
            Err(ScanError::UnterminatedString)
        } else if s[1] == '"' {
            match string_body(s.skip(2)) {
                Ok(cn) => Ok((seq!['"'] + cn.0, cn.1 + 2)),
                Err(e) => Err(e),
            }
        } else {
            Err(ScanError::UnknownEscape)
        }
    } else {
        match string_body(s.skip(1)) {
            Ok(cn) => Ok((seq![s[0]] + cn.0, cn.1 + 1)),
            Err(e) => Err(e),
        }
    }
}

/// Match a string literal: accepted exactly when the next character is a
/// double quote; reads to the matching unescaped quote, decoding `\"`.
fn match_string(scanner: &mut Scanner<char>) -> (r: Result<Option<Token>, ScanError>)
    ensures
        ({
            let s = old(scanner)@;
            if s.len() > 0 && s[0] == '"' {
                match string_body(s.skip(1)) {
                    Ok(cn) => (match r {
                        Ok(t) => (match t {
                            Some(t) => t@ == TokView::String(cn.0),
                            None => false,
                        }),
                        Err(_) => false,
                    }) && final(scanner)@ == s.skip(1 + cn.1),
                    Err(e) => r == Err::<Option<Token>, ScanError>(e),
                }
            } else {
                r == Ok::<Option<Token>, ScanError>(None) && final(scanner)@ == s
            }
        }),
{
    let ghost s0 = scanner@;
    let cb = |c: &char| -> (b: bool)
        ensures
            b == (*c == '"'),
        { *c == '"' };
    proof {
        assert(pred_fits(cb, |c: char| c == '"'));
    }
    let opened = scanner.take(cb);
    if opened.is_none() {
        return Ok(None);
    }
    let ghost rem0 = s0.skip(1);
    let mut content: Vec<char> = Vec::new();
    loop
        invariant
            s0.len() > 0 && s0[0] == '"',
            s0 == old(scanner)@,
            rem0 == s0.skip(1),
            scanner@.len() <= rem0.len(),
            scanner@ == rem0.skip(rem0.len() - scanner@.len()),
            string_body(rem0) == (match string_body(scanner@) {
                Ok(cn) => Ok::<(Seq<char>, int), ScanError>(
                    (content@ + cn.0, (rem0.len() - scanner@.len()) + cn.1),
                ),
                Err(e) => Err::<(Seq<char>, int), ScanError>(e),
            }),
        decreases scanner@.len(),
    {
        let ghost rem = scanner@;
        let ghost used = rem0.len() - rem.len();
        match scanner.pop() {
            None => {
                return Err(ScanError::UnterminatedString);
            },
            Some(c) => {
                if c == '"' {
                    proof {
                        assert(string_body(rem) == Ok::<(Seq<char>, int), ScanError>((
                            Seq::<char>::empty(),
                            1int,
                        )));
                        assert(content@ + Seq::<char>::empty() =~= content@);
                        assert(s0.skip(1 + used + 1) =~= rem0.skip(used + 1));
                        assert(rem0.skip(used).skip(1) =~= rem0.skip(used + 1));
                    }
                    return Ok(Some(Token::String(chars_to_string(&content))));
                } else if c == '\\' {
                    match scanner.pop() {
                        None => {
                            return Err(ScanError::UnterminatedString);
                        },
                        Some(c2) => {
                            if c2 == '"' {
                                let ghost content0 = content@;
                                content.push('"');
                                proof {
                                    assert(scanner@ =~= rem.skip(2));
                                    assert(rem0.skip(used).skip(2) =~= rem0.skip(used + 2));
                                    match string_body(scanner@) {
                                        Ok(cn) => {
                                            assert((content@ + cn.0) =~= (content0 + (seq!['"']
                                                + cn.0)));
                                        },
                                        Err(_) => {},
                                    }
                                }
                            } else {
                                return Err(ScanError::UnknownEscape);
                            }
                        },
                    }
                } else {
                    let ghost content0 = content@;
                    content.push(c);
                    proof {
                        assert(rem0.skip(used).skip(1) =~= rem0.skip(used + 1));
                        match string_body(scanner@) {
                            Ok(cn) => {
                                assert((content@ + cn.0) =~= (content0 + (seq![c] + cn.0)));
                            },
                            Err(_) => {},
                        }
                    }
                }
            },
        }
    }
}

// ------------------------------------------------------------------
// Comments
// ------------------------------------------------------------------
/// What a leading slash turned out to open: a lone slash (punctuation), a
/// `//` line comment, or a `/*` block comment.
pub enum SlashKind {
    Slash,
    Line,
    Block,
}

/// The dispatch matcher for a leading slash, following the scan protocol: a
/// bare `/` is provisionally punctuation; `//` and `/*` complete the
/// dispatch at once; anything else is rejected, so the provisional slash
/// stands and the second character is rolled back.
pub open spec fn slash_action(p: Seq<char>) -> Option<ScannerAction<SlashKind>> {
    if p.len() == 1 && p[0] == '/' {
        Some(ScannerAction::Request(SlashKind::Slash))
    } else if p.len() == 2 && p[0] == '/' && p[1] == '/' {
        Some(ScannerAction::Return(SlashKind::Line))
    } else if p.len() == 2 && p[0] == '/' && p[1] == '*' {
        Some(ScannerAction::Return(SlashKind::Block))
    } else {
        None
    }
}

/// The slash dispatch matcher as a spec-level function value.
pub open spec fn slash_matcher() -> spec_fn(Seq<char>) -> Option<ScannerAction<SlashKind>> {
    |p: Seq<char>| slash_action(p)
}

/// Evaluation of the slash dispatch scan on input starting with a slash.
pub proof fn lemma_slash_scan(s: Seq<char>)
    requires
        s.len() > 0,
        s[0] == '/',
    ensures
        scan_result(slash_matcher(), s) == (if s.len() >= 2 && s[1] == '/' {
            (2int, Ok::<Option<SlashKind>, ScanError>(Some(SlashKind::Line)))
        } else if s.len() >= 2 && s[1] == '*' {
            (2int, Ok::<Option<SlashKind>, ScanError>(Some(SlashKind::Block)))
        } else {
            (1int, Ok::<Option<SlashKind>, ScanError>(Some(SlashKind::Slash)))
        }),
{
    let m = slash_matcher();
    assert(s.take(1).len() == 1 && s.take(1)[0] == s[0]);
    assert(m(s.take(1)) == Some(ScannerAction::Request(SlashKind::Slash)));
    assert(scan_result(m, s) == scan_model(m, s, 1, Some(SlashKind::Slash), false));
    if s.len() == 1 {
        assert(scan_model(m, s, 1, Some(SlashKind::Slash), false) == (
            1int,
            Ok::<Option<SlashKind>, ScanError>(Some(SlashKind::Slash)),
        ));
    } else {
        assert(s.take(2).len() == 2 && s.take(2)[0] == s[0] && s.take(2)[1] == s[1]);
        assert(m(s.take(2)) == slash_action(s.take(2)));
        if s[1] == '/' {
            assert(scan_model(m, s, 1, Some(SlashKind::Slash), false) == (
                2int,
                Ok::<Option<SlashKind>, ScanError>(Some(SlashKind::Line)),
            ));
        } else if s[1] == '*' {
            assert(scan_model(m, s, 1, Some(SlashKind::Slash), false) == (
                2int,
                Ok::<Option<SlashKind>, ScanError>(Some(SlashKind::Block)),
            ));
        } else {
            assert(slash_action(s.take(2)) is None);
            assert(scan_model(m, s, 1, Some(SlashKind::Slash), false) == (
                1int,
                Ok::<Option<SlashKind>, ScanError>(Some(SlashKind::Slash)),
            ));
        }
    }
}

/// Bounds on the consumption of a block comment body.
pub proof fn lemma_block_body_bounds(s: Seq<char>)
    ensures
        block_body(s) matches Ok(cn) ==> 2 <= cn.1 <= s.len(),
    decreases s.len(),
{
    if s.len() >= 2 && s[0] == '*' && s[1] == '/' {
    } else if s.len() == 0 {
    } else {
        lemma_block_body_bounds(s.skip(1));
    }
}

/// The body of a block comment: given the characters after the opening
/// `/*`, the comment text and the number of characters consumed, the
/// closing `*/` included. The first `*/` closes the comment (no nesting);
/// input that ends first leaves the obligation to extend unmet.
pub open spec fn block_body(s: Seq<char>) -> Result<(Seq<char>, int), ScanError>
    decreases s.len(),
{
    if s.len() >= 2 && s[0] == '*' && s[1] == '/' {
        Ok((Seq::empty(), 2int))
    } else if s.len() == 0 {
        Err(ScanError::UnexpectedEnd)
    } else {
        match block_body(s.skip(1)) {
            Ok(cn) => Ok((seq![s[0]] + cn.0, cn.1 + 1)),
            Err(e) => Err(e),
        }
    }
}

/// Read the body of a block comment, the cursor standing just after `/*`.
fn read_block_comment(scanner: &mut Scanner<char>) -> (r: Result<Vec<char>, ScanError>)
    ensures
        ({
            let s = old(scanner)@;
            match block_body(s) {
                Ok(cn) => (match r {
                    Ok(v) => v@ == cn.0,
                    Err(_) => false,
                }) && final(scanner)@ == s.skip(cn.1),
                Err(e) => r == Err::<Vec<char>, ScanError>(e),
            }
        }),
{
    let ghost s0 = scanner@;
    let mut content: Vec<char> = Vec::new();
    loop
        invariant
            s0 == old(scanner)@,
            scanner@.len() <= s0.len(),
            scanner@ == s0.skip(s0.len() - scanner@.len()),
            block_body(s0) == (match block_body(scanner@) {
                Ok(cn) => Ok::<(Seq<char>, int), ScanError>(
                    (content@ + cn.0, (s0.len() - scanner@.len()) + cn.1),
                ),
                Err(e) => Err::<(Seq<char>, int), ScanError>(e),
            }),
        decreases scanner@.len(),
    {
        let ghost rem = scanner@;
        let ghost used = s0.len() - rem.len();
        match scanner.pop() {
            None => {
                return Err(ScanError::UnexpectedEnd);
            },
            Some(c) => {
                let mut closed = false;
                if c == '*' {
                    let slash = |x: &char| -> (b: bool)
                        ensures
                            b == (*x == '/'),
                        { *x == '/' };
                    proof {
                        assert(pred_fits(slash, |x: char| x == '/'));
                    }
                    if scanner.take(slash).is_some() {
                        closed = true;
                    }
                }
                if closed {
                    proof {
                        assert(block_body(rem) == Ok::<(Seq<char>, int), ScanError>((
                            Seq::<char>::empty(),
                            2int,
                        )));
                        assert(content@ + Seq::<char>::empty() =~= content@);
                        assert(s0.skip(used).skip(2) =~= s0.skip(used + 2));
                    }
                    return Ok(content);
                }
                let ghost content0 = content@;
                content.push(c);
                proof {
                    assert(!(rem.len() >= 2 && rem[0] == '*' && rem[1] == '/'));
                    assert(s0.skip(used).skip(1) =~= s0.skip(used + 1));
                    match block_body(scanner@) {
                        Ok(cn) => {
                            assert((content@ + cn.0) =~= (content0 + (seq![c] + cn.0)));
                        },
                        Err(_) => {},
                    }
                }
            },
        }
    }
}

/// The newline-exclusion predicate as a spec-level function value.
pub open spec fn not_newline_pred() -> spec_fn(char) -> bool {
    |c: char| c != '\n'
}

/// What the comment matcher yields on input starting with a slash: a lone
/// slash is punctuation; `//` opens a line comment running to the next line
/// feed (exclusive); `/*` opens a block comment closed by the first `*/`.
pub open spec fn comment_model(s: Seq<char>) -> Result<(TokView, int), ScanError> {
    if s.len() >= 2 && s[1] == '/' {
        let k = prefix_len_while(s.skip(2), not_newline_pred());
        Ok((TokView::Comment(s.skip(2).take(k)), 2 + k))
    } else if s.len() >= 2 && s[1] == '*' {
        match block_body(s.skip(2)) {
            Ok(cn) => Ok((TokView::Comment(cn.0), 2 + cn.1)),
            Err(e) => Err(e),
        }
    } else {
        Ok((TokView::Punct('/'), 1int))
    }
}

/// Match a comment or a lone slash: accepted exactly when the next
/// character is a slash. Dispatches through a scan with `slash_action`,
/// then gathers the comment text.
fn match_comment(scanner: &mut Scanner<char>) -> (r: Result<Option<Token>, ScanError>)
    ensures
        ({
            let s = old(scanner)@;
            if s.len() > 0 && s[0] == '/' {
                match comment_model(s) {
                    Ok(tn) => (match r {
                        Ok(t) => (match t {
                            Some(t) => t@ == tn.0,
                            None => false,
                        }),
                        Err(_) => false,
                    }) && final(scanner)@ == s.skip(tn.1),
                    Err(e) => r == Err::<Option<Token>, ScanError>(e),
                }
            } else {
                r == Ok::<Option<Token>, ScanError>(None) && final(scanner)@ == s
            }
        }),
{
    let ghost s = scanner@;
    let guard = match scanner.peek() {
        Some(c) => *c == '/',
        None => false,
    };
    if !guard {
        return Ok(None);
    }
    let cb = |p: &[char]| -> (a: Option<ScannerAction<SlashKind>>)
        ensures
            a == slash_action(p@),
        {
            if p.len() == 1 && p[0] == '/' {
                Some(ScannerAction::Request(SlashKind::Slash))
            } else if p.len() == 2 && p[0] == '/' && p[1] == '/' {
                Some(ScannerAction::Return(SlashKind::Line))
            } else if p.len() == 2 && p[0] == '/' && p[1] == '*' {
                Some(ScannerAction::Return(SlashKind::Block))
            } else {
                None
            }
        };
    proof {
        assert(matcher_fits(cb, slash_matcher()));
        lemma_slash_scan(s);
    }
    let scanned = scanner.scan(&cb);
    match scanned {
        Ok(Some(SlashKind::Slash)) => Ok(Some(Token::Punct('/'))),
        Ok(Some(SlashKind::Line)) => {
            let nl = |c: &char| -> (b: bool)
                ensures
                    b == (*c != '\n'),
                { *c != '\n' };
            proof {
                assert(pred_fits(nl, not_newline_pred()));
            }
            let ghost rem = scanner@;
            let content = scanner.take_while(nl);
            proof {
                let k = prefix_len_while(rem, not_newline_pred());
                lemma_prefix_len_while(rem, not_newline_pred());
                assert(rem == s.skip(2));
                assert(s.skip(2).skip(k) =~= s.skip(2 + k));
            }
            Ok(Some(Token::Comment(chars_to_string(&content))))
        },
        Ok(Some(SlashKind::Block)) => {
            let ghost rem = scanner@;
            match read_block_comment(scanner) {
                Ok(content) => {
                    proof {
                        lemma_block_body_bounds(rem);
                        assert(rem == s.skip(2));
                        match block_body(rem) {
                            Ok(cn) => {
                                assert(s.skip(2).skip(cn.1) =~= s.skip(2 + cn.1));
                            },
                            Err(_) => {},
                        }
                    }
                    Ok(Some(Token::Comment(chars_to_string(&content))))
                },
                Err(e) => Err(e),
            }
        },
        Ok(None) => {
            proof {
                assert(false);
            }
            Ok(None)
        },
        Err(e) => {
            proof {
                assert(false);
            }
            Err(e)
        },
    }
}

/// The body of a character literal: given the characters after the opening
/// quote, the character denoted and the number of characters consumed,
/// closing quote included. A `\'` denotes a literal quote; any other escape
/// is unknown; a missing closing quote leaves the literal unterminated.
pub open spec fn char_body(s: Seq<char>) -> Result<(char, int), ScanError> {
    if s.len() == 0 {
        Err(ScanError::UnterminatedChar)
    } else if s[0] == '\\' {
        if s.len() == 1 {
            Err(ScanError::UnterminatedChar)
        } else if s[1] != '\'' {
            Err(ScanError::UnknownEscape)
        } else if s.len() >= 3 && s[2] == '\'' {
            Ok(('\'', 3int))
        } else {
            Err(ScanError::UnterminatedChar)
        }
    } else {
        if s.len() >= 2 && s[1] == '\'' {
            Ok((s[0], 2int))
        } else {
            Err(ScanError::UnterminatedChar)
        }
    }
}

/// Match a character literal: accepted exactly when the next character is a
/// single quote; reads one character (or the `\'` escape) and the closing
/// quote.
fn match_char(scanner: &mut Scanner<char>) -> (r: Result<Option<Token>, ScanError>)
    ensures
        ({
            let s = old(scanner)@;
            if s.len() > 0 && s[0] == '\'' {
                match char_body(s.skip(1)) {
                    Ok(cn) => (match r {
                        Ok(t) => (match t {
                            Some(t) => t@ == TokView::Char(cn.0),
                            None => false,
                        }),
                        Err(_) => false,
                    }) && final(scanner)@ == s.skip(1 + cn.1),
                    Err(e) => r == Err::<Option<Token>, ScanError>(e),
                }
            } else {
                r == Ok::<Option<Token>, ScanError>(None) && final(scanner)@ == s
            }
        }),
{
    let ghost s0 = scanner@;
    let quote = |c: &char| -> (b: bool)
        ensures
            b == (*c == '\''),
        { *c == '\'' };
    proof {
        assert(pred_fits(quote, |c: char| c == '\''));
    }
    let opened = scanner.take(quote);
    if opened.is_none() {
        return Ok(None);
    }
    let ghost rem = s0.skip(1);
    let mut c = match scanner.pop() {
        None => {
            return Err(ScanError::UnterminatedChar);
        },
        Some(c) => c,
    };
    let mut taken: usize = 1;
    if c == '\\' {
        match scanner.pop() {
            None => {
                return Err(ScanError::UnterminatedChar);
            },
            Some(c2) => {
                if c2 != '\'' {
                    return Err(ScanError::UnknownEscape);
                }
                c = '\'';
                taken = 2;
            },
        }
        proof {
            assert(scanner@ =~= rem.skip(2));
        }
    }
    let closer = |x: &char| -> (b: bool)
        ensures
            b == (*x == '\''),
        { *x == '\'' };
    proof {
        assert(pred_fits(closer, |x: char| x == '\''));
    }
    match scanner.take(closer) {
        Some(_q) => {
            proof {
                assert(s0.skip(1 + (taken + 1)) =~= rem.skip(taken as int).skip(1));
            }
            Ok(Some(Token::Char(c)))
        },
        None => Err(ScanError::UnterminatedChar),
    }
}

// ------------------------------------------------------------------
// Dispatch and the tokenizer
// ------------------------------------------------------------------
/// What one token extraction yields on non-empty input with no leading
/// whitespace: the token's shape and the number of characters consumed, or
/// the error. Matchers are tried in priority order: identifier, comment,
/// string, number, character literal, and the punctuation fallback, which
/// takes the single next character and never fails.
pub open spec fn next_token_model(t: Seq<char>) -> Result<(TokView, int), ScanError> {
    if is_ident_start(t[0]) {
        Ok(
            (
                TokView::Ident(t.take(prefix_len_while(t, ident_pred()))),
                prefix_len_while(t, ident_pred()),
            ),
        )
    } else if t[0] == '/' {
        comment_model(t)
    } else if t[0] == '"' {
        match string_body(t.skip(1)) {
            Ok(cn) => Ok((TokView::String(cn.0), 1 + cn.1)),
            Err(e) => Err(e),
        }
    } else if number_guard(t) {
        match scan_result(number_matcher(), t).1 {
            Ok(Option::Some(tok)) => Ok((tok@, scan_result(number_matcher(), t).0)),
            Ok(Option::None) => Err(ScanError::UnexpectedToken),
            Err(e) => Err(e),
        }
    } else if t[0] == '\'' {
        match char_body(t.skip(1)) {
            Ok(cn) => Ok((TokView::Char(cn.0), 1 + cn.1)),
            Err(e) => Err(e),
        }
    } else {
        Ok((TokView::Punct(t[0]), 1int))
    }
}

/// Bounds on the consumption of a string literal body.
pub proof fn lemma_string_body_bounds(s: Seq<char>)
    ensures
        string_body(s) matches Ok(cn) ==> 1 <= cn.1 <= s.len(),
    decreases s.len(),
{
    if s.len() == 0 {
    } else if s[0] == '"' {
    } else if s[0] == '\\' {
        if s.len() >= 2 && s[1] == '"' {
            lemma_string_body_bounds(s.skip(2));
        }
    } else {
        lemma_string_body_bounds(s.skip(1));
    }
}

/// One token extraction consumes at least one and at most all of the
/// available characters.
pub proof fn lemma_next_token_bounds(t: Seq<char>)
    requires
        t.len() > 0,
    ensures
        next_token_model(t) matches Ok(tn) ==> 1 <= tn.1 <= t.len(),
{
    if is_ident_start(t[0]) {
        lemma_prefix_len_while(t, ident_pred());
        if prefix_len_while(t, ident_pred()) == 0 {
            assert(!is_ident_char(t[0]));
            assert(false);
        }
    } else if t[0] == '/' {
        lemma_prefix_len_while(t.skip(2), not_newline_pred());
        lemma_block_body_bounds(t.skip(2));
    } else if t[0] == '"' {
        lemma_string_body_bounds(t.skip(1));
    } else if number_guard(t) {
        lemma_scan_result_progress(number_matcher(), t);
    } else {
    }
}

/// Extract the next token: discard leading whitespace, then try each
/// matcher in priority order; the punctuation fallback takes the next
/// character when no other matcher fires, so only exhausted input yields
/// nothing.
fn get_tok(scanner: &mut Scanner<char>) -> (r: Result<Option<Token>, ScanError>)
    ensures
        ({
            let s = old(scanner)@;
            let t = s.skip(prefix_len_while(s, ws_pred()));
            if t.len() == 0 {
                r == Ok::<Option<Token>, ScanError>(None) && final(scanner)@ == t
            } else {
                match next_token_model(t) {
                    Ok(tn) => (match r {
                        Ok(o) => (match o {
                            Some(tok) => tok@ == tn.0,
                            None => false,
                        }),
                        Err(_) => false,
                    }) && final(scanner)@ == t.skip(tn.1),
                    Err(e) => r == Err::<Option<Token>, ScanError>(e),
                }
            }
        }),
{
    skip_whitespace(scanner);
    let ghost t = scanner@;
    match match_identifier(scanner) {
        Some(tok) => {
            return Ok(Some(tok));
        },
        None => {},
    }
    match match_comment(scanner) {
        Ok(Some(tok)) => {
            return Ok(Some(tok));
        },
        Ok(None) => {},
        Err(e) => {
            return Err(e);
        },
    }
    match match_string(scanner) {
        Ok(Some(tok)) => {
            return Ok(Some(tok));
        },
        Ok(None) => {},
        Err(e) => {
            return Err(e);
        },
    }
    match match_number(scanner) {
        Ok(Some(tok)) => {
            return Ok(Some(tok));
        },
        Ok(None) => {},
        Err(e) => {
            return Err(e);
        },
    }
    match match_char(scanner) {
        Ok(Some(tok)) => {
            return Ok(Some(tok));
        },
        Ok(None) => {},
        Err(e) => {
            return Err(e);
        },
    }
    match scanner.pop() {
        Some(c) => Ok(Some(Token::Punct(c))),
        None => Ok(None),
    }
}

/// The shapes of a token sequence.
pub open spec fn toks_view(ts: Seq<Token>) -> Seq<TokView> {
    ts.map_values(|t: Token| t@)
}

/// The tokens of the input from `s` onward, `total` being the length of the
/// whole input (so an error can carry the count of characters consumed
/// before the failing attempt). Whitespace runs are discarded between
/// tokens.
///
/// The clamps on the whitespace run and on the consumption of a token never
/// take effect (see `lemma_prefix_len_while` and `lemma_next_token_bounds`);
/// they only make termination of the definition evident.
pub open spec fn tokenize_model_from(total: int, s: Seq<char>) -> Result<Seq<TokView>, TokenError>
    decreases s.len(),
{
    let k0 = prefix_len_while(s, ws_pred());
    let k = if k0 < 0 {
        0int
    } else if k0 > s.len() {
        s.len() as int
    } else {
        k0
    };
    let t = s.skip(k);
    if t.len() <= 0 {
        Ok(Seq::empty())
    } else {
        match next_token_model(t) {
            Err(e) => Err(TokenError { kind: e, pos: (total - t.len()) as usize }),
            Ok(tn) => {
                let step = if tn.1 < 1 {
                    1int
                } else if tn.1 > t.len() {
                    t.len() as int
                } else {
                    tn.1
                };
                match tokenize_model_from(total, t.skip(step)) {
                    Err(e) => Err(e),
                    Ok(tvs) => Ok(seq![tn.0] + tvs),
                }
            },
        }
    }
}

/// The tokens of the whole input, or the first error with the count of
/// characters consumed before the failing token attempt.
pub open spec fn tokenize_model(s: Seq<char>) -> Result<Seq<TokView>, TokenError> {
    tokenize_model_from(s.len() as int, s)
}

/// Extract tokens until the input is exhausted; the first error aborts,
/// carrying the position where the failing token attempt began.
fn tokenize_scanner(scanner: &mut Scanner<char>) -> (r: Result<Vec<Token>, TokenError>)
    ensures
        ({
            let s = old(scanner)@;
            match r {
                Ok(toks) => tokenize_model_from(s.len() as int, s) == Ok::<
                    Seq<TokView>,
                    TokenError,
                >(toks_view(toks@)),
                Err(e) => tokenize_model_from(s.len() as int, s) == Err::<
                    Seq<TokView>,
                    TokenError,
                >(e),
            }
        }),
{
    let ghost s0 = scanner@;
    let total = scanner.remaining_len();
    let mut toks: Vec<Token> = Vec::new();
    loop
        invariant
            s0 == old(scanner)@,
            total == s0.len(),
            scanner@.len() <= s0.len(),
            tokenize_model_from(s0.len() as int, s0) == (match tokenize_model_from(
                s0.len() as int,
                scanner@,
            ) {
                Ok(tvs) => Ok::<Seq<TokView>, TokenError>(toks_view(toks@) + tvs),
                Err(e) => Err::<Seq<TokView>, TokenError>(e),
            }),
        decreases scanner@.len(),
    {
        let ghost pre = scanner@;
        skip_whitespace(scanner);
        proof {
            lemma_prefix_len_while(pre, ws_pred());
        }
        let ghost t = scanner@;
        let remaining = scanner.remaining_len();
        let pos = total - remaining;
        proof {
            if t.len() > 0 {
                assert(!is_ws_char(t[0])) by {
                    let k = prefix_len_while(pre, ws_pred());
                    assert(t[0] == pre[k]);
                }
                assert(prefix_len_while(t, ws_pred()) == 0);
                assert(t.skip(0) =~= t);
                lemma_next_token_bounds(t);
            }
        }
        let ghost toks0 = toks@;
        match get_tok(scanner) {
            Ok(Some(tok)) => {
                toks.push(tok);
                proof {
                    match next_token_model(t) {
                        Ok(tn) => {
                            assert(toks_view(toks@) =~= toks_view(toks0).push(tok@));
                            match tokenize_model_from(s0.len() as int, scanner@) {
                                Ok(tvs) => {
                                    assert((toks_view(toks@) + tvs) =~= (toks_view(toks0) + (seq![
                                        tn.0,
                                    ] + tvs)));
                                },
                                Err(_) => {},
                            }
                        },
                        Err(_) => {
                            assert(false);
                        },
                    }
                }
            },
            Ok(None) => {
                proof {
                    assert(toks_view(toks@) + Seq::<TokView>::empty() =~= toks_view(toks@));
                }
                return Ok(toks);
            },
            Err(e) => {
                return Err(TokenError { kind: e, pos });
            },
        }
    }
}

/// Turn source text into its token sequence: the behaviour is exactly
/// `tokenize_model` of the input's characters.
pub fn tokenize(code: &str) -> (r: Result<Vec<Token>, TokenError>)
    ensures
        ({
            match r {
                Ok(toks) => tokenize_model(code@) == Ok::<Seq<TokView>, TokenError>(
                    toks_view(toks@),
                ),
                Err(e) => tokenize_model(code@) == Err::<Seq<TokView>, TokenError>(e),
            }
        }),
{
    let chars = str_chars(code);
    let queue = crate::scanner::queue_of_vec(chars);
    let mut scanner = Scanner::new(queue);
    tokenize_scanner(&mut scanner)
}

} // verus!
