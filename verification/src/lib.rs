//! A backtracking lookahead scanner and the tokenizer built on it.
//!
//! The `scanner` module holds the generic cursor `Scanner<T>` with its
//! speculative `scan` operation; the `token` module holds the
//! character-level tokenizer. The crate root offers `TokenScanner`, the
//! same lookahead protocol over a sequence of tokens, as a downstream
//! consumer (say, a parser) would use it.

pub mod scanner;
pub mod laws;
pub mod token;

use vstd::prelude::*;

use crate::scanner::matcher_fits;
use crate::scanner::scan_result;
use crate::scanner::ScanError;
use crate::scanner::Scanner;
use crate::scanner::ScannerAction;

verus! {

/// A token of a small instruction language: a name or a byte literal.
#[derive(Debug, Clone, PartialEq)]
pub enum Token {
    Ident(String),
    Literal(u8),
}

/// The verdict of a token matcher on one accumulated prefix, mirroring
/// `ScannerAction`: finish now, remember a provisional result, or demand an
/// extension. A matcher rejects by returning no action at all.
#[derive(Debug, Clone, PartialEq)]
pub enum Action<T> {
    /// Immediately advance the cursor and return the value.
    Return(T),
    /// If the next iteration rejects or input ends, return this value, the
    /// rejected element staying unconsumed.
    Request(T),
    /// If the next iteration rejects or input ends, the whole attempt
    /// fails.
    Require,
}

/// An `Action` verdict as the generic scanner's verdict.
pub open spec fn action_lift<T>(a: Option<Action<T>>) -> Option<ScannerAction<T>> {
    match a {
        Option::None => Option::None,
        Option::Some(Action::Return(v)) => Option::Some(ScannerAction::Return(v)),
        Option::Some(Action::Request(v)) => Option::Some(ScannerAction::Request(v)),
        Option::Some(Action::Require) => Option::Some(ScannerAction::Require),
    }
}

/// A token matcher as a matcher of the generic scanner.
pub open spec fn matcher_lift<T>(m: spec_fn(Seq<Token>) -> Option<Action<T>>) -> spec_fn(
    Seq<Token>,
) -> Option<ScannerAction<T>> {
    |p: Seq<Token>| action_lift(m(p))
}

/// The matcher closure `cb` implements the spec-level matcher `m`.
pub open spec fn token_matcher_fits<T, F: Fn(&[Token]) -> Option<Action<T>>>(
    cb: F,
    m: spec_fn(Seq<Token>) -> Option<Action<T>>,
) -> bool {
    forall|p: &[Token], a: Option<Action<T>>| #[trigger] call_ensures(cb, (p,), a) ==> a == m(p@)
}

/// The matcher behind the reference may be called on the prefix.
pub open spec fn matcher_ref_requires<T, F: Fn(&[Token]) -> Option<Action<T>>>(
    f: &F,
    p: &[Token],
) -> bool {
    call_requires(*f, (p,))
}

/// The matcher behind the reference may return this verdict on the prefix.
pub open spec fn matcher_ref_ensures<T, F: Fn(&[Token]) -> Option<Action<T>>>(
    f: &F,
    p: &[Token],
    a: Option<Action<T>>,
) -> bool {
    call_ensures(*f, (p,), a)
}

/// A cursor over a sequence of tokens with the same speculative lookahead
/// protocol as `Scanner`. The view is the sequence of tokens not yet
/// consumed.
pub struct TokenScanner {
    inner: Scanner<Token>,
}

impl View for TokenScanner {
    type V = Seq<Token>;

    closed spec fn view(&self) -> Seq<Token> {
        self.inner@
    }
}

impl TokenScanner {
    /// A scanner positioned at the start of `toks`.
    pub fn new(toks: Vec<Token>) -> (s: Self)
        ensures
            s@ == toks@,
    {
        TokenScanner { inner: Scanner::new(crate::scanner::queue_of_vec(toks)) }
    }

    /// True iff no tokens remain.
    pub fn is_done(&self) -> (r: bool)
        ensures
            r == (self@.len() == 0),
    {
        self.inner.is_done()
    }

    /// The next token, without consuming it.
    pub fn peek(&self) -> (r: Option<&Token>)
        ensures
            match r {
                Some(t) => self@.len() > 0 && *t == self@[0],
                None => self@.len() == 0,
            },
    {
        self.inner.peek()
    }

    /// Consume and return the next token, or nothing at the end.
    pub fn pop(&mut self) -> (r: Option<Token>)
        ensures
            match r {
                Some(t) => old(self)@.len() > 0 && t == old(self)@[0] && final(self)@ == old(
                    self,
                )@.skip(1),
                None => old(self)@.len() == 0 && final(self)@ == old(self)@,
            },
    {
        self.inner.pop()
    }

    /// Run the lookahead protocol with the given matcher, as
    /// `Scanner::scan` does; the matcher's verdicts are `Action` values and
    /// rejection is returning `None`.
    pub fn scan<T, F: Fn(&[Token]) -> Option<Action<T>>>(&mut self, cb: F) -> (r: Result<
        Option<T>,
        ScanError,
    >)
        requires
            forall|p: &[Token]| call_requires(cb, (p,)),
        ensures
            exists|n: int| 0 <= n <= old(self)@.len() && final(self)@ == old(self)@.skip(n),
            r == Ok::<Option<T>, ScanError>(Option::<T>::None) ==> final(self)@ == old(self)@,
            r != Ok::<Option<T>, ScanError>(Option::<T>::None) ==> old(self)@.len() > 0
                && final(self)@.len() < old(self)@.len(),
            r is Err ==> r == Err::<Option<T>, ScanError>(ScanError::UnexpectedEnd) || r == Err::<
                Option<T>,
                ScanError,
            >(ScanError::UnexpectedToken),
            forall|m: spec_fn(Seq<Token>) -> Option<Action<T>>|
                #[trigger] token_matcher_fits::<T, F>(cb, m) ==> final(self)@ == old(self)@.skip(
                    scan_result(matcher_lift(m), old(self)@).0,
                ) && r == scan_result(matcher_lift(m), old(self)@).1,
    {
        let cbr = &cb;
        let adapter = |p: &[Token]| -> (a: Option<ScannerAction<T>>)
            requires
                matcher_ref_requires(cbr, p),
            ensures
                exists|a0: Option<Action<T>>|
                    #[trigger] matcher_ref_ensures(cbr, p, a0) && a == action_lift(a0),
            {
                let a0 = cbr(p);
                let ghost g0 = a0;
                let a = match a0 {
                    Option::None => Option::None,
                    Option::Some(Action::Return(v)) => Option::Some(ScannerAction::Return(v)),
                    Option::Some(Action::Request(v)) => Option::Some(ScannerAction::Request(v)),
                    Option::Some(Action::Require) => Option::Some(
                        ScannerAction::<T>::Require,
                    ),
                };
                proof {
                    assert(matcher_ref_ensures(cbr, p, g0) && a == action_lift(g0));
                }
                a
            };
        let r = self.inner.scan(&adapter);
        proof {
            assert forall|m: spec_fn(Seq<Token>) -> Option<Action<T>>|
                #[trigger] token_matcher_fits::<T, F>(cb, m) implies final(self)@ == old(
                self,
            )@.skip(scan_result(matcher_lift(m), old(self)@).0) && r == scan_result(
                matcher_lift(m),
                old(self)@,
            ).1 by {
                assert(matcher_fits(adapter, matcher_lift(m))) by {
                    assert forall|p: &[Token], a: Option<ScannerAction<T>>|
                        #[trigger] call_ensures(adapter, (p,), a) implies a == matcher_lift(m)(
                        p@,
                    ) by {
                        let a0 = choose|a0: Option<Action<T>>|
                            #[trigger] matcher_ref_ensures(cbr, p, a0) && a == action_lift(a0);
                        assert(call_ensures(cb, (p,), a0));
                        assert(a0 == m(p@));
                    }
                }
            }
        }
        r
    }
}

} // verus!
