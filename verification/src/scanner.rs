//! A generic backtracking lookahead scanner.
//!
//! `Scanner<T>` owns a queue of input elements and exposes primitive cursor
//! operations (`peek`, `pop`, `test`, `take`, `take_while`, `transform`) and
//! one compound operation, `scan`, which lets a matcher speculatively consume
//! a growing prefix of the input and cleanly retract a failed attempt.
//!
//! The behaviour of `scan` is pinned down by the spec function `scan_model`:
//! for any matcher closure that implements a spec-level matcher function `m`
//! (see `matcher_fits`), the result and the consumed prefix are exactly those
//! of `scan_model(m, input, 0, None, false)`.

use vstd::prelude::*;

verus! {

/// The verdict of a matcher on one accumulated prefix of input.
///
/// A matcher returns `None` to reject the prefix outright; the element just
/// examined is then rolled back onto the input.
#[derive(Debug, Clone, PartialEq)]
pub enum ScannerAction<U> {
    /// The prefix completes a match; consume it and finish now.
    Return(U),
    /// The prefix is already a valid result, but a longer one may supersede
    /// it; remember it and keep scanning.
    Request(U),
    /// The prefix is not yet valid but must be extended; keep scanning, and
    /// fail if no extension is possible.
    Require,
}

/// The error kinds a token extraction can surface.
///
/// `scan` itself only ever produces the first two; the rest belong to the
/// string and character matchers built on top of the scanner.
#[derive(Debug, Clone, Copy, PartialEq, Eq, Structural)]
pub enum ScanError {
    /// Input ran out while a match was still required.
    UnexpectedEnd,
    /// An element was seen but rejected while a match was still required.
    UnexpectedToken,
    /// Input ran out before the closing quote of a string literal.
    UnterminatedString,
    /// A character literal was not closed by a quote.
    UnterminatedChar,
    /// A backslash was followed by a character that is not a known escape.
    UnknownEscape,
}

/// The outcome of running the `scan` protocol with matcher `m` over input
/// `s`, starting from `i` consumed elements, a pending provisional result,
/// and a pending must-extend obligation. Returns the total number of
/// elements consumed and the result.
///
/// Protocol: at each step the matcher inspects the prefix extended by one
/// more element. `Return` finishes at once; `Request` records a provisional
/// result and clears the must-extend obligation; `Require` sets the
/// obligation; rejection (`None`) rolls the last element back and finishes
/// with the provisional result, or fails if an extension was required.
/// Exhausted input likewise finishes with the provisional result or fails.
pub open spec fn scan_model<T, U>(
    m: spec_fn(Seq<T>) -> Option<ScannerAction<U>>,
    s: Seq<T>,
    i: int,
    pending: Option<U>,
    must: bool,
) -> (int, Result<Option<U>, ScanError>)
    decreases s.len() - i,
{
    if i < 0 || i >= s.len() {
        (
            i,
            if must {
                Err(ScanError::UnexpectedEnd)
            } else {
                Ok(pending)
            },
        )
    } else {
        match m(s.take(i + 1)) {
            Option::None => (
                i,
                if must {
                    Err(ScanError::UnexpectedToken)
                } else {
                    Ok(pending)
                },
            ),
            Option::Some(ScannerAction::Return(v)) => (i + 1, Ok(Option::Some(v))),
            Option::Some(ScannerAction::Request(v)) => scan_model(
                m,
                s,
                i + 1,
                Option::Some(v),
                false,
            ),
            Option::Some(ScannerAction::Require) => scan_model(m, s, i + 1, pending, true),
        }
    }
}

/// The outcome of one whole `scan` call with matcher `m` on input `s`.
pub open spec fn scan_result<T, U>(
    m: spec_fn(Seq<T>) -> Option<ScannerAction<U>>,
    s: Seq<T>,
) -> (int, Result<Option<U>, ScanError>) {
    scan_model(m, s, 0, Option::None, false)
}

/// The matcher closure `cb` implements the spec-level matcher `m`: whatever
/// `cb` may return on a prefix is exactly `m` of that prefix.
pub open spec fn matcher_fits<T, U, F: Fn(&[T]) -> Option<ScannerAction<U>>>(
    cb: F,
    m: spec_fn(Seq<T>) -> Option<ScannerAction<U>>,
) -> bool {
    forall|p: &[T], a: Option<ScannerAction<U>>| #[trigger] call_ensures(cb, (p,), a) ==> a == m(
        p@,
    )
}

/// The predicate closure `cb` implements the spec-level predicate `q`.
pub open spec fn pred_fits<T, F: FnOnce(&T) -> bool>(cb: F, q: spec_fn(T) -> bool) -> bool {
    forall|x: &T, b: bool| #[trigger] call_ensures(cb, (x,), b) ==> b == q(*x)
}

/// The transformer closure `cb` implements the spec-level partial map `g`.
pub open spec fn map_fits<T, U, F: FnOnce(&T) -> Option<U>>(
    cb: F,
    g: spec_fn(T) -> Option<U>,
) -> bool {
    forall|x: &T, o: Option<U>| #[trigger] call_ensures(cb, (x,), o) ==> o == g(*x)
}

/// Length of the longest prefix of `s` on which `q` holds everywhere.
pub open spec fn prefix_len_while<T>(s: Seq<T>, q: spec_fn(T) -> bool) -> int
    decreases s.len(),
{
    if s.len() == 0 || !q(s[0]) {
        0int
    } else {
        1 + prefix_len_while(s.skip(1), q)
    }
}

/// `prefix_len_while` is the first index where `q` fails (or the length of
/// `s` if it never does), and `q` holds strictly before it.
pub proof fn lemma_prefix_len_while<T>(s: Seq<T>, q: spec_fn(T) -> bool)
    ensures
        0 <= prefix_len_while(s, q) <= s.len(),
        forall|j: int| 0 <= j < prefix_len_while(s, q) ==> q(s[j]),
        prefix_len_while(s, q) < s.len() ==> !q(s[prefix_len_while(s, q)]),
    decreases s.len(),
{
    if s.len() == 0 || !q(s[0]) {
    } else {
        lemma_prefix_len_while(s.skip(1), q);
        assert forall|j: int| 0 <= j < prefix_len_while(s, q) implies q(s[j]) by {
            if j >= 1 {
                assert(s[j] == s.skip(1)[j - 1]);
            }
        }
        if prefix_len_while(s, q) < s.len() {
            assert(s[prefix_len_while(s, q)] == s.skip(1)[prefix_len_while(s, q) - 1]);
        }
    }
}

/// Conversely, if `q` holds on the first `k` elements and fails on the next
/// one (if any), the longest satisfying prefix has length exactly `k`.
pub proof fn lemma_prefix_len_while_is<T>(s: Seq<T>, q: spec_fn(T) -> bool, k: int)
    requires
        0 <= k <= s.len(),
        forall|j: int| 0 <= j < k ==> q(s[j]),
        k < s.len() ==> !q(s[k]),
    ensures
        prefix_len_while(s, q) == k,
    decreases s.len(),
{
    if k == 0 {
    } else {
        assert(q(s[0]));
        assert forall|j: int| 0 <= j < k - 1 implies q(s.skip(1)[j]) by {
            assert(s.skip(1)[j] == s[j + 1]);
        }
        if k - 1 < s.skip(1).len() {
            assert(s.skip(1)[k - 1] == s[k]);
        }
        lemma_prefix_len_while_is(s.skip(1), q, k - 1);
    }
}

/// Bounds on the consumption of the scan protocol.
pub proof fn lemma_scan_model_bounds<T, U>(
    m: spec_fn(Seq<T>) -> Option<ScannerAction<U>>,
    s: Seq<T>,
    i: int,
    pending: Option<U>,
    must: bool,
)
    requires
        0 <= i <= s.len(),
    ensures
        i <= scan_model(m, s, i, pending, must).0 <= s.len(),
    decreases s.len() - i,
{
    if i < s.len() {
        match m(s.take(i + 1)) {
            Option::Some(ScannerAction::Request(v)) => lemma_scan_model_bounds(
                m,
                s,
                i + 1,
                Option::Some(v),
                false,
            ),
            Option::Some(ScannerAction::Require) => lemma_scan_model_bounds(
                m,
                s,
                i + 1,
                pending,
                true,
            ),
            _ => {},
        }
    }
}

/// Once a provisional result is pending or an extension is owed, the
/// protocol can no longer finish empty-handed with `Ok(None)`.
pub proof fn lemma_scan_model_committed<T, U>(
    m: spec_fn(Seq<T>) -> Option<ScannerAction<U>>,
    s: Seq<T>,
    i: int,
    pending: Option<U>,
    must: bool,
)
    requires
        0 <= i <= s.len(),
        pending is Some || must,
    ensures
        scan_model(m, s, i, pending, must).1 != Ok::<Option<U>, ScanError>(Option::<U>::None),
    decreases s.len() - i,
{
    if i < s.len() {
        match m(s.take(i + 1)) {
            Option::Some(ScannerAction::Request(v)) => lemma_scan_model_committed(
                m,
                s,
                i + 1,
                Option::Some(v),
                false,
            ),
            Option::Some(ScannerAction::Require) => lemma_scan_model_committed(
                m,
                s,
                i + 1,
                pending,
                true,
            ),
            _ => {},
        }
    }
}

/// A scan that produces a result or fails has consumed at least one element;
/// one that finds no match at all consumes nothing. The latter is the
/// rollback guarantee: a rejected attempt leaves the input exactly as it was.
pub proof fn lemma_scan_result_progress<T, U>(
    m: spec_fn(Seq<T>) -> Option<ScannerAction<U>>,
    s: Seq<T>,
)
    ensures
        scan_result(m, s).1 == Ok::<Option<U>, ScanError>(Option::<U>::None) ==> scan_result(m, s).0 == 0,
        scan_result(m, s).1 != Ok::<Option<U>, ScanError>(Option::<U>::None) ==> 1 <= scan_result(m, s).0 <= s.len(),
{
    if s.len() > 0 {
        match m(s.take(1)) {
            Option::Some(ScannerAction::Request(v)) => {
                lemma_scan_model_committed(m, s, 1, Option::Some(v), false);
                lemma_scan_model_bounds(m, s, 1, Option::Some(v), false);
            },
            Option::Some(ScannerAction::Require) => {
                lemma_scan_model_committed(m, s, 1, Option::<U>::None, true);
                lemma_scan_model_bounds(m, s, 1, Option::<U>::None, true);
            },
            _ => {},
        }
    }
}

/// The outcome of repeatedly scanning with matcher `m` until the input is
/// exhausted or a scan finds no match: the total number of elements consumed,
/// and either the collected results in order or the first error.
///
/// The clamp of the step to at least one element never takes effect (a scan
/// that yields a result consumes at least one element, see
/// `lemma_scan_result_progress`); it only makes termination of the
/// definition evident.
pub open spec fn collect_model<T, U>(
    m: spec_fn(Seq<T>) -> Option<ScannerAction<U>>,
    s: Seq<T>,
) -> (int, Result<Seq<U>, ScanError>)
    decreases s.len(),
{
    if s.len() == 0 {
        (0, Ok(Seq::empty()))
    } else {
        let n = scan_result(m, s).0;
        match scan_result(m, s).1 {
            Err(e) => (n, Err(e)),
            Ok(Option::None) => (0, Ok(Seq::empty())),
            Ok(Option::Some(u)) => {
                let step = if n < 1 {
                    1int
                } else if n > s.len() {
                    s.len() as int
                } else {
                    n
                };
                let rest = collect_model(m, s.skip(step));
                match rest.1 {
                    Err(e) => (step + rest.0, Err(e)),
                    Ok(us) => (step + rest.0, Ok(seq![u] + us)),
                }
            },
        }
    }
}

/// A cursor over a queue of input elements of type `T`. The view is the
/// sequence of elements not yet consumed.
pub struct Scanner<T> {
    toks: std::collections::VecDeque<T>,
}

impl<T> View for Scanner<T> {
    type V = Seq<T>;

    closed spec fn view(&self) -> Seq<T> {
        self.toks@
    }
}

impl<T> Scanner<T> {
    /// A scanner positioned at the start of `toks`.
    pub fn new(toks: std::collections::VecDeque<T>) -> (s: Self)
        ensures
            s@ == toks@,
    {
        Scanner { toks }
    }

    /// True iff no elements remain.
    pub fn is_done(&self) -> (r: bool)
        ensures
            r == (self@.len() == 0),
    {
        self.toks.len() == 0
    }

    /// The next element, without consuming it.
    pub fn peek(&self) -> (r: Option<&T>)
        ensures
            match r {
                Some(t) => self@.len() > 0 && *t == self@[0],
                None => self@.len() == 0,
            },
    {
        if self.toks.len() > 0 {
            Some(&self.toks[0])
        } else {
            None
        }
    }

    /// Consume and return the next element, or nothing at the end.
    pub fn pop(&mut self) -> (r: Option<T>)
        ensures
            match r {
                Some(t) => old(self)@.len() > 0 && t == old(self)@[0] && final(self)@ == old(
                    self,
                )@.skip(1),
                None => old(self)@.len() == 0 && final(self)@ == old(self)@,
            },
    {
        self.toks.pop_front()
    }

    /// True iff an element exists and satisfies the predicate; consumes
    /// nothing.
    pub fn test<F: FnOnce(&T) -> bool>(&self, cb: F) -> (r: bool)
        requires
            forall|x: &T| call_requires(cb, (x,)),
        ensures
            self@.len() == 0 ==> r == false,
            self@.len() > 0 ==> exists|x: &T| *x == self@[0] && call_ensures(cb, (x,), r),
            forall|q: spec_fn(T) -> bool| #[trigger] pred_fits(cb, q) ==> r == (self@.len() > 0
                && q(self@[0])),
    {
        match self.peek() {
            Some(t) => {
                let b = cb(t);
                assert forall|q: spec_fn(T) -> bool| #[trigger] pred_fits(cb, q) implies b == (
                self@.len() > 0 && q(self@[0])) by {
                    assert(call_ensures(cb, (t,), b));
                }
                b
            },
            None => false,
        }
    }

    /// Consume and return the next element iff the predicate holds of it;
    /// otherwise leave the input unchanged.
    pub fn take<F: FnOnce(&T) -> bool>(&mut self, cb: F) -> (r: Option<T>)
        requires
            forall|x: &T| call_requires(cb, (x,)),
        ensures
            r is Some ==> old(self)@.len() > 0 && r == Some(old(self)@[0]) && final(self)@ == old(
                self,
            )@.skip(1),
            r is None ==> final(self)@ == old(self)@,
            forall|q: spec_fn(T) -> bool| #[trigger] pred_fits(cb, q) ==> (r is Some <==> (old(
                self,
            )@.len() > 0 && q(old(self)@[0]))),
    {
        let mut hit = false;
        match self.peek() {
            Some(t) => {
                let b = cb(t);
                assert forall|q: spec_fn(T) -> bool| #[trigger] pred_fits(cb, q) implies b == (
                self@.len() > 0 && q(self@[0])) by {
                    assert(call_ensures(cb, (t,), b));
                }
                hit = b;
            },
            None => {},
        }
        if hit {
            self.pop()
        } else {
            None
        }
    }

    /// If the transformer yields a value on the next element, consume the
    /// element and return the value; otherwise leave the input unchanged.
    pub fn transform<U, F: FnOnce(&T) -> Option<U>>(&mut self, cb: F) -> (r: Option<U>)
        requires
            forall|x: &T| call_requires(cb, (x,)),
        ensures
            r is Some ==> old(self)@.len() > 0 && final(self)@ == old(self)@.skip(1),
            r is None ==> final(self)@ == old(self)@,
            forall|g: spec_fn(T) -> Option<U>| #[trigger] map_fits(cb, g) ==> r == (if old(
                self,
            )@.len() > 0 {
                g(old(self)@[0])
            } else {
                Option::<U>::None
            }),
    {
        let mut res: Option<U> = None;
        match self.peek() {
            Some(t) => {
                let o = cb(t);
                assert forall|g: spec_fn(T) -> Option<U>| #[trigger] map_fits(cb, g) implies o == g(
                    self@[0],
                ) by {
                    assert(call_ensures(cb, (t,), o));
                }
                res = o;
            },
            None => {},
        }
        if res.is_some() {
            let _popped = self.pop();
        }
        res
    }

    /// Consume the maximal run of leading elements satisfying the predicate
    /// (possibly empty) and return them in order. Never consumes an element
    /// that fails the predicate, and never loses input: the result followed
    /// by the remaining elements is the original input.
    pub fn take_while<F: Fn(&T) -> bool>(&mut self, cb: F) -> (res: Vec<T>)
        requires
            forall|x: &T| call_requires(cb, (x,)),
        ensures
            old(self)@ == res@ + final(self)@,
            forall|q: spec_fn(T) -> bool| #[trigger] pred_fits(cb, q) ==> {
                let k = prefix_len_while(old(self)@, q);
                res@ == old(self)@.take(k) && final(self)@ == old(self)@.skip(k)
            },
    {
        let ghost s = self@;
        let mut res: Vec<T> = Vec::new();
        loop
            invariant
                s == old(self)@,
                forall|x: &T| call_requires(cb, (x,)),
                res@.len() <= s.len(),
                res@ == s.take(res@.len() as int),
                self@ == s.skip(res@.len() as int),
                forall|j: int|
                    #![trigger s[j]]
                    0 <= j < res@.len() ==> exists|x: &T|
                        *x == s[j] && #[trigger] call_ensures(cb, (x,), true),
            decreases self@.len(),
        {
            let ghost i = res@.len() as int;
            let mut stop: bool = true;
            let ghost mut saw_false = false;
            match self.peek() {
                Some(t) => {
                    let b = cb(t);
                    proof {
                        if b {
                            assert(exists|x: &T| *x == s[i] && call_ensures(cb, (x,), true)) by {
                                assert(*t == s[i] && call_ensures(cb, (t,), true));
                            }
                        } else {
                            saw_false = true;
                            assert(exists|x: &T| *x == s[i] && call_ensures(cb, (x,), false)) by {
                                assert(*t == s[i] && call_ensures(cb, (t,), false));
                            }
                        }
                    }
                    stop = !b;
                },
                None => {},
            }
            if stop {
                proof {
                    assert forall|q: spec_fn(T) -> bool| #[trigger] pred_fits(cb, q) implies res@
                        == s.take(prefix_len_while(s, q)) && self@ == s.skip(
                        prefix_len_while(s, q),
                    ) by {
                        assert forall|j: int| 0 <= j < i implies q(s[j]) by {
                            let x = choose|x: &T| *x == s[j] && call_ensures(cb, (x,), true);
                            assert(call_ensures(cb, (x,), true));
                        }
                        if i < s.len() {
                            assert(saw_false);
                            let t = choose|t: &T| *t == s[i] && call_ensures(cb, (t,), false);
                            assert(call_ensures(cb, (t,), false));
                            assert(!q(s[i]));
                        }
                        lemma_prefix_len_while_is(s, q, i);
                    }
                    assert(s == res@ + self@) by {
                        assert(s =~= s.take(i) + s.skip(i));
                    }
                }
                return res;
            }
            let popped = self.pop();
            match popped {
                Some(t) => {
                    res.push(t);
                    proof {
                        assert(res@ =~= s.take(res@.len() as int));
                    }
                },
                None => {
                    proof {
                        assert(false);
                    }
                },
            }
        }
    }

    /// Run the lookahead protocol with the given matcher: repeatedly consume
    /// one element, hand the whole prefix consumed so far to the matcher, and
    /// act on its verdict as `scan_model` describes.
    ///
    /// For any spec-level matcher `m` the closure implements, the result and
    /// the consumed prefix are exactly those of `scan_result(m, input)`.
    /// Unconditionally — whatever the closure does — a call that finds no
    /// match (`Ok(None)`) leaves the input exactly as it was: no element is
    /// lost or duplicated.
    pub fn scan<U, F: Fn(&[T]) -> Option<ScannerAction<U>>>(&mut self, cb: &F) -> (r: Result<
        Option<U>,
        ScanError,
    >)
        requires
            forall|p: &[T]| call_requires(*cb, (p,)),
        ensures
            exists|n: int| 0 <= n <= old(self)@.len() && final(self)@ == old(self)@.skip(n),
            r == Ok::<Option<U>, ScanError>(Option::<U>::None) ==> final(self)@ == old(self)@,
            r != Ok::<Option<U>, ScanError>(Option::<U>::None) ==> old(self)@.len() > 0 && final(self)@.len() < old(
                self,
            )@.len(),
            r is Err ==> r == Err::<Option<U>, ScanError>(ScanError::UnexpectedEnd) || r
                == Err::<Option<U>, ScanError>(ScanError::UnexpectedToken),
            forall|m: spec_fn(Seq<T>) -> Option<ScannerAction<U>>|
                #[trigger] matcher_fits::<T, U, F>(*cb, m) ==> final(self)@ == old(self)@.skip(
                    scan_result(m, old(self)@).0,
                ) && r == scan_result(m, old(self)@).1,
    {
        let ghost s = self@;
        let mut sequence: Vec<T> = Vec::new();
        let mut request: Option<U> = None;
        let mut require: bool = false;
        loop
            invariant
                s == old(self)@,
                forall|p: &[T]| call_requires(*cb, (p,)),
                sequence@.len() <= s.len(),
                sequence@ == s.take(sequence@.len() as int),
                self@ == s.skip(sequence@.len() as int),
                (request is None && !require) ==> sequence@.len() == 0,
                request is Some ==> sequence@.len() >= 1,
                require ==> sequence@.len() >= 1,
                forall|m: spec_fn(Seq<T>) -> Option<ScannerAction<U>>|
                    #[trigger] matcher_fits::<T, U, F>(*cb, m) ==> scan_result(m, s) == scan_model(
                        m,
                        s,
                        sequence@.len() as int,
                        request,
                        require,
                    ),
            decreases self@.len(),
        {
            let ghost i = sequence@.len() as int;
            let ghost pend = request;
            let popped = self.pop();
            match popped {
                None => {
                    proof {
                        assert(i == s.len());
                        assert forall|m: spec_fn(Seq<T>) -> Option<ScannerAction<U>>|
                            #[trigger] matcher_fits::<T, U, F>(*cb, m) implies scan_result(m, s)
                            == (
                        i,
                        if require {
                            Err::<Option<U>, ScanError>(ScanError::UnexpectedEnd)
                        } else {
                            Ok::<Option<U>, ScanError>(pend)
                        },
                        ) by {}
                        assert(self@ =~= s.skip(i));
                        assert(exists|n: int| 0 <= n <= s.len() && self@ == s.skip(n)) by {
                            assert(0 <= i <= s.len() && self@ == s.skip(i));
                        }
                        if pend is Some || require {
                            assert(i >= 1);
                        }
                    }
                    if require {
                        return Err(ScanError::UnexpectedEnd);
                    } else {
                        return Ok(request);
                    }
                },
                Some(tok) => {
                    sequence.push(tok);
                    proof {
                        assert(sequence@ =~= s.take(i + 1));
                    }
                    let sl: &[T] = sequence.as_slice();
                    let action = cb(sl);
                    let ghost act = action;
                    proof {
                        assert(call_ensures(*cb, (sl,), act));
                        assert(sl@ == s.take(i + 1));
                    }
                    match action {
                        Option::None => {
                            let t = sequence.pop().unwrap();
                            self.toks.push_front(t);
                            proof {
                                assert(self@ =~= s.skip(i));
                                assert forall|m: spec_fn(Seq<T>) -> Option<ScannerAction<U>>|
                                    #[trigger] matcher_fits::<T, U, F>(*cb, m) implies scan_result(
                                    m,
                                    s,
                                ) == (
                                i,
                                if require {
                                    Err::<Option<U>, ScanError>(ScanError::UnexpectedToken)
                                } else {
                                    Ok::<Option<U>, ScanError>(pend)
                                },
                                ) by {
                                    assert(m(s.take(i + 1)) == act);
                                }
                                assert(exists|n: int| 0 <= n <= s.len() && self@ == s.skip(n))
                                    by {
                                    assert(0 <= i <= s.len() && self@ == s.skip(i));
                                }
                                if pend is Some || require {
                                    assert(i >= 1);
                                    assert(self@.len() == s.len() - i < s.len());
                                }
                            }
                            if require {
                                return Err(ScanError::UnexpectedToken);
                            } else {
                                return Ok(request);
                            }
                        },
                        Option::Some(ScannerAction::Return(v)) => {
                            proof {
                                assert forall|m: spec_fn(Seq<T>) -> Option<ScannerAction<U>>|
                                    #[trigger] matcher_fits::<T, U, F>(*cb, m) implies scan_result(
                                    m,
                                    s,
                                ).0 == i + 1 && scan_result(m, s).1 == Ok::<Option<U>, ScanError>(
                                    Option::Some(v),
                                ) by {
                                    assert(m(s.take(i + 1)) == act);
                                }
                                assert(exists|n: int| 0 <= n <= s.len() && self@ == s.skip(n))
                                    by {
                                    assert(0 <= i + 1 <= s.len() && self@ == s.skip(i + 1));
                                }
                                assert(self@.len() == s.len() - (i + 1) < s.len());
                            }
                            return Ok(Some(v));
                        },
                        Option::Some(ScannerAction::Request(v)) => {
                            proof {
                                assert forall|m: spec_fn(Seq<T>) -> Option<ScannerAction<U>>|
                                    #[trigger] matcher_fits::<T, U, F>(*cb, m) implies scan_model(
                                    m,
                                    s,
                                    i,
                                    pend,
                                    require,
                                ) == scan_model(
                                    m,
                                    s,
                                    i + 1,
                                    Option::Some(v),
                                    false,
                                ) by {
                                    assert(m(s.take(i + 1)) == act);
                                }
                            }
                            require = false;
                            request = Some(v);
                        },
                        Option::Some(ScannerAction::Require) => {
                            proof {
                                assert forall|m: spec_fn(Seq<T>) -> Option<ScannerAction<U>>|
                                    #[trigger] matcher_fits::<T, U, F>(*cb, m) implies scan_model(
                                    m,
                                    s,
                                    i,
                                    pend,
                                    require,
                                ) == scan_model(m, s, i + 1, pend, true) by {
                                    assert(m(s.take(i + 1)) == act);
                                }
                            }
                            require = true;
                        },
                    }
                },
            }
        }
    }

    /// Repeatedly `scan` with the same matcher until the input is exhausted
    /// or a scan finds no match, collecting each result in order; the first
    /// error is propagated.
    pub fn collect<U, F: Fn(&[T]) -> Option<ScannerAction<U>>>(&mut self, cb: &F) -> (r: Result<
        Vec<U>,
        ScanError,
    >)
        requires
            forall|p: &[T]| call_requires(*cb, (p,)),
        ensures
            forall|m: spec_fn(Seq<T>) -> Option<ScannerAction<U>>|
                #[trigger] matcher_fits::<T, U, F>(*cb, m) ==> ({
                    let whole = collect_model(m, old(self)@);
                    final(self)@ == old(self)@.skip(whole.0) && (match r {
                        Ok(us) => whole.1 == Ok::<Seq<U>, ScanError>(us@),
                        Err(e) => whole.1 == Err::<Seq<U>, ScanError>(e),
                    })
                }),
    {
        let ghost s = self@;
        let ghost mut c: int = 0;
        let mut res: Vec<U> = Vec::new();
        loop
            invariant
                s == old(self)@,
                forall|p: &[T]| call_requires(*cb, (p,)),
                0 <= c <= s.len(),
                self@ == s.skip(c),
                forall|m: spec_fn(Seq<T>) -> Option<ScannerAction<U>>|
                    #[trigger] matcher_fits::<T, U, F>(*cb, m) ==> ({
                        let whole = collect_model(m, s);
                        let rest = collect_model(m, self@);
                        whole.0 == c + rest.0 && whole.1 == (match rest.1 {
                            Ok(us) => Ok::<Seq<U>, ScanError>(res@ + us),
                            Err(e) => Err::<Seq<U>, ScanError>(e),
                        })
                    }),
            decreases self@.len(),
        {
            if self.is_done() {
                proof {
                    assert forall|m: spec_fn(Seq<T>) -> Option<ScannerAction<U>>|
                        #[trigger] matcher_fits::<T, U, F>(*cb, m) implies ({
                        let whole = collect_model(m, s);
                        final(self)@ == s.skip(whole.0) && whole.1 == Ok::<Seq<U>, ScanError>(res@)
                    }) by {
                        assert(collect_model(m, self@) == (0int, Ok::<Seq<U>, ScanError>(
                            Seq::<U>::empty(),
                        )));
                        assert(res@ + Seq::<U>::empty() =~= res@);
                    }
                }
                return Ok(res);
            }
            let ghost pre = self@;
            let ghost c0 = c;
            let scanned = self.scan(cb);
            proof {
                let n = choose|n: int| 0 <= n <= pre.len() && self@ == pre.skip(n);
                assert(self@ == s.skip(c + n)) by {
                    assert(pre.skip(n) =~= s.skip(c + n));
                }
                c = c + n;
                assert(c == s.len() - self@.len());
            }
            match scanned {
                Err(e) => {
                    proof {
                        assert forall|m: spec_fn(Seq<T>) -> Option<ScannerAction<U>>|
                            #[trigger] matcher_fits::<T, U, F>(*cb, m) implies ({
                            let whole = collect_model(m, s);
                            final(self)@ == s.skip(whole.0) && whole.1 == Err::<
                                Seq<U>,
                                ScanError,
                            >(e)
                        }) by {
                            let n = scan_result(m, pre).0;
                            lemma_scan_model_bounds(m, pre, 0, Option::<U>::None, false);
                            assert(self@ == pre.skip(n));
                            assert(pre.skip(n) =~= s.skip(c0 + n));
                            assert(collect_model(m, pre) == (n, Err::<Seq<U>, ScanError>(e)));
                        }
                    }
                    return Err(e);
                },
                Ok(None) => {
                    proof {
                        assert forall|m: spec_fn(Seq<T>) -> Option<ScannerAction<U>>|
                            #[trigger] matcher_fits::<T, U, F>(*cb, m) implies ({
                            let whole = collect_model(m, s);
                            final(self)@ == s.skip(whole.0) && whole.1 == Ok::<Seq<U>, ScanError>(
                                res@,
                            )
                        }) by {
                            assert(collect_model(m, pre) == (0int, Ok::<Seq<U>, ScanError>(
                                Seq::<U>::empty(),
                            )));
                            assert(res@ + Seq::<U>::empty() =~= res@);
                        }
                    }
                    return Ok(res);
                },
                Ok(Some(u)) => {
                    let ghost old_res = res@;
                    res.push(u);
                    proof {
                        assert forall|m: spec_fn(Seq<T>) -> Option<ScannerAction<U>>|
                            #[trigger] matcher_fits::<T, U, F>(*cb, m) implies ({
                            let whole = collect_model(m, s);
                            let rest = collect_model(m, self@);
                            whole.0 == c + rest.0 && whole.1 == (match rest.1 {
                                Ok(us) => Ok::<Seq<U>, ScanError>(res@ + us),
                                Err(e) => Err::<Seq<U>, ScanError>(e),
                            })
                        }) by {
                            let n = scan_result(m, pre).0;
                            lemma_scan_result_progress(m, pre);
                            assert(1 <= n <= pre.len());
                            assert(self@ == pre.skip(n));
                            assert(pre.skip(n) =~= s.skip(c0 + n));
                            assert(c == c0 + n);
                            let rest = collect_model(m, self@);
                            assert(collect_model(m, pre).0 == n + rest.0);
                            match rest.1 {
                                Ok(us) => {
                                    assert(collect_model(m, pre).1 == Ok::<Seq<U>, ScanError>(
                                        seq![u] + us,
                                    ));
                                    assert(old_res + (seq![u] + us) =~= res@ + us);
                                },
                                Err(_) => {},
                            }
                        }
                    }
                },
            }
        }
    }

    /// The number of elements that remain.
    pub(crate) fn remaining_len(&self) -> (n: usize)
        ensures
            n == self@.len(),
    {
        self.toks.len()
    }
}

/// The elements of a vector as a queue, in the same order.
pub(crate) fn queue_of_vec<T>(v: Vec<T>) -> (d: std::collections::VecDeque<T>)
    ensures
        d@ == v@,
{
    let ghost orig = v@;
    let mut rest = v;
    let mut d = std::collections::VecDeque::<T>::new();
    loop
        invariant
            orig == v@,
            orig == rest@ + d@,
        decreases rest@.len(),
    {
        let ghost v0 = rest@;
        let ghost d0 = d@;
        match rest.pop() {
            None => {
                proof {
                    assert(rest@ + d@ =~= d@);
                }
                return d;
            },
            Some(t) => {
                d.push_front(t);
                proof {
                    assert((rest@ + d@) =~= (v0 + d0)) by {
                        assert(rest@ == v0.drop_last());
                        assert(t == v0.last());
                    }
                }
            },
        }
    }
}

} // verus!
