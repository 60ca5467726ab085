use vstd::prelude::*;

use crate::scan::{
    complete_at_end, finish_st, init_st, is_ws, m_matched, m_step, next_spec, run1, step, drain,
    fresh_matcher, MatcherSt, Quotes, SkipSt, St,
};

verus! {

/// Detects the closing line of a heredoc: accumulates the delimiter from the
/// heredoc's opening line, then scans the body for a full match of it.
pub struct EofMatcher {
    eof: Vec<u8>,
    complete: bool,
    match_idx: usize,
}

impl EofMatcher {
    /// The mathematical state this matcher is in.
    pub closed spec fn m(self) -> MatcherSt {
        MatcherSt { delim: self.eof@, complete: self.complete, match_idx: self.match_idx as nat }
    }

    pub fn new() -> (r: Self)
        ensures
            r.m() == fresh_matcher(),
    {
        let r = EofMatcher { eof: Vec::new(), complete: false, match_idx: 0 };
        proof {
            assert(r.m() =~= fresh_matcher());
        }
        r
    }

    /// Feeds one byte to the matcher; the result says whether the delimiter
    /// has just been matched in the body, closing the heredoc.
    pub fn next(&mut self, c: u8) -> (r: bool)
        ensures
            final(self).m() == m_step(old(self).m(), c),
            r == m_matched(final(self).m()),
    {
        if self.complete && self.match_idx < self.eof.len() && self.eof[self.match_idx] == c {
            self.match_idx += 1;
        } else if self.complete {
            self.match_idx = 0;
        } else if c == 0x0au8 {
            self.complete = true;
        } else if !self.eof.is_empty() || !is_ws_exec(c) {
            self.eof.push(c);
        }
        proof {
            assert(self.m() =~= m_step(old(self).m(), c));
        }
        self.complete && self.match_idx == self.eof.len()
    }
}

/// Whether the scanner treats `c` as whitespace.
fn is_ws_exec(c: u8) -> (r: bool)
    ensures
        r == is_ws(c),
{
    c == 0x09 || c == 0x0a || c == 0x0b || c == 0x0c || c == 0x0d || c == 0x20 || c == 0x85
        || c == 0xa0
}

/// Whether an optional byte is exactly `b`.
fn opt_is(o: Option<u8>, b: u8) -> (r: bool)
    ensures
        r == (o == Some(b)),
{
    match o {
        Some(x) => x == b,
        None => false,
    }
}

/// Whether the previous byte puts the scanner at the start of a word, where a
/// `#` begins a comment.
fn at_word_start(o: Option<u8>) -> (r: bool)
    ensures
        r == (o is None || o == Some(0x20u8) || o == Some(0x0au8)),
{
    match o {
        Some(x) => x == 0x20u8 || x == 0x0au8,
        None => true,
    }
}

/// A byte buffer read front to back, remembering the byte before the one last
/// read and showing the byte after it without consuming.
pub struct RearPeekable {
    bytes: Vec<u8>,
    pos: usize,
}

impl RearPeekable {
    pub closed spec fn bytes_spec(self) -> Seq<u8> {
        self.bytes@
    }

    pub closed spec fn pos_spec(self) -> int {
        self.pos as int
    }

    pub open spec fn wf(self) -> bool {
        self.pos_spec() <= self.bytes_spec().len()
    }

    pub fn new(bytes: Vec<u8>) -> (r: Self)
        ensures
            r.bytes_spec() == bytes@,
            r.pos_spec() == 0,
            r.wf(),
    {
        RearPeekable { bytes, pos: 0 }
    }

    /// Reads the next byte, if any is left.
    pub fn next(&mut self) -> (r: Option<u8>)
        requires
            old(self).wf(),
        ensures
            final(self).bytes_spec() == old(self).bytes_spec(),
            final(self).wf(),
            if old(self).pos_spec() < old(self).bytes_spec().len() {
                r == Some(old(self).bytes_spec()[old(self).pos_spec()]) && final(self).pos_spec()
                    == old(self).pos_spec() + 1
            } else {
                r is None && final(self).pos_spec() == old(self).pos_spec()
            },
    {
        if self.pos < self.bytes.len() {
            let b = self.bytes[self.pos];
            self.pos += 1;
            Some(b)
        } else {
            None
        }
    }

    /// The next byte, without consuming it.
    pub fn peek(&self) -> (r: Option<u8>)
        requires
            self.wf(),
        ensures
            r == (if self.pos_spec() < self.bytes_spec().len() {
                Some(self.bytes_spec()[self.pos_spec()])
            } else {
                None::<u8>
            }),
    {
        if self.pos < self.bytes.len() {
            Some(self.bytes[self.pos])
        } else {
            None
        }
    }

    /// The byte before the one last read, if two have been read.
    pub fn prev(&self) -> (r: Option<u8>)
        requires
            self.wf(),
        ensures
            r == (if self.pos_spec() >= 2 {
                Some(self.bytes_spec()[self.pos_spec() - 2])
            } else {
                None::<u8>
            }),
    {
        if self.pos >= 2 {
            Some(self.bytes[self.pos - 2])
        } else {
            None
        }
    }

    /// Appends more input to the buffer, leaving the read position alone.
    pub fn extend(&mut self, more: Vec<u8>)
        requires
            old(self).wf(),
        ensures
            final(self).bytes_spec() == old(self).bytes_spec() + more@,
            final(self).pos_spec() == old(self).pos_spec(),
            final(self).wf(),
    {
        let mut more = more;
        self.bytes.append(&mut more);
    }
}

/// Buffers a statement until it can be terminated: consumes a byte stream,
/// emits the cleaned statement bytes, and decides whether the statement is
/// syntactically complete.
pub struct Terminator {
    inner: RearPeekable,
    eof: Option<EofMatcher>,
    array: usize,
    skip_next: bool,
    quotes: Quotes,
    terminated: bool,
    and_or: bool,
    whitespace: bool,
    skip: SkipSt,
}

impl Terminator {
    /// The input bytes this terminator reads.
    pub closed spec fn input(self) -> Seq<u8> {
        self.inner.bytes_spec()
    }

    /// The index of the next unread input byte.
    pub closed spec fn pos(self) -> int {
        self.inner.pos_spec()
    }

    /// The scanner state this terminator is in, as seen just before reading
    /// the byte at index `i`.
    pub closed spec fn st_i(self, i: int) -> St {
        St {
            quotes: self.quotes,
            array: self.array as nat,
            eof: match self.eof {
                Some(m) => Some(m.m()),
                None => None,
            },
            skip_next: self.skip_next,
            and_or: self.and_or,
            whitespace: self.whitespace,
            terminated: self.terminated,
            skip: self.skip,
            prev: if i >= 1 {
                Some(self.input()[i - 1])
            } else {
                None
            },
        }
    }

    /// The scanner state this terminator is in.
    pub closed spec fn st(self) -> St {
        self.st_i(self.pos())
    }

    pub closed spec fn wf(self) -> bool {
        0 <= self.pos() <= self.input().len() && self.array as int <= self.pos()
    }

    pub fn new(inner: Vec<u8>) -> (r: Terminator)
        ensures
            r.input() == inner@,
            r.pos() == 0,
            r.st() == init_st(),
            r.wf(),
    {
        let r = Terminator {
            inner: RearPeekable::new(inner),
            eof: None,
            array: 0,
            skip_next: false,
            quotes: Quotes::Outside,
            terminated: false,
            and_or: false,
            whitespace: true,
            skip: SkipSt::NoSkip,
        };
        proof {
            assert(r.st() =~= init_st());
        }
        r
    }

    /// Appends another line of input, so that an incomplete statement can be
    /// continued without discarding the state built up so far.
    pub fn push_bytes(&mut self, more: Vec<u8>)
        requires
            old(self).wf(),
        ensures
            final(self).input() == old(self).input() + more@,
            final(self).pos() == old(self).pos(),
            final(self).wf(),
            final(self).st_i(final(self).pos()) == old(self).st_i(old(self).pos()),
    {
        self.inner.extend(more);
        proof {
            assert(final(self).st_i(final(self).pos()) =~= old(self).st_i(old(self).pos()));
        }
    }

    /// Dispatches one already-read byte: `character` must be the byte at
    /// index `pos - 1`. Returns the byte to emit, if any.
    fn handle_char(&mut self, character: Option<u8>) -> (out: Option<u8>)
        requires
            old(self).wf(),
            !old(self).terminated,
            character is Some ==> old(self).pos() >= 1 && character == Some(
                old(self).input()[old(self).pos() - 1],
            ) && old(self).array as int <= old(self).pos() - 1,
        ensures
            final(self).input() == old(self).input(),
            final(self).pos() == old(self).pos(),
            final(self).wf(),
            character is None ==> *final(self) == *old(self) && out is None,
            character matches Some(c) ==> {
                let pk = if old(self).pos() < old(self).input().len() {
                    Some(old(self).input()[old(self).pos()])
                } else {
                    None
                };
                let r = step(old(self).st_i(old(self).pos() - 1), c, pk);
                out == r.1 && final(self).st_i(final(self).pos()) == r.0
            },
    {
        let character = match character {
            None => {
                return None;
            },
            Some(c) => c,
        };
        let ghost pre = old(self).st_i(old(self).pos() - 1);
        let ghost pk_g = if old(self).pos() < old(self).input().len() {
            Some(old(self).input()[old(self).pos()])
        } else {
            None::<u8>
        };

        // A skip span either swallows this byte or ends here and falls through
        // to the normal dispatch.
        match self.skip {
            SkipSt::NoSkip => {},
            SkipSt::Comment => {
                if character != 0x0au8 {
                    proof {
                        assert(self.st_i(self.pos()) =~= step(pre, character, pk_g).0);
                    }
                    return None;
                }
                self.skip = SkipSt::NoSkip;
            },
            SkipSt::ContWs => {
                if is_ws_exec(character) {
                    proof {
                        assert(self.st_i(self.pos()) =~= step(pre, character, pk_g).0);
                    }
                    return None;
                }
                self.skip = SkipSt::NoSkip;
            },
            SkipSt::WsRun => {
                if is_ws_exec(character) && character != 0x0au8 {
                    proof {
                        assert(self.st_i(self.pos()) =~= step(pre, character, pk_g).0);
                    }
                    return None;
                }
                self.skip = SkipSt::NoSkip;
            },
        }
        let ghost nrm = St { skip: SkipSt::NoSkip, ..pre };
        proof {
            assert(nrm =~= St { skip: SkipSt::NoSkip, ..pre });
            assert(step(pre, character, pk_g) == crate::scan::step_nrm(nrm, character, pk_g));
        }

        let prev_whitespace = self.whitespace;
        self.whitespace = false;

        let out: Option<u8>;
        if self.eof.is_some() {
            let mut closed = false;
            match &mut self.eof {
                Some(matcher) => {
                    closed = matcher.next(character);
                },
                None => {},
            }
            if closed {
                self.eof = None;
            }
            out = Some(character);
        } else if self.skip_next {
            self.skip_next = false;
            out = Some(character);
        } else if self.quotes != Quotes::Outside && character != 0x5cu8 {
            if (character == 0x27u8 && self.quotes == Quotes::Single) || (character == 0x22u8
                && self.quotes == Quotes::Double) {
                self.quotes = Quotes::Outside;
            }
            out = Some(character);
        } else if character == 0x27u8 {
            self.quotes = Quotes::Single;
            out = Some(character);
        } else if character == 0x22u8 {
            self.quotes = Quotes::Double;
            out = Some(character);
        } else if character == 0x3cu8 && opt_is(self.inner.prev(), 0x3cu8) {
            if opt_is(self.inner.peek(), 0x3cu8) {
                self.skip_next = true;
            } else {
                self.eof = Some(EofMatcher::new());
            }
            out = Some(character);
        } else if character == 0x5bu8 {
            self.array += 1;
            out = Some(character);
        } else if character == 0x5du8 {
            if self.array > 0 {
                self.array -= 1;
            }
            out = Some(character);
        } else if character == 0x23u8 && at_word_start(self.inner.prev()) {
            self.whitespace = prev_whitespace;
            self.skip = SkipSt::Comment;
            out = None;
        } else if character == 0x5cu8 {
            if opt_is(self.inner.peek(), 0x0au8) {
                self.skip = SkipSt::ContWs;
                out = None;
            } else {
                self.skip_next = true;
                out = Some(character);
            }
        } else if (character == 0x26u8 || character == 0x7cu8) && opt_is(self.inner.prev(), character) {
            self.and_or = true;
            out = Some(character);
        } else if character == 0x0au8 && self.array == 0 && !self.and_or {
            self.terminated = true;
            out = None;
        } else if is_ws_exec(character) {
            if prev_whitespace {
                self.skip = SkipSt::WsRun;
                out = None;
            } else {
                self.whitespace = true;
                out = Some(0x20u8);
            }
        } else {
            self.and_or = false;
            out = Some(character);
        }
        proof {
            assert(self.st_i(self.pos()) =~= crate::scan::step_nrm(nrm, character, pk_g).0);
        }
        out
    }

    /// Reads until a cleaned byte comes out, the statement terminates, or the
    /// input runs dry. Yields nothing once the statement has terminated or
    /// when the remaining input emits nothing.
    pub fn next(&mut self) -> (r: Option<u8>)
        requires
            old(self).wf(),
        ensures
            final(self).input() == old(self).input(),
            final(self).wf(),
            ({
                let ns = next_spec(old(self).st(), old(self).input(), old(self).pos());
                r == ns.1 && final(self).st() == ns.0 && final(self).pos() == ns.2
            }),
    {
        if self.terminated {
            return None;
        }
        let ghost input = self.input();
        let ghost st0 = self.st();
        let ghost i0 = self.pos();
        loop
            invariant
                self.wf(),
                self.input() == input,
                !self.terminated,
                input == old(self).input(),
                st0 == old(self).st(),
                i0 == old(self).pos(),
                !st0.terminated,
                run1(st0, input, i0) == run1(self.st(), input, self.pos()),
            decreases input.len() - self.pos(),
        {
            let ghost pre = self.st();
            let ghost i = self.pos();
            let next = self.inner.next();
            let out = self.handle_char(next);
            if next.is_none() {
                // End of input: declare the statement terminated when nothing
                // is left open.
                if self.eof.is_none() && self.array == 0 && self.quotes == Quotes::Outside
                    && !self.and_or {
                    self.terminated = true;
                }
                proof {
                    assert(run1(pre, input, i) == (pre, None::<u8>, i));
                    assert(self.st() =~= finish_st(pre));
                }
                return None;
            }
            proof {
                let pk = if i + 1 < input.len() {
                    Some(input[i + 1])
                } else {
                    None::<u8>
                };
                assert(self.st() == step(pre, input[i], pk).0);
                if out is Some {
                    assert(run1(pre, input, i) == (self.st(), out, self.pos()));
                } else if self.st().terminated {
                    assert(run1(pre, input, i) == (self.st(), None::<u8>, self.pos()));
                    assert(finish_st(self.st()) =~= self.st());
                } else {
                    assert(run1(pre, input, i) == run1(self.st(), input, self.pos()));
                }
            }
            if out.is_some() {
                return out;
            }
            if self.terminated {
                return None;
            }
        }
    }

    /// Drains the stream and returns the accumulated cleaned statement bytes
    /// if and only if the statement terminated; otherwise the caller must
    /// supply more input.
    pub fn terminate(&mut self) -> (r: Result<Vec<u8>, ()>)
        requires
            old(self).wf(),
        ensures
            final(self).input() == old(self).input(),
            final(self).wf(),
            ({
                let d = drain(old(self).st(), old(self).input(), old(self).pos());
                &&& final(self).st() == d.0
                &&& final(self).pos() == d.2
                &&& (r is Ok <==> d.0.terminated)
                &&& (r matches Ok(v) ==> v@ == d.1)
            }),
    {
        let ghost input = self.input();
        let ghost st0 = self.st();
        let ghost i0 = self.pos();
        let mut stmt: Vec<u8> = Vec::new();
        loop
            invariant_except_break
                ({
                    let d0 = drain(st0, input, i0);
                    let d = drain(self.st(), input, self.pos());
                    d0.0 == d.0 && d0.1 == stmt@ + d.1 && d0.2 == d.2
                }),
            invariant
                self.wf(),
                self.input() == input,
                input == old(self).input(),
                st0 == old(self).st(),
                i0 == old(self).pos(),
            ensures
                drain(st0, input, i0) == (self.st(), stmt@, self.pos()),
            decreases input.len() - self.pos() + (if self.st().terminated {
                0int
            } else {
                1int
            }),
        {
            let ghost pre = self.st();
            let ghost i = self.pos();
            proof {
                if !pre.terminated {
                    crate::scan::lemma_run1_bounds(pre, input, i);
                }
            }
            let out = self.next();
            match out {
                Some(b) => {
                    stmt.push(b);
                    proof {
                        assert(drain(st0, input, i0).1 =~= stmt@ + drain(
                            self.st(),
                            input,
                            self.pos(),
                        ).1);
                    }
                },
                None => {
                    proof {
                        let ns = next_spec(pre, input, i);
                        if pre.terminated {
                            assert(drain(pre, input, i) == (pre, Seq::<u8>::empty(), i));
                        } else {
                            let r1 = run1(pre, input, i);
                            assert(drain(pre, input, i) == (ns.0, Seq::<u8>::empty(), ns.2));
                            if self.st().terminated {
                                assert(drain(self.st(), input, self.pos()) == (
                                    self.st(),
                                    Seq::<u8>::empty(),
                                    self.pos(),
                                ));
                            } else {
                                // The read stopped at the end of the input and
                                // nothing was left to declare complete.
                                assert(self.pos() == input.len());
                                assert(run1(self.st(), input, self.pos()) == (
                                    self.st(),
                                    None::<u8>,
                                    self.pos(),
                                ));
                                assert(!complete_at_end(self.st()));
                                assert(finish_st(self.st()) == self.st());
                                assert(drain(self.st(), input, self.pos()) == (
                                    self.st(),
                                    Seq::<u8>::empty(),
                                    self.pos(),
                                ));
                            }
                        }
                        assert(drain(st0, input, i0).1 =~= stmt@ + Seq::<u8>::empty());
                        assert(drain(st0, input, i0).1 =~= stmt@);
                    }
                    break;
                },
            }
        }
        if self.terminated {
            Ok(stmt)
        } else {
            Err(())
        }
    }
}

} // verus!
