use vstd::prelude::*;

verus! {

/// Quote context the statement scanner is in.
#[derive(Clone, Copy, Debug, PartialEq, Eq, Structural)]
pub enum Quotes {
    Single,
    Double,
    Outside,
}

/// Multi-byte span the scanner is currently discarding: a comment up to the
/// next newline, the whitespace after an escaped newline, or a redundant
/// whitespace run.
#[derive(Clone, Copy, Debug, PartialEq, Eq, Structural)]
pub enum SkipSt {
    NoSkip,
    Comment,
    ContWs,
    WsRun,
}

/// Mathematical state of a heredoc delimiter matcher: the delimiter text seen
/// so far, whether the delimiter line has ended, and how many delimiter bytes
/// of a candidate terminator have matched.
#[verifier::ext_equal]
pub struct MatcherSt {
    pub delim: Seq<u8>,
    pub complete: bool,
    pub match_idx: nat,
}

/// Mathematical state of the statement scanner.
#[verifier::ext_equal]
pub struct St {
    pub quotes: Quotes,
    pub array: nat,
    pub eof: Option<MatcherSt>,
    pub skip_next: bool,
    pub and_or: bool,
    pub whitespace: bool,
    pub terminated: bool,
    pub skip: SkipSt,
    pub prev: Option<u8>,
}

/// Bytes that the scanner treats as whitespace: the Latin-1 code points with
/// the Unicode white-space property.
pub open spec fn is_ws(b: u8) -> bool {
    b == 0x09 || b == 0x0a || b == 0x0b || b == 0x0c || b == 0x0d || b == 0x20 || b == 0x85
        || b == 0xa0
}

/// One byte fed to a heredoc matcher: while the delimiter line is still being
/// read, non-leading-whitespace bytes accumulate the delimiter and a newline
/// completes it; afterwards each byte advances or resets the match cursor.
pub open spec fn m_step(m: MatcherSt, b: u8) -> MatcherSt {
    if m.complete && m.match_idx < m.delim.len() && m.delim[m.match_idx as int] == b {
        MatcherSt { match_idx: m.match_idx + 1, ..m }
    } else if m.complete {
        MatcherSt { match_idx: 0, ..m }
    } else if b == 0x0a {
        MatcherSt { complete: true, ..m }
    } else if m.delim.len() > 0 || !is_ws(b) {
        MatcherSt { delim: m.delim.push(b), ..m }
    } else {
        m
    }
}

/// The matcher has seen the whole delimiter again: the heredoc body is closed.
pub open spec fn m_matched(m: MatcherSt) -> bool {
    m.complete && m.match_idx == m.delim.len()
}

/// The matcher state a newly opened heredoc starts with.
pub open spec fn fresh_matcher() -> MatcherSt {
    MatcherSt { delim: Seq::empty(), complete: false, match_idx: 0 }
}

/// The scanner's per-byte dispatch outside any skip span, in priority order:
/// heredoc body, one-byte escape, quote context, then the special characters.
/// `b` is the current byte, `pk` the byte after it (if any). The result is the
/// next state and the byte emitted, if one is.
pub open spec fn step_nrm(st: St, b: u8, pk: Option<u8>) -> (St, Option<u8>) {
    let pw = st.whitespace;
    let s = St { whitespace: false, prev: Some(b), skip: SkipSt::NoSkip, ..st };
    match st.eof {
        Some(m) => {
            let m2 = m_step(m, b);
            if m_matched(m2) {
                (St { eof: None, ..s }, Some(b))
            } else {
                (St { eof: Some(m2), ..s }, Some(b))
            }
        },
        None => {
            if st.skip_next {
                (St { skip_next: false, ..s }, Some(b))
            } else if st.quotes != Quotes::Outside && b != 0x5c {
                let q2 = if (b == 0x27 && st.quotes == Quotes::Single) || (b == 0x22
                    && st.quotes == Quotes::Double) {
                    Quotes::Outside
                } else {
                    st.quotes
                };
                (St { quotes: q2, ..s }, Some(b))
            } else if b == 0x27 {
                (St { quotes: Quotes::Single, ..s }, Some(b))
            } else if b == 0x22 {
                (St { quotes: Quotes::Double, ..s }, Some(b))
            } else if b == 0x3c && st.prev == Some(0x3cu8) {
                if pk == Some(0x3cu8) {
                    (St { skip_next: true, ..s }, Some(b))
                } else {
                    (St { eof: Some(fresh_matcher()), ..s }, Some(b))
                }
            } else if b == 0x5b {
                (St { array: st.array + 1, ..s }, Some(b))
            } else if b == 0x5d {
                let a2: nat = if st.array > 0 {
                    (st.array - 1) as nat
                } else {
                    0
                };
                (St { array: a2, ..s }, Some(b))
            } else if b == 0x23 && (st.prev is None || st.prev == Some(0x20u8) || st.prev == Some(
                0x0au8,
            )) {
                (St { whitespace: pw, skip: SkipSt::Comment, ..s }, None)
            } else if b == 0x5c {
                if pk == Some(0x0au8) {
                    (St { skip: SkipSt::ContWs, ..s }, None)
                } else {
                    (St { skip_next: true, ..s }, Some(b))
                }
            } else if (b == 0x26 || b == 0x7c) && st.prev == Some(b) {
                (St { and_or: true, ..s }, Some(b))
            } else if b == 0x0a && st.array == 0 && !st.and_or {
                (St { terminated: true, ..s }, None)
            } else if is_ws(b) {
                if pw {
                    (St { skip: SkipSt::WsRun, ..s }, None)
                } else {
                    (St { whitespace: true, ..s }, Some(0x20u8))
                }
            } else {
                (St { and_or: false, ..s }, Some(b))
            }
        },
    }
}

/// One byte of input: a skip span swallows bytes until its ending byte, which
/// is then dispatched normally; outside a skip span the byte is dispatched
/// directly.
pub open spec fn step(st: St, b: u8, pk: Option<u8>) -> (St, Option<u8>) {
    match st.skip {
        SkipSt::NoSkip => step_nrm(st, b, pk),
        SkipSt::Comment => if b != 0x0a {
            (St { prev: Some(b), ..st }, None)
        } else {
            step_nrm(St { skip: SkipSt::NoSkip, ..st }, b, pk)
        },
        SkipSt::ContWs => if is_ws(b) {
            (St { prev: Some(b), ..st }, None)
        } else {
            step_nrm(St { skip: SkipSt::NoSkip, ..st }, b, pk)
        },
        SkipSt::WsRun => if is_ws(b) && b != 0x0a {
            (St { prev: Some(b), ..st }, None)
        } else {
            step_nrm(St { skip: SkipSt::NoSkip, ..st }, b, pk)
        },
    }
}

/// The state a freshly constructed scanner starts in.
pub open spec fn init_st() -> St {
    St {
        quotes: Quotes::Outside,
        array: 0,
        eof: None,
        skip_next: false,
        and_or: false,
        whitespace: true,
        terminated: false,
        skip: SkipSt::NoSkip,
        prev: None,
    }
}

/// At end of input, a statement is complete when nothing is left open: no
/// heredoc, no bracket, no quote, no pending logical operator.
pub open spec fn complete_at_end(st: St) -> bool {
    st.eof is None && st.array == 0 && st.quotes == Quotes::Outside && !st.and_or
}

/// Runs the scanner over `input[i..j)`, stopping early only at termination.
/// Returns the final state and the emitted bytes.
pub open spec fn run_seg(st: St, input: Seq<u8>, i: int, j: int) -> (St, Seq<u8>)
    decreases j - i,
{
    if st.terminated || !(0 <= i < j <= input.len()) {
        (st, Seq::empty())
    } else {
        let pk = if i + 1 < input.len() {
            Some(input[i + 1])
        } else {
            None
        };
        let r = step(st, input[i], pk);
        let rest = run_seg(r.0, input, i + 1, j);
        let em = match r.1 {
            Some(b) => seq![b],
            None => Seq::empty(),
        };
        (rest.0, em + rest.1)
    }
}

/// Runs the scanner from `input[i]` to the end of the input.
pub open spec fn run_from(st: St, input: Seq<u8>, i: int) -> (St, Seq<u8>) {
    run_seg(st, input, i, input.len() as int)
}

/// The whole scan of an input from the initial state.
pub open spec fn scan(input: Seq<u8>) -> (St, Seq<u8>) {
    run_from(init_st(), input, 0)
}

/// Runs the scanner from `input[i]` until the first emitted byte, termination,
/// or the end of the input, whichever comes first. Returns the state, the
/// emitted byte if one was, and the index of the next unread byte. This is the
/// span of input that one successful read from the scanner consumes.
pub open spec fn run1(st: St, input: Seq<u8>, i: int) -> (St, Option<u8>, int)
    decreases input.len() - i,
{
    if st.terminated || !(0 <= i < input.len()) {
        (st, None, i)
    } else {
        let pk = if i + 1 < input.len() {
            Some(input[i + 1])
        } else {
            None
        };
        let r = step(st, input[i], pk);
        if r.1 is Some || r.0.terminated {
            (r.0, r.1, i + 1)
        } else {
            run1(r.0, input, i + 1)
        }
    }
}

/// The state adjustment a scanner applies when a read yields nothing: if
/// nothing is left open, the statement is declared terminated.
pub open spec fn finish_st(st: St) -> St {
    if complete_at_end(st) {
        St { terminated: true, ..st }
    } else {
        st
    }
}

/// What one read from the scanner does: the `run1` span, then the end-of-read
/// adjustment when no byte came out.
pub open spec fn next_spec(st: St, input: Seq<u8>, i: int) -> (St, Option<u8>, int) {
    if st.terminated {
        (st, None, i)
    } else {
        let r = run1(st, input, i);
        match r.1 {
            Some(_) => r,
            None => (finish_st(r.0), None, r.2),
        }
    }
}

/// What draining the scanner does: reads until one yields nothing, collecting
/// the emitted bytes.
pub open spec fn drain(st: St, input: Seq<u8>, i: int) -> (St, Seq<u8>, int)
    decreases input.len() - i,
{
    if st.terminated {
        (st, Seq::empty(), i)
    } else {
        let r = next_spec(st, input, i);
        match r.1 {
            None => (r.0, Seq::empty(), r.2),
            Some(b) => if i < r.2 <= input.len() {
                let rest = drain(r.0, input, r.2);
                (rest.0, seq![b] + rest.1, rest.2)
            } else {
                (r.0, seq![b], r.2)
            },
        }
    }
}

/// One read consumes at least one byte when it emits one, and never runs past
/// the end of the input.
pub proof fn lemma_run1_bounds(st: St, input: Seq<u8>, i: int)
    requires
        0 <= i <= input.len(),
    ensures
        ({
            let r = run1(st, input, i);
            &&& i <= r.2 <= input.len()
            &&& (r.1 is Some ==> r.2 > i)
            &&& (r.1 is None && !r.0.terminated ==> r.2 == input.len())
        }),
    decreases input.len() - i,
{
    if !st.terminated && 0 <= i < input.len() {
        let pk = if i + 1 < input.len() {
            Some(input[i + 1])
        } else {
            None
        };
        let r = step(st, input[i], pk);
        if !(r.1 is Some || r.0.terminated) {
            lemma_run1_bounds(r.0, input, i + 1);
        }
    }
}

} // verus!
