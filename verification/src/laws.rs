use vstd::prelude::*;

use crate::scan::{
    complete_at_end, drain, finish_st, init_st, is_ws, next_spec, run1, run_from, run_seg, scan,
    step, Quotes, SkipSt, St,
};

verus! {

/// The scanner state is quiet: no quote, heredoc, pending escape or skip span
/// is open, and the statement has not terminated.
pub open spec fn ready(st: St) -> bool {
    st.quotes == Quotes::Outside && st.eof is None && !st.skip_next && !st.terminated && st.skip
        == SkipSt::NoSkip
}

/// A byte with no lexical role: not whitespace, not a quote, bracket,
/// heredoc, comment, escape, operator or newline character.
pub open spec fn plain_byte(b: u8) -> bool {
    !is_ws(b) && b != 0x27 && b != 0x22 && b != 0x3c && b != 0x5b && b != 0x5d && b != 0x23 && b
        != 0x5c && b != 0x26 && b != 0x7c && b != 0x0a
}

/// Scanning a span in two parts is scanning it in one.
pub proof fn lemma_run_seg_compose(st: St, input: Seq<u8>, i: int, j: int, k: int)
    requires
        0 <= i <= j <= k <= input.len(),
    ensures
        ({
            let a = run_seg(st, input, i, j);
            let b = run_seg(a.0, input, j, k);
            run_seg(st, input, i, k) == (b.0, a.1 + b.1)
        }),
    decreases j - i,
{
    let a = run_seg(st, input, i, j);
    let b = run_seg(a.0, input, j, k);
    if st.terminated || i == j {
        assert(a == (st, Seq::<u8>::empty()));
        assert(a.1 + b.1 =~= b.1);
    } else {
        let pk = if i + 1 < input.len() {
            Some(input[i + 1])
        } else {
            None
        };
        let r = step(st, input[i], pk);
        lemma_run_seg_compose(r.0, input, i + 1, j, k);
        let a2 = run_seg(r.0, input, i + 1, j);
        let em = match r.1 {
            Some(x) => seq![x],
            None => Seq::<u8>::empty(),
        };
        assert(em + (a2.1 + b.1) =~= (em + a2.1) + b.1);
    }
}

/// One read is a prefix of the whole remaining scan.
pub proof fn lemma_run1_prefix(st: St, input: Seq<u8>, i: int)
    requires
        0 <= i <= input.len(),
    ensures
        ({
            let r = run1(st, input, i);
            match r.1 {
                Some(b) => run_from(st, input, i) == (
                    run_from(r.0, input, r.2).0,
                    seq![b] + run_from(r.0, input, r.2).1,
                ),
                None => run_from(st, input, i) == (r.0, Seq::<u8>::empty()),
            }
        }),
    decreases input.len() - i,
{
    let r = run1(st, input, i);
    if st.terminated || !(0 <= i < input.len()) {
        assert(run_from(st, input, i) == (st, Seq::<u8>::empty()));
    } else {
        let pk = if i + 1 < input.len() {
            Some(input[i + 1])
        } else {
            None
        };
        let s2 = step(st, input[i], pk);
        if s2.1 is Some || s2.0.terminated {
            match s2.1 {
                Some(b) => {
                    assert(run_from(st, input, i) == (
                        run_from(s2.0, input, i + 1).0,
                        seq![b] + run_from(s2.0, input, i + 1).1,
                    ));
                },
                None => {
                    assert(s2.0.terminated);
                    assert(run_from(s2.0, input, i + 1) == (s2.0, Seq::<u8>::empty()));
                    assert(Seq::<u8>::empty() + Seq::<u8>::empty() =~= Seq::<u8>::empty());
                },
            }
        } else {
            lemma_run1_prefix(s2.0, input, i + 1);
            assert(Seq::<u8>::empty() + run_from(s2.0, input, i + 1).1 =~= run_from(
                s2.0,
                input,
                i + 1,
            ).1);
            match r.1 {
                Some(b) => {
                    assert(run_from(st, input, i).1 =~= seq![b] + run_from(r.0, input, r.2).1);
                },
                None => {},
            }
        }
    }
}

/// Draining the scanner yields exactly the bytes of the whole scan, and it
/// reports termination exactly when the scan terminated or ran out of input
/// with nothing left open.
pub proof fn lemma_drain_is_scan(st: St, input: Seq<u8>, i: int)
    requires
        0 <= i <= input.len(),
    ensures
        drain(st, input, i).1 == run_from(st, input, i).1,
        drain(st, input, i).0 == finish_st(run_from(st, input, i).0),
    decreases input.len() - i,
{
    let r = run_from(st, input, i);
    if st.terminated {
        assert(r == (st, Seq::<u8>::empty()));
        assert(finish_st(st) =~= st);
    } else {
        crate::scan::lemma_run1_bounds(st, input, i);
        let r1 = run1(st, input, i);
        lemma_run1_prefix(st, input, i);
        let ns = next_spec(st, input, i);
        match r1.1 {
            Some(b) => {
                lemma_drain_is_scan(r1.0, input, r1.2);
                assert(drain(st, input, i).1 =~= seq![b] + drain(r1.0, input, r1.2).1);
            },
            None => {
                if r1.0.terminated {
                    assert(finish_st(r1.0) =~= r1.0);
                }
            },
        }
    }
}

/// A skip span over redundant whitespace swallows it whole, emitting
/// nothing and leaving the state as it was.
proof fn lemma_wsrun_skip(st: St, input: Seq<u8>, i: int, j: int)
    requires
        st.skip == SkipSt::WsRun,
        !st.terminated,
        0 <= i <= j <= input.len(),
        forall|k: int| i <= k < j ==> is_ws(input[k]) && input[k] != 0x0a,
    ensures
        j > i ==> run_seg(st, input, i, j) == (
            (St { prev: Some(input[j - 1]), ..st }),
            Seq::<u8>::empty(),
        ),
        j == i ==> run_seg(st, input, i, j) == (st, Seq::<u8>::empty()),
    decreases j - i,
{
    if i < j {
        let pk = if i + 1 < input.len() {
            Some(input[i + 1])
        } else {
            None
        };
        let r = step(st, input[i], pk);
        lemma_wsrun_skip(r.0, input, i + 1, j);
        assert(Seq::<u8>::empty() + run_seg(r.0, input, i + 1, j).1 =~= run_seg(
            r.0,
            input,
            i + 1,
            j,
        ).1);
        if j == i + 1 {
        } else {
            assert((St { prev: Some(input[j - 1]), ..r.0 }) =~= (St {
                prev: Some(input[j - 1]),
                ..st
            }));
        }
    }
}

/// A run of whitespace, none of it a newline, collapses to a single space:
/// scanned up to and including the plain byte that ends the run, the output
/// is exactly one space and that byte, and the scanner is quiet again. Run
/// collapsing is therefore idempotent: its output carries no whitespace run
/// to collapse again.
pub proof fn lemma_ws_run_collapses(st: St, input: Seq<u8>, i: int, j: int)
    requires
        ready(st),
        !st.whitespace,
        0 <= i < j < input.len(),
        forall|k: int| i <= k < j ==> is_ws(input[k]) && input[k] != 0x0a,
        plain_byte(input[j]),
    ensures
        ({
            let r = run_seg(st, input, i, j + 1);
            &&& r.1 == seq![0x20u8, input[j]]
            &&& ready(r.0)
            &&& !r.0.whitespace
            &&& r.0.array == st.array
            &&& !r.0.and_or
        }),
{
    reveal_with_fuel(run_seg, 4);
    let pk0 = if i + 1 < input.len() {
        Some(input[i + 1])
    } else {
        None
    };
    let s1 = step(st, input[i], pk0).0;
    assert(step(st, input[i], pk0) == ((St {
        whitespace: true,
        prev: Some(input[i]),
        skip: SkipSt::NoSkip,
        ..st
    }), Some(0x20u8)));
    if j == i + 1 {
        lemma_run_seg_compose(st, input, i, i + 1, j + 1);
        let pk1 = if j + 1 < input.len() {
            Some(input[j + 1])
        } else {
            None
        };
        let s2 = step(s1, input[j], pk1);
        assert(s2.1 == Some(input[j]));
        assert(run_seg(st, input, i, j + 1).1 =~= seq![0x20u8, input[j]]);
    } else {
        // The second whitespace byte opens the skip span.
        let pk1 = if i + 2 < input.len() {
            Some(input[i + 2])
        } else {
            None
        };
        let s2 = step(s1, input[i + 1], pk1).0;
        assert(s2 == (St {
            whitespace: false,
            prev: Some(input[i + 1]),
            skip: SkipSt::WsRun,
            ..st
        }));
        lemma_wsrun_skip(s2, input, i + 2, j);
        lemma_run_seg_compose(st, input, i, i + 2, j);
        lemma_run_seg_compose(st, input, i, j, j + 1);
        let s3 = run_seg(st, input, i, j).0;
        assert(s3.skip == SkipSt::WsRun && s3.whitespace == false);
        let pkj = if j + 1 < input.len() {
            Some(input[j + 1])
        } else {
            None
        };
        let s4 = step(s3, input[j], pkj);
        assert(s4.1 == Some(input[j]));
        assert(run_seg(st, input, i, j + 1).1 =~= seq![0x20u8, input[j]]);
    }
}

/// A single space between plain bytes passes through unchanged: re-scanning
/// already-collapsed output reproduces it.
pub proof fn lemma_collapse_stable(st: St, input: Seq<u8>, i: int)
    requires
        ready(st),
        !st.whitespace,
        0 <= i,
        i + 1 < input.len(),
        input[i] == 0x20,
        plain_byte(input[i + 1]),
    ensures
        ({
            let r = run_seg(st, input, i, i + 2);
            &&& r.1 == seq![0x20u8, input[i + 1]]
            &&& ready(r.0)
            &&& !r.0.whitespace
        }),
{
    reveal_with_fuel(run_seg, 4);
    let pk0 = if i + 1 < input.len() {
        Some(input[i + 1])
    } else {
        None
    };
    let s1 = step(st, input[i], pk0).0;
    let pk1 = if i + 2 < input.len() {
        Some(input[i + 2])
    } else {
        None
    };
    let s2 = step(s1, input[i + 1], pk1);
    assert(run_seg(st, input, i, i + 2).1 =~= seq![0x20u8, input[i + 1]]);
}

/// Once a quote is open, no byte but its closing quote character leaves the
/// quote, and the statement cannot terminate inside it: a stream whose rest
/// holds no closing quote scans to an incomplete statement.
pub proof fn lemma_open_quote_incomplete(st: St, input: Seq<u8>, i: int, q: u8)
    requires
        !st.terminated,
        (st.quotes == Quotes::Single && q == 0x27) || (st.quotes == Quotes::Double && q == 0x22),
        0 <= i <= input.len(),
        forall|k: int| i <= k < input.len() ==> input[k] != q,
    ensures
        run_from(st, input, i).0.quotes == st.quotes,
        !run_from(st, input, i).0.terminated,
        !complete_at_end(run_from(st, input, i).0),
    decreases input.len() - i,
{
    if i < input.len() {
        let pk = if i + 1 < input.len() {
            Some(input[i + 1])
        } else {
            None
        };
        let r = step(st, input[i], pk);
        assert(r.0.quotes == st.quotes && !r.0.terminated);
        lemma_open_quote_incomplete(r.0, input, i + 1, q);
    }
}

/// With a quote still open and no closing quote in the rest of the input,
/// draining the terminator cannot succeed: the caller is asked for more
/// input.
pub proof fn lemma_open_quote_terminate_fails(st: St, input: Seq<u8>, i: int, q: u8)
    requires
        !st.terminated,
        (st.quotes == Quotes::Single && q == 0x27) || (st.quotes == Quotes::Double && q == 0x22),
        0 <= i <= input.len(),
        forall|k: int| i <= k < input.len() ==> input[k] != q,
    ensures
        !drain(st, input, i).0.terminated,
{
    lemma_open_quote_incomplete(st, input, i, q);
    lemma_drain_is_scan(st, input, i);
}

/// A quote character in a quiet state opens the matching quote context and
/// is emitted; together with the preservation law above, a stream that opens
/// a quote and never closes it ends incomplete.
pub proof fn lemma_quote_opens(st: St, b: u8, pk: Option<u8>)
    requires
        ready(st),
        b == 0x27 || b == 0x22,
    ensures
        step(st, b, pk).1 == Some(b),
        step(st, b, pk).0.quotes == (if b == 0x27 {
            Quotes::Single
        } else {
            Quotes::Double
        }),
        !step(st, b, pk).0.terminated,
{
}

/// A comment's skip span swallows every byte up to the newline.
proof fn lemma_comment_skip(st: St, input: Seq<u8>, i: int, j: int)
    requires
        st.skip == SkipSt::Comment,
        !st.terminated,
        0 <= i <= j <= input.len(),
        forall|k: int| i <= k < j ==> input[k] != 0x0a,
    ensures
        j > i ==> run_seg(st, input, i, j) == (
            (St { prev: Some(input[j - 1]), ..st }),
            Seq::<u8>::empty(),
        ),
        j == i ==> run_seg(st, input, i, j) == (st, Seq::<u8>::empty()),
    decreases j - i,
{
    if i < j {
        let pk = if i + 1 < input.len() {
            Some(input[i + 1])
        } else {
            None
        };
        let r = step(st, input[i], pk);
        lemma_comment_skip(r.0, input, i + 1, j);
        assert(Seq::<u8>::empty() + run_seg(r.0, input, i + 1, j).1 =~= run_seg(
            r.0,
            input,
            i + 1,
            j,
        ).1);
        if j > i + 1 {
            assert((St { prev: Some(input[j - 1]), ..r.0 }) =~= (St {
                prev: Some(input[j - 1]),
                ..st
            }));
        }
    }
}

/// A `#` at word start opens a comment: everything through the newline that
/// ends it is discarded, and that newline still terminates the statement.
pub proof fn lemma_comment_strips(st: St, input: Seq<u8>, i: int, j: int)
    requires
        ready(st),
        st.array == 0,
        !st.and_or,
        st.prev is None || st.prev == Some(0x20u8) || st.prev == Some(0x0au8),
        0 <= i < j < input.len(),
        input[i] == 0x23,
        forall|k: int| i < k < j ==> input[k] != 0x0a,
        input[j] == 0x0a,
    ensures
        run_seg(st, input, i, j + 1).1 == Seq::<u8>::empty(),
        run_seg(st, input, i, j + 1).0.terminated,
{
    reveal_with_fuel(run_seg, 4);
    if j < input.len() {
        let pk0 = if i + 1 < input.len() {
            Some(input[i + 1])
        } else {
            None
        };
        let s1 = step(st, input[i], pk0).0;
        assert(s1.skip == SkipSt::Comment && !s1.terminated);
        lemma_comment_skip(s1, input, i + 1, j);
        lemma_run_seg_compose(st, input, i, i + 1, j);
        lemma_run_seg_compose(st, input, i, j, j + 1);
        let s2 = run_seg(st, input, i, j).0;
        assert(s2.skip == SkipSt::Comment && s2.array == 0 && !s2.and_or && !s2.terminated
            && s2.quotes == Quotes::Outside && s2.eof is None && !s2.skip_next);
        let pkj = if j + 1 < input.len() {
            Some(input[j + 1])
        } else {
            None
        };
        let s3 = step(s2, input[j], pkj);
        assert(s3.0.terminated && s3.1 is None);
        assert(run_seg(st, input, i, j + 1).1 =~= Seq::<u8>::empty());
    }
}

/// A `#` directly after a non-space, non-newline byte is an ordinary
/// character: it is emitted, not treated as a comment.
pub proof fn lemma_hash_literal(st: St, b: u8, pk: Option<u8>)
    requires
        ready(st),
        st.prev matches Some(c) && c != 0x20 && c != 0x0a,
    ensures
        step(st, 0x23, pk).1 == Some(0x23u8),
        ready(step(st, 0x23, pk).0),
{
}

/// A line of plain bytes ending in a bare newline: the scanner passes every
/// byte through and reports termination exactly at that newline.
proof fn lemma_plain_run(st: St, input: Seq<u8>, i: int)
    requires
        ready(st),
        st.array == 0,
        !st.and_or,
        0 <= i < input.len(),
        input[input.len() - 1] == 0x0a,
        forall|k: int| i <= k < input.len() - 1 ==> plain_byte(input[k]),
    ensures
        run_from(st, input, i).0.terminated,
        run_from(st, input, i).1 == input.subrange(i, input.len() - 1),
    decreases input.len() - i,
{
    reveal_with_fuel(run_seg, 4);
    let pk = if i + 1 < input.len() {
        Some(input[i + 1])
    } else {
        None
    };
    let r = step(st, input[i], pk);
    if i == input.len() - 1 {
        assert(r.0.terminated && r.1 is None);
        assert(run_from(st, input, i).1 =~= input.subrange(i, input.len() - 1));
    } else {
        assert(plain_byte(input[i]));
        assert(r.1 == Some(input[i]));
        assert(ready(r.0) && r.0.array == 0 && !r.0.and_or);
        lemma_plain_run(r.0, input, i + 1);
        assert(run_from(st, input, i).1 =~= seq![input[i]] + run_from(r.0, input, i + 1).1);
        assert(seq![input[i]] + input.subrange(i + 1, input.len() - 1) =~= input.subrange(
            i,
            input.len() - 1,
        ));
    }
}

/// A byte stream free of quotes, heredocs, brackets, comments, escapes,
/// operators and whitespace, ending in a bare newline, terminates exactly at
/// that newline, with everything before it passed through unchanged.
pub proof fn lemma_plain_line_terminates(input: Seq<u8>)
    requires
        input.len() >= 1,
        input[input.len() - 1] == 0x0a,
        forall|k: int| 0 <= k < input.len() - 1 ==> plain_byte(input[k]),
    ensures
        scan(input).0.terminated,
        scan(input).1 == input.subrange(0, input.len() - 1),
        drain(init_st(), input, 0).0.terminated,
        drain(init_st(), input, 0).1 == input.subrange(0, input.len() - 1),
{
    lemma_plain_run(init_st(), input, 0);
    lemma_drain_is_scan(init_st(), input, 0);
}

/// The terminating induction for lines of plain bytes and whitespace.
proof fn lemma_simple_run(st: St, input: Seq<u8>, i: int)
    requires
        st.quotes == Quotes::Outside,
        st.eof is None,
        !st.skip_next,
        !st.terminated,
        st.array == 0,
        !st.and_or,
        st.skip == SkipSt::NoSkip || st.skip == SkipSt::WsRun,
        0 <= i < input.len(),
        input[input.len() - 1] == 0x0a,
        forall|k: int|
            i <= k < input.len() - 1 ==> plain_byte(input[k]) || (is_ws(input[k]) && input[k]
                != 0x0a),
    ensures
        run_from(st, input, i).0.terminated,
    decreases input.len() - i,
{
    reveal_with_fuel(run_seg, 3);
    let pk = if i + 1 < input.len() {
        Some(input[i + 1])
    } else {
        None
    };
    let r = step(st, input[i], pk);
    if i == input.len() - 1 {
        assert(r.0.terminated);
    } else {
        lemma_simple_run(r.0, input, i + 1);
    }
}

/// A byte stream of ordinary words and whitespace, free of quotes, heredocs,
/// brackets, comments, escapes and logical operators, ending in a bare
/// newline: the scanner reports completion exactly at that newline.
pub proof fn lemma_simple_line_terminates(input: Seq<u8>)
    requires
        input.len() >= 1,
        input[input.len() - 1] == 0x0a,
        forall|k: int|
            0 <= k < input.len() - 1 ==> plain_byte(input[k]) || (is_ws(input[k]) && input[k]
                != 0x0a),
    ensures
        scan(input).0.terminated,
        drain(init_st(), input, 0).0.terminated,
{
    lemma_simple_run(init_st(), input, 0);
    lemma_drain_is_scan(init_st(), input, 0);
}

} // verus!
