use vstd::prelude::*;

use crate::index::Index;
use crate::range::Range;

verus! {

/// Relies on String::push: appends the given character to the string.
pub assume_specification[ String::push ](s: &mut String, ch: char)
    ensures
        final(s)@ == old(s)@.push(ch),
;

pub open spec fn is_digit_c(c: char) -> bool {
    '0' <= c && c <= '9'
}

pub open spec fn digit_val(c: char) -> int {
    c as int - '0' as int
}

pub open spec fn is_alpha_c(c: char) -> bool {
    ('a' <= c && c <= 'z') || ('A' <= c && c <= 'Z')
}

pub open spec fn all_digits(s: Seq<char>) -> bool {
    forall|k: int| 0 <= k < s.len() ==> is_digit_c(s[k])
}

/// The value of a string of decimal digits.
pub open spec fn digits_val(s: Seq<char>) -> int
    decreases s.len(),
{
    if s.len() == 0 {
        0
    } else {
        digits_val(s.drop_last()) * 10 + digit_val(s.last())
    }
}

/// The value of a decimal integer string with an optional leading minus.
pub open spec fn int_str_val(s: Seq<char>) -> int {
    if s.len() >= 1 && s[0] == '-' {
        -digits_val(s.subrange(1, s.len() as int))
    } else {
        digits_val(s)
    }
}

pub open spec fn fits_isize(v: int) -> bool {
    isize::MIN as int <= v <= isize::MAX as int
}

/// The length of the run of decimal digits starting at `i`.
pub open spec fn digits_run(s: Seq<char>, i: int) -> int
    decreases s.len() - i,
{
    if 0 <= i < s.len() && is_digit_c(s[i]) {
        1 + digits_run(s, i + 1)
    } else {
        0
    }
}

/// The length of the integer endpoint starting at `i`: an optional minus
/// followed by at least one digit; zero when no endpoint starts there.
pub open spec fn num_prefix_len(s: Seq<char>, i: int) -> int {
    if 0 <= i < s.len() && s[i] == '-' {
        let d = digits_run(s, i + 1);
        if d > 0 {
            1 + d
        } else {
            0
        }
    } else {
        digits_run(s, i)
    }
}

/// The length of the range operator at `i`: 3 for the inclusive spellings
/// `...` and `..=`, 2 for the exclusive `..`, 0 for anything else.
pub open spec fn op_len_at(s: Seq<char>, i: int) -> int {
    if 0 <= i && i + 2 <= s.len() && s[i] == '.' && s[i + 1] == '.' {
        if i + 3 <= s.len() && (s[i + 2] == '.' || s[i + 2] == '=') {
            3
        } else {
            2
        }
    } else {
        0
    }
}

/// The textual grammar's index convention: `-1` denotes the last element, so
/// a negative value `v` maps to `Backward(-v - 1)`.
pub open spec fn text_index(v: int) -> Index {
    if v < 0 {
        Index::Backward((-v - 1) as usize)
    } else {
        Index::Forward(v as usize)
    }
}

/// What parsing an index-range string yields: `start op end` with either
/// endpoint omissible, endpoints under the textual convention, and the range
/// inclusive when the operator is an inclusive spelling or the end is
/// omitted.
pub open spec fn parse_index_range_spec(s: Seq<char>) -> Option<Range> {
    let ks = num_prefix_len(s, 0);
    let kop = op_len_at(s, ks);
    if kop == 0 {
        None
    } else {
        let rest = ks + kop;
        let ke = num_prefix_len(s, rest);
        if rest + ke != s.len() {
            None
        } else if ks > 0 && !fits_isize(int_str_val(s.subrange(0, ks))) {
            None
        } else if ke > 0 && !fits_isize(int_str_val(s.subrange(rest, s.len() as int))) {
            None
        } else {
            let start = if ks == 0 {
                Index::Forward(0)
            } else {
                text_index(int_str_val(s.subrange(0, ks)))
            };
            if ke == 0 {
                Some(Range { start, end: Index::Backward(0), inclusive: true })
            } else {
                Some(
                    Range {
                        start,
                        end: text_index(int_str_val(s.subrange(rest, s.len() as int))),
                        inclusive: kop == 3,
                    },
                )
            }
        }
    }
}

/// A run of `k` zero characters.
pub open spec fn zeros(k: int) -> Seq<char>
    decreases k,
{
    if k <= 0 {
        Seq::empty()
    } else {
        zeros(k - 1).push('0')
    }
}

/// The decimal digits of a non-negative number.
pub open spec fn dec_digits(n: int) -> Seq<char>
    decreases n,
{
    if n < 10 {
        seq![digit_char(n)]
    } else {
        dec_digits(n / 10).push(digit_char(n % 10))
    }
}

pub open spec fn digit_char(d: int) -> char {
    if d == 0 {
        '0'
    } else if d == 1 {
        '1'
    } else if d == 2 {
        '2'
    } else if d == 3 {
        '3'
    } else if d == 4 {
        '4'
    } else if d == 5 {
        '5'
    } else if d == 6 {
        '6'
    } else if d == 7 {
        '7'
    } else if d == 8 {
        '8'
    } else {
        '9'
    }
}

/// `v` written in decimal, zero-padded to a field of `w` characters; a
/// leading minus counts toward the field.
pub open spec fn fmt_int(v: int, w: int) -> Seq<char> {
    if v < 0 {
        seq!['-'] + zeros(w - 1 - dec_digits(-v).len()) + dec_digits(-v)
    } else {
        zeros(w - dec_digits(v).len()) + dec_digits(v)
    }
}

/// The tokens of a numeric range expansion: the integers from `a` toward
/// `b`, ascending or descending, the far endpoint dropped when the range is
/// exclusive, each formatted to width `w`.
pub open spec fn num_tokens(a: int, b: int, inclusive: bool, w: int) -> Seq<Seq<char>> {
    if a <= b {
        let last = if inclusive {
            b
        } else {
            b - 1
        };
        if last < a {
            Seq::empty()
        } else {
            Seq::new((last - a + 1) as nat, |i: int| fmt_int(a + i, w))
        }
    } else {
        let last = if inclusive {
            b
        } else {
            b + 1
        };
        if last > a {
            Seq::empty()
        } else {
            Seq::new((a - last + 1) as nat, |i: int| fmt_int(a - i, w))
        }
    }
}

/// The tokens of a letter range expansion: the characters whose code points
/// run from `a` toward `b`, under the same direction and inclusivity rules as
/// numeric ranges.
pub open spec fn alpha_tokens(a: int, b: int, inclusive: bool) -> Seq<Seq<char>> {
    if a <= b {
        let last = if inclusive {
            b
        } else {
            b - 1
        };
        if last < a {
            Seq::empty()
        } else {
            Seq::new((last - a + 1) as nat, |i: int| seq![((a + i) as u8) as char])
        }
    } else {
        let last = if inclusive {
            b
        } else {
            b + 1
        };
        if last > a {
            Seq::empty()
        } else {
            Seq::new((a - last + 1) as nat, |i: int| seq![((a - i) as u8) as char])
        }
    }
}

/// Whether an endpoint's text carries a leading zero, which forces
/// zero-padded output for the whole expansion.
pub open spec fn lead_zero(t: Seq<char>) -> bool {
    if t.len() >= 1 && t[0] == '-' {
        t.len() >= 3 && t[1] == '0'
    } else {
        t.len() >= 2 && t[0] == '0'
    }
}

/// The output width a numeric expansion pads to: the widest endpoint text
/// when either endpoint carries a leading zero, else no padding.
pub open spec fn expand_width(sstr: Seq<char>, estr: Seq<char>) -> int {
    if lead_zero(sstr) || lead_zero(estr) {
        if sstr.len() >= estr.len() {
            sstr.len() as int
        } else {
            estr.len() as int
        }
    } else {
        0
    }
}

/// What expanding a range string yields: a numeric expansion when both
/// endpoints are integers that fit, a letter expansion when both are single
/// letters, and nothing otherwise. Half-open forms have no expansion.
pub open spec fn parse_range_spec(s: Seq<char>) -> Option<Seq<Seq<char>>> {
    let ks = num_prefix_len(s, 0);
    let kop = op_len_at(s, ks);
    if ks > 0 && kop > 0 {
        let rest = ks + kop;
        let ke = num_prefix_len(s, rest);
        if ke > 0 && rest + ke == s.len() && fits_isize(int_str_val(s.subrange(0, ks)))
            && fits_isize(int_str_val(s.subrange(rest, s.len() as int))) {
            Some(
                num_tokens(
                    int_str_val(s.subrange(0, ks)),
                    int_str_val(s.subrange(rest, s.len() as int)),
                    kop == 3,
                    expand_width(s.subrange(0, ks), s.subrange(rest, s.len() as int)),
                ),
            )
        } else {
            None
        }
    } else if s.len() >= 3 && is_alpha_c(s[0]) {
        let kop2 = op_len_at(s, 1);
        if kop2 > 0 && s.len() == 2 + kop2 && is_alpha_c(s[s.len() - 1]) {
            Some(alpha_tokens(s[0] as int, s[s.len() - 1] as int, kop2 == 3))
        } else {
            None
        }
    } else {
        None
    }
}

// ---------------------------------------------------------------------------
// Executable parsing and expansion.
// ---------------------------------------------------------------------------

/// Digit strings have non-negative values.
proof fn lemma_digits_val_nonneg(s: Seq<char>)
    requires
        all_digits(s),
    ensures
        digits_val(s) >= 0,
    decreases s.len(),
{
    if s.len() > 0 {
        assert(all_digits(s.drop_last()));
        lemma_digits_val_nonneg(s.drop_last());
    }
}

/// A digit string is worth at least any of its prefixes.
proof fn lemma_digits_prefix_le(s: Seq<char>, k: int)
    requires
        all_digits(s),
        0 <= k <= s.len(),
    ensures
        0 <= digits_val(s.subrange(0, k)) <= digits_val(s),
    decreases s.len() - k,
{
    if k == s.len() {
        assert(s.subrange(0, k) =~= s);
        lemma_digits_val_nonneg(s);
    } else {
        lemma_digits_prefix_le(s, k + 1);
        let p1 = s.subrange(0, k + 1);
        assert(p1.drop_last() =~= s.subrange(0, k));
        assert(all_digits(s.subrange(0, k)));
        lemma_digits_val_nonneg(s.subrange(0, k));
        assert(digits_val(p1) == digits_val(s.subrange(0, k)) * 10 + digit_val(s[k]));
    }
}

/// Where a maximal digit run ends, the run's spec length is exactly that
/// span.
proof fn lemma_digits_run_span(s: Seq<char>, i: int, j: int)
    requires
        0 <= i <= j <= s.len(),
        forall|k: int| i <= k < j ==> is_digit_c(s[k]),
        j == s.len() || !is_digit_c(s[j]),
    ensures
        digits_run(s, i) == j - i,
    decreases j - i,
{
    if i < j {
        lemma_digits_run_span(s, i + 1, j);
    }
}

/// The characters of a string, for verified character-level parsing.
fn collect_chars(input: &str) -> (v: Vec<char>)
    ensures
        v@ == input@,
{
    let n = input.unicode_len();
    let mut v: Vec<char> = Vec::new();
    let mut i: usize = 0;
    while i < n
        invariant
            0 <= i <= n,
            n == input@.len(),
            v@ == input@.subrange(0, i as int),
        decreases n - i,
    {
        v.push(input.get_char(i));
        i += 1;
        proof {
            assert(v@ =~= input@.subrange(0, i as int));
        }
    }
    proof {
        assert(v@ =~= input@);
    }
    v
}

fn is_digit_exec(c: char) -> (r: bool)
    ensures
        r == is_digit_c(c),
{
    '0' <= c && c <= '9'
}

/// The end of the digit run starting at `i`.
fn scan_digits(s: &Vec<char>, i: usize) -> (j: usize)
    requires
        i <= s@.len(),
    ensures
        i <= j <= s@.len(),
        digits_run(s@, i as int) == j - i,
    {
    let mut j = i;
    while j < s.len() && is_digit_exec(s[j])
        invariant
            i <= j <= s@.len(),
            forall|k: int| i <= k < j ==> is_digit_c(s@[k]),
        decreases s@.len() - j,
    {
        j += 1;
    }
    proof {
        lemma_digits_run_span(s@, i as int, j as int);
    }
    j
}

/// The end of the integer endpoint starting at `i`, or `i` when none starts
/// there.
fn scan_num_prefix(s: &Vec<char>, i: usize) -> (j: usize)
    requires
        i <= s@.len(),
    ensures
        i <= j <= s@.len(),
        num_prefix_len(s@, i as int) == j - i,
{
    if i < s.len() && s[i] == '-' {
        let j = scan_digits(s, i + 1);
        if j > i + 1 {
            j
        } else {
            i
        }
    } else {
        scan_digits(s, i)
    }
}

/// The operator at `i`: its length and whether it is an inclusive spelling.
fn scan_op(s: &Vec<char>, i: usize) -> (r: (usize, bool))
    requires
        i <= s@.len(),
    ensures
        r.0 == op_len_at(s@, i as int),
        r.1 == (r.0 == 3),
{
    if i < s.len() && s.len() - i >= 2 && s[i] == '.' && s[i + 1] == '.' {
        if s.len() - i >= 3 && (s[i + 2] == '.' || s[i + 2] == '=') {
            (3, true)
        } else {
            (2, false)
        }
    } else {
        (0, false)
    }
}

/// Parses the integer endpoint written at `s[from..to]`. Yields its value
/// exactly when it fits the machine integer; a too-large endpoint is not a
/// range endpoint.
fn parse_val(s: &Vec<char>, from: usize, to: usize) -> (r: Option<isize>)
    requires
        from < to <= s@.len(),
        num_prefix_len(s@, from as int) == to - from,
    ensures
        ({
            let v = int_str_val(s@.subrange(from as int, to as int));
            match r {
                Some(x) => x as int == v,
                None => !fits_isize(v),
            }
        }),
{
    let ghost whole = s@.subrange(from as int, to as int);
    let neg = s[from] == '-';
    let dstart: usize = if neg {
        from + 1
    } else {
        from
    };
    proof {
        if neg {
            assert(digits_run(s@, from as int + 1) == to - from - 1);
        } else {
            assert(digits_run(s@, from as int) == to - from);
        }
        lemma_digits_run_all(s@, dstart as int, to as int);
        assert(whole.subrange((dstart - from) as int, whole.len() as int) =~= s@.subrange(
            dstart as int,
            to as int,
        ));
    }
    let ghost digits = s@.subrange(dstart as int, to as int);
    proof {
        assert(all_digits(digits));
        assert(whole.len() == to - from);
        assert(whole[0] == s@[from as int]);
        if neg {
            assert(digits =~= whole.subrange(1, whole.len() as int));
        } else {
            assert(digits =~= whole);
        }
    }
    let mut acc: isize = 0;
    let mut k = dstart;
    while k < to
        invariant
            from < to <= s@.len(),
            dstart <= k <= to,
            dstart as int == (if neg {
                from + 1
            } else {
                from as int
            }),
            whole == s@.subrange(from as int, to as int),
            neg == (whole[0] == '-'),
            digits == s@.subrange(dstart as int, to as int),
            digits == (if neg {
                whole.subrange(1, whole.len() as int)
            } else {
                whole
            }),
            all_digits(digits),
            acc as int == (if neg {
                -digits_val(digits.subrange(0, k - dstart))
            } else {
                digits_val(digits.subrange(0, k - dstart))
            }),
        decreases to - k,
    {
        let c = s[k];
        proof {
            assert(digits[(k - dstart) as int] == c);
            assert(is_digit_c(c));
        }
        let d: isize = digit_to_isize(c);
        proof {
            let p1 = digits.subrange(0, k - dstart + 1);
            assert(p1.drop_last() =~= digits.subrange(0, k - dstart));
            assert(p1.last() == c);
            assert(digits_val(p1) == digits_val(digits.subrange(0, k - dstart)) * 10 + digit_val(
                c,
            ));
        }
        let m = acc.checked_mul(10);
        let step: Option<isize> = match m {
            Some(m10) => {
                if neg {
                    m10.checked_sub(d)
                } else {
                    m10.checked_add(d)
                }
            },
            None => None,
        };
        match step {
            Some(x) => {
                acc = x;
            },
            None => {
                proof {
                    lemma_digits_prefix_le(digits, k - dstart + 1);
                    lemma_digits_prefix_le(
                        digits.subrange(0, k - dstart + 1),
                        k - dstart,
                    );
                    assert(digits.subrange(0, k - dstart + 1).subrange(0, k - dstart) =~= digits
                        .subrange(0, k - dstart));
                    assert(int_str_val(whole) == (if neg {
                        -digits_val(digits)
                    } else {
                        digits_val(digits)
                    })) by {
                        lemma_int_str_val_shape(whole, neg, digits);
                    }
                }
                return None;
            },
        }
        k += 1;
    }
    proof {
        assert(digits.subrange(0, (to - dstart) as int) =~= digits);
        lemma_int_str_val_shape(whole, neg, digits);
    }
    Some(acc)
}

/// A maximal digit run is all digits.
proof fn lemma_digits_run_all(s: Seq<char>, i: int, j: int)
    requires
        0 <= i <= j <= s.len(),
        digits_run(s, i) >= j - i,
    ensures
        forall|k: int| i <= k < j ==> is_digit_c(s[k]),
    decreases j - i,
{
    if i < j {
        assert(is_digit_c(s[i]));
        lemma_digits_run_all(s, i + 1, j);
    }
}

/// An integer string's value is the signed value of its digit part.
proof fn lemma_int_str_val_shape(whole: Seq<char>, neg: bool, digits: Seq<char>)
    requires
        whole.len() >= 1,
        neg == (whole[0] == '-'),
        digits == (if neg {
            whole.subrange(1, whole.len() as int)
        } else {
            whole
        }),
    ensures
        int_str_val(whole) == (if neg {
            -digits_val(digits)
        } else {
            digits_val(digits)
        }),
{
    if !neg {
        assert(whole.subrange(0, whole.len() as int) =~= whole);
    }
}

fn digit_to_isize(c: char) -> (d: isize)
    requires
        is_digit_c(c),
    ensures
        d as int == digit_val(c),
        0 <= d <= 9,
{
    if c == '0' {
        0
    } else if c == '1' {
        1
    } else if c == '2' {
        2
    } else if c == '3' {
        3
    } else if c == '4' {
        4
    } else if c == '5' {
        5
    } else if c == '6' {
        6
    } else if c == '7' {
        7
    } else if c == '8' {
        8
    } else {
        9
    }
}

/// Parses the textual grammar of an index range, yielding the `Range` it
/// denotes, or nothing when the text is not an index range.
pub fn parse_index_range(input: &str) -> (r: Option<Range>)
    ensures
        r == parse_index_range_spec(input@),
{
    let s = collect_chars(input);
    let ks = scan_num_prefix(&s, 0);
    let (kop, op_incl) = scan_op(&s, ks);
    if kop == 0 {
        return None;
    }
    assert(ks + kop <= s@.len());
    let rest = ks + kop;
    let je = scan_num_prefix(&s, rest);
    let ke = je - rest;
    if je != s.len() {
        return None;
    }
    let start: Index = if ks == 0 {
        Index::Forward(0)
    } else {
        match parse_val(&s, 0, ks) {
            Some(v) => text_index_exec(v),
            None => {
                return None;
            },
        }
    };
    if ke == 0 {
        Some(Range { start, end: Index::Backward(0), inclusive: true })
    } else {
        match parse_val(&s, rest, je) {
            Some(v) => Some(Range { start, end: text_index_exec(v), inclusive: op_incl }),
            None => None,
        }
    }
}

/// The textual grammar's index convention, executably.
fn text_index_exec(v: isize) -> (r: Index)
    ensures
        r == text_index(v as int),
{
    if v < 0 {
        Index::Backward(((-(v + 1)) as usize))
    } else {
        Index::Forward(v as usize)
    }
}

/// Tokens produced match their mathematical counterparts character for
/// character.
pub open spec fn toks_match(v: Seq<String>, t: Seq<Seq<char>>) -> bool {
    v.len() == t.len() && (forall|i: int| 0 <= i < t.len() ==> v[i]@ == t[i])
}

fn digit_char_exec(d: usize) -> (c: char)
    requires
        d <= 9,
    ensures
        c == digit_char(d as int),
{
    if d == 0 {
        '0'
    } else if d == 1 {
        '1'
    } else if d == 2 {
        '2'
    } else if d == 3 {
        '3'
    } else if d == 4 {
        '4'
    } else if d == 5 {
        '5'
    } else if d == 6 {
        '6'
    } else if d == 7 {
        '7'
    } else if d == 8 {
        '8'
    } else {
        '9'
    }
}

/// Appends the decimal digits of `n`.
fn push_dec(n: usize, out: &mut Vec<char>)
    ensures
        final(out)@ == old(out)@ + dec_digits(n as int),
    decreases n,
{
    if n < 10 {
        out.push(digit_char_exec(n));
        proof {
            assert(final(out)@ =~= old(out)@ + dec_digits(n as int));
        }
    } else {
        push_dec(n / 10, out);
        out.push(digit_char_exec(n % 10));
        proof {
            assert(final(out)@ =~= old(out)@ + dec_digits(n as int));
        }
    }
}

/// `v` in decimal, zero-padded to `width` characters.
fn fmt_isize(v: isize, width: usize) -> (r: Vec<char>)
    ensures
        r@ == fmt_int(v as int, width as int),
{
    let mut digits: Vec<char> = Vec::new();
    let mag: usize = if v < 0 {
        ((-(v + 1)) as usize) + 1
    } else {
        v as usize
    };
    push_dec(mag, &mut digits);
    let sign: usize = if v < 0 {
        1
    } else {
        0
    };
    let dl = digits.len();
    let nz: usize = if width >= sign && width - sign > dl {
        width - sign - dl
    } else {
        0
    };
    let mut out: Vec<char> = Vec::new();
    if v < 0 {
        out.push('-');
    }
    let ghost head = out@;
    let mut z: usize = 0;
    while z < nz
        invariant
            z <= nz,
            out@ == head + zeros(z as int),
        decreases nz - z,
    {
        out.push('0');
        z += 1;
        proof {
            assert(out@ =~= head + zeros(z as int));
        }
    }
    let mut digits = digits;
    out.append(&mut digits);
    proof {
        lemma_zeros_clamp(nz as int, width - sign - dl);
        assert(out@ =~= fmt_int(v as int, width as int));
    }
    out
}

/// Padding below one character is no padding.
proof fn lemma_zeros_clamp(a: int, b: int)
    requires
        a == b || (a == 0 && b <= 0),
    ensures
        zeros(a) == zeros(b),
{
}

/// The characters, as a string.
fn chars_to_string(v: Vec<char>) -> (s: String)
    ensures
        s@ == v@,
{
    let mut s = String::new();
    let mut i: usize = 0;
    while i < v.len()
        invariant
            i <= v@.len(),
            s@ == v@.subrange(0, i as int),
        decreases v@.len() - i,
    {
        s.push(v[i]);
        i += 1;
        proof {
            assert(s@ =~= v@.subrange(0, i as int));
        }
    }
    proof {
        assert(s@ =~= v@);
    }
    s
}

/// The numeric expansion of `a` toward `b`, formatted to `width`.
fn expand_num(a: isize, b: isize, inclusive: bool, width: usize) -> (r: Vec<String>)
    ensures
        toks_match(r@, num_tokens(a as int, b as int, inclusive, width as int)),
{
    let ghost toks = num_tokens(a as int, b as int, inclusive, width as int);
    let mut out: Vec<String> = Vec::new();
    if !inclusive && a == b {
        proof {
            assert(toks =~= Seq::<Seq<char>>::empty());
        }
        return out;
    }
    if a <= b {
        let last: isize = if inclusive {
            b
        } else {
            b - 1
        };
        let mut cur: isize = a;
        loop
            invariant_except_break
                a <= cur <= last,
                out@.len() == cur - a,
            invariant
                toks == num_tokens(a as int, b as int, inclusive, width as int),
                toks.len() == last - a + 1,
                forall|i: int| 0 <= i < toks.len() ==> toks[i] == fmt_int(a + i, width as int),
                forall|i: int| 0 <= i < out@.len() ==> out@[i]@ == toks[i],
            ensures
                toks_match(out@, toks),
            decreases last - cur,
        {
            out.push(chars_to_string(fmt_isize(cur, width)));
            if cur == last {
                break;
            }
            cur += 1;
        }
    } else {
        let last: isize = if inclusive {
            b
        } else {
            b + 1
        };
        let mut cur: isize = a;
        loop
            invariant_except_break
                last <= cur <= a,
                out@.len() == a - cur,
            invariant
                toks == num_tokens(a as int, b as int, inclusive, width as int),
                toks.len() == a - last + 1,
                forall|i: int| 0 <= i < toks.len() ==> toks[i] == fmt_int(a - i, width as int),
                forall|i: int| 0 <= i < out@.len() ==> out@[i]@ == toks[i],
            ensures
                toks_match(out@, toks),
            decreases cur - last,
        {
            out.push(chars_to_string(fmt_isize(cur, width)));
            if cur == last {
                break;
            }
            cur -= 1;
        }
    }
    out
}

/// A one-character string.
fn char_string(c: char) -> (s: String)
    ensures
        s@ == seq![c],
{
    let mut s = String::new();
    s.push(c);
    proof {
        assert(s@ =~= seq![c]);
    }
    s
}

fn is_alpha_exec(c: char) -> (r: bool)
    ensures
        r == is_alpha_c(c),
{
    ('a' <= c && c <= 'z') || ('A' <= c && c <= 'Z')
}

/// The letter expansion of `a` toward `b`.
fn expand_alpha(a: char, b: char, inclusive: bool) -> (r: Vec<String>)
    requires
        is_alpha_c(a),
        is_alpha_c(b),
    ensures
        toks_match(r@, alpha_tokens(a as int, b as int, inclusive)),
{
    let ghost toks = alpha_tokens(a as int, b as int, inclusive);
    let ca: u8 = a as u8;
    let cb: u8 = b as u8;
    let mut out: Vec<String> = Vec::new();
    if !inclusive && ca == cb {
        proof {
            assert(toks =~= Seq::<Seq<char>>::empty());
        }
        return out;
    }
    if ca <= cb {
        let last: u8 = if inclusive {
            cb
        } else {
            cb - 1
        };
        let mut cur: u8 = ca;
        loop
            invariant_except_break
                ca <= cur <= last,
                out@.len() == cur - ca,
            invariant
                ca == a as int,
                cb == b as int,
                toks == alpha_tokens(a as int, b as int, inclusive),
                toks.len() == last - ca + 1,
                forall|i: int| 0 <= i < toks.len() ==> toks[i] == seq![((ca + i) as u8) as char],
                forall|i: int| 0 <= i < out@.len() ==> out@[i]@ == toks[i],
            ensures
                toks_match(out@, toks),
            decreases last - cur,
        {
            out.push(char_string(cur as char));
            if cur == last {
                break;
            }
            cur += 1;
        }
    } else {
        let last: u8 = if inclusive {
            cb
        } else {
            cb + 1
        };
        let mut cur: u8 = ca;
        loop
            invariant_except_break
                last <= cur <= ca,
                out@.len() == ca - cur,
            invariant
                ca == a as int,
                cb == b as int,
                toks == alpha_tokens(a as int, b as int, inclusive),
                toks.len() == ca - last + 1,
                forall|i: int| 0 <= i < toks.len() ==> toks[i] == seq![((ca - i) as u8) as char],
                forall|i: int| 0 <= i < out@.len() ==> out@[i]@ == toks[i],
            ensures
                toks_match(out@, toks),
            decreases cur - last,
        {
            out.push(char_string(cur as char));
            if cur == last {
                break;
            }
            cur -= 1;
        }
    }
    out
}

fn lead_zero_exec(s: &Vec<char>, from: usize, to: usize) -> (r: bool)
    requires
        from <= to <= s@.len(),
    ensures
        r == lead_zero(s@.subrange(from as int, to as int)),
{
    let n = to - from;
    if n >= 1 && s[from] == '-' {
        n >= 3 && s[from + 1] == '0'
    } else {
        n >= 2 && s[from] == '0'
    }
}

/// Expands a range string into its ordered tokens: the integers or letters
/// from one endpoint toward the other, zero-padded when an endpoint carries a
/// leading zero. Yields nothing when the text is not a closed range of two
/// integers or two letters.
pub fn parse_range(input: &str) -> (r: Option<Vec<String>>)
    ensures
        ({
            let sp = parse_range_spec(input@);
            match r {
                Some(v) => sp matches Some(t) && toks_match(v@, t),
                None => sp is None,
            }
        }),
{
    let s = collect_chars(input);
    let ks = scan_num_prefix(&s, 0);
    let (kop, op_incl) = scan_op(&s, ks);
    if ks > 0 && kop > 0 {
        assert(ks + kop <= s@.len());
        let rest = ks + kop;
        let je = scan_num_prefix(&s, rest);
        let ke = je - rest;
        if ke > 0 && je == s.len() {
            let sv = match parse_val(&s, 0, ks) {
                Some(v) => v,
                None => {
                    return None;
                },
            };
            let ev = match parse_val(&s, rest, je) {
                Some(v) => v,
                None => {
                    return None;
                },
            };
            let width: usize = if lead_zero_exec(&s, 0, ks) || lead_zero_exec(&s, rest, je) {
                if ks >= ke {
                    ks
                } else {
                    ke
                }
            } else {
                0
            };
            Some(expand_num(sv, ev, op_incl, width))
        } else {
            None
        }
    } else if s.len() >= 3 && is_alpha_exec(s[0]) {
        let (kop2, op2_incl) = scan_op(&s, 1);
        if kop2 > 0 && s.len() == 2 + kop2 && is_alpha_exec(s[s.len() - 1]) {
            Some(expand_alpha(s[0], s[s.len() - 1], op2_incl))
        } else {
            None
        }
    } else {
        None
    }
}

} // verus!
