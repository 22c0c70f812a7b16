//! The directive lexer: quoted-argument extraction and numeric arguments.
//!
//! A directive line carries its arguments as double-quoted segments. The
//! lexer takes the text strictly between complete quote pairs, in order;
//! text before the first quote (the directive token itself), text between
//! pairs, and text after an unbalanced final quote are all discarded, so
//! unquoted or unbalanced text can never become an argument.

use vstd::prelude::*;

use crate::text::{
    all_digits, copy_range, digits_val, find_byte, quoted_args, scan_byte, unsigned_body,
    views_of, DOT, PLUS, QUOTE,
};
use crate::InterpreterError;

verus! {

/// The ordered quoted arguments of one directive line.
#[derive(Debug)]
pub struct Args {
    items: Vec<Vec<u8>>,
}

impl View for Args {
    type V = Seq<Seq<u8>>;

    closed spec fn view(&self) -> Seq<Seq<u8>> {
        views_of(self.items@)
    }
}

impl Args {
    /// Splits the quoted arguments out of `line` and checks their number
    /// against what the directive declares. Succeeds exactly when the counts
    /// agree; a mismatch reports both counts.
    pub fn parse(line: &[u8], expected: usize) -> (r: Result<Args, InterpreterError>)
        ensures
            match r {
                Ok(a) => a@ == quoted_args(line@) && a@.len() == expected,
                Err(e) => quoted_args(line@).len() != expected && e == (InterpreterError::ArgCountMismatch {
                    received: quoted_args(line@).len() as usize,
                    expected,
                }),
            },
    {
        let items = split_quoted(line);
        if items.len() != expected {
            let received = items.len();
            return Err(InterpreterError::ArgCountMismatch { received, expected });
        }
        Ok(Args { items })
    }

    /// The number of arguments.
    pub fn len(&self) -> (r: usize)
        ensures
            r == self@.len(),
    {
        self.items.len()
    }

    /// The argument at `index`; the count must have been validated first.
    pub fn get(&self, index: usize) -> (r: &Vec<u8>)
        requires
            index < self@.len(),
        ensures
            r@ == self@[index as int],
    {
        &self.items[index]
    }
}

/// All quoted segments of `line`, in order.
fn split_quoted(line: &[u8]) -> (r: Vec<Vec<u8>>)
    ensures
        views_of(r@) == quoted_args(line@),
{
    let mut r: Vec<Vec<u8>> = Vec::new();
    let mut pos: usize = 0;
    proof {
        assert(line@.skip(0) =~= line@);
        assert(views_of(r@) + quoted_args(line@) =~= quoted_args(line@));
    }
    while pos < line.len()
        invariant
            pos <= line@.len(),
            views_of(r@) + quoted_args(line@.skip(pos as int)) =~= quoted_args(line@),
        decreases line@.len() - pos,
    {
        let ghost rest0 = line@.skip(pos as int);
        let j = scan_byte(line, pos, QUOTE);
        if j == line.len() {
            proof {
                lemma_find_rest_none(line@, pos as int, j as int);
            }
            pos = line.len();
        } else {
            let ghost old_r = r@;
            let ghost rest = line@.skip(j + 1);
            proof {
                assert(rest0.skip(find_byte(rest0, QUOTE) as int + 1) =~= rest);
            }
            let k = scan_byte(line, j + 1, QUOTE);
            let arg: Vec<u8>;
            if k == line.len() {
                // an unbalanced final quote: the tail is not an argument
                proof {
                    assert(find_byte(rest, QUOTE) >= rest.len());
                    assert(quoted_args(rest0) =~= Seq::<Seq<u8>>::empty());
                }
                pos = line.len();
                proof {
                    assert(quoted_args(line@.skip(pos as int)) =~= Seq::<Seq<u8>>::empty());
                    assert(views_of(r@) + quoted_args(line@.skip(pos as int)) =~= quoted_args(
                        line@,
                    ));
                }
            } else {
                arg = copy_range(line, j + 1, k);
                proof {
                    assert(find_byte(rest, QUOTE) == k - (j + 1));
                    assert(rest.take(k - (j + 1)) =~= line@.subrange(j + 1, k as int));
                    assert(rest.skip(k - (j + 1) + 1) =~= line@.skip(k + 1));
                    assert(quoted_args(rest0) =~= seq![line@.subrange(j + 1, k as int)]
                        + quoted_args(line@.skip(k + 1)));
                }
                r.push(arg);
                pos = k + 1;
                proof {
                    assert(views_of(r@) =~= views_of(old_r).push(line@.subrange(j + 1, k as int)));
                    assert(views_of(r@) + quoted_args(line@.skip(pos as int)) =~= quoted_args(
                        line@,
                    ));
                }
            }
        }
    }
    proof {
        if pos == line@.len() {
            assert(quoted_args(line@.skip(pos as int)) =~= Seq::<Seq<u8>>::empty());
        }
        assert(views_of(r@) =~= views_of(r@) + Seq::<Seq<u8>>::empty());
    }
    r
}

proof fn lemma_find_rest_none(s: Seq<u8>, pos: int, j: int)
    requires
        0 <= pos <= s.len(),
        j == pos + find_byte(s.skip(pos), QUOTE),
        j == s.len(),
    ensures
        quoted_args(s.skip(pos)) =~= Seq::<Seq<u8>>::empty(),
{
    assert(find_byte(s.skip(pos), QUOTE) >= s.skip(pos).len());
}

/// A span of time as whole seconds and nanoseconds.
#[derive(Clone, Copy, PartialEq, Eq, Structural, Debug)]
pub struct DurationVal {
    pub secs: u64,
    pub nanos: u32,
}

impl DurationVal {
    /// No time at all: the all-at-once print interval.
    pub open spec fn is_zero(&self) -> bool {
        self.secs == 0 && self.nanos == 0
    }

    pub open spec fn wf(&self) -> bool {
        self.nanos < 1_000_000_000
    }
}

/// Ten to the `n`th power.
pub open spec fn pow10(n: nat) -> nat
    decreases n,
{
    if n == 0 {
        1
    } else {
        10 * pow10((n - 1) as nat)
    }
}

/// The nanoseconds denoted by the fractional digit string of a duration:
/// the first nine digits weighted by place value, further digits truncated.
pub open spec fn frac_nanos(fp: Seq<u8>) -> nat {
    if fp.len() >= 9 {
        digits_val(fp.take(9))
    } else {
        digits_val(fp) * pow10((9 - fp.len()) as nat)
    }
}

/// The duration denoted by a decimal seconds argument, when it is one:
/// an optional `+`, then digits with exactly one dot among them and at
/// least one digit. An integer without a decimal point does not denote a
/// duration, so that a unit is never ambiguous.
pub open spec fn dur_arg(s: Seq<u8>) -> Option<DurationVal> {
    let body = unsigned_body(s);
    let d = find_byte(body, DOT);
    if d >= body.len() {
        None
    } else {
        let ip = body.take(d as int);
        let fp = body.skip(d as int + 1);
        if all_digits(ip) && all_digits(fp) && ip.len() + fp.len() > 0 && digits_val(ip)
            <= u64::MAX {
            Some(
                DurationVal {
                    secs: digits_val(ip) as u64,
                    nanos: frac_nanos(fp) as u32,
                },
            )
        } else {
            None
        }
    }
}

proof fn lemma_pow10_mul_bound(a: nat, la: nat, lb: nat)
    requires
        a < pow10(la),
    ensures
        a * pow10(lb) < pow10(la + lb),
    decreases lb,
{
    if lb == 0 {
        assert(pow10(0) == 1);
        assert(a * 1 == a) by (nonlinear_arith);
    } else {
        lemma_pow10_mul_bound(a, la, (lb - 1) as nat);
        let p = pow10((lb - 1) as nat);
        let q = pow10((la + lb - 1) as nat);
        assert(pow10(lb) == 10 * p);
        assert(pow10(la + lb) == 10 * q);
        assert(a * (10 * p) == 10 * (a * p)) by (nonlinear_arith);
        assert(a * p < q ==> 10 * (a * p) < 10 * q) by (nonlinear_arith);
    }
}

/// Ten to the `n`th power, for small `n`.
fn pow10_u32(n: usize) -> (r: u32)
    requires
        n <= 9,
    ensures
        r == pow10(n as nat),
{
    proof {
        reveal_with_fuel(pow10, 11);
    }
    let mut r: u32 = 1;
    let mut i: usize = 0;
    while i < n
        invariant
            i <= n <= 9,
            r == pow10(i as nat),
            r <= 1_000_000_000,
        decreases n - i,
    {
        proof {
            reveal_with_fuel(pow10, 11);
            assert(pow10((i + 1) as nat) == 10 * pow10(i as nat));
            lemma_pow10_le(i as nat, 9);
        }
        r = r * 10;
        i = i + 1;
    }
    r
}

proof fn lemma_pow10_le(a: nat, b: nat)
    requires
        a <= b,
    ensures
        pow10(a) <= pow10(b),
    decreases b,
{
    if a < b {
        lemma_pow10_le(a, (b - 1) as nat);
        let p = pow10((b - 1) as nat);
        assert(pow10(b) == 10 * p);
        assert(p >= 1) by {
            lemma_pow10_pos((b - 1) as nat);
        }
    }
}

proof fn lemma_pow10_pos(n: nat)
    ensures
        pow10(n) >= 1,
    decreases n,
{
    if n > 0 {
        lemma_pow10_pos((n - 1) as nat);
    }
}

/// Digits parsed as a `u64`; an empty string denotes zero.
fn digits_to_u64(s: &[u8]) -> (r: Option<u64>)
    ensures
        match r {
            Some(v) => all_digits(s@) && digits_val(s@) == v,
            None => !(all_digits(s@) && digits_val(s@) <= u64::MAX),
        },
{
    let mut acc: u64 = 0;
    let mut i: usize = 0;
    proof {
        assert(s@.take(0) =~= Seq::<u8>::empty());
    }
    while i < s.len()
        invariant
            i <= s@.len(),
            all_digits(s@.take(i as int)),
            acc == digits_val(s@.take(i as int)),
            acc <= u64::MAX,
        decreases s@.len() - i,
    {
        let b = s[i];
        if !(48 <= b && b <= 57) {
            proof {
                assert(!crate::text::is_digit(s@[i as int]));
            }
            return None;
        }
        let d = (b - 48) as u64;
        proof {
            crate::text::lemma_digits_val_take(s@, i as int);
        }
        if acc > u64::MAX / 10 || (acc == u64::MAX / 10 && d > u64::MAX % 10) {
            proof {
                assert(acc * 10 + d > u64::MAX) by (nonlinear_arith)
                    requires
                        acc > u64::MAX / 10 || (acc == u64::MAX / 10 && d > u64::MAX % 10),
                        d < 10,
                        u64::MAX == u64::MAX / 10 * 10 + u64::MAX % 10,
                ;
                crate::text::lemma_digits_val_exceeds(s@, i as int, u64::MAX as nat);
            }
            return None;
        }
        proof {
            assert(acc * 10 + d <= u64::MAX) by (nonlinear_arith)
                requires
                    acc <= u64::MAX / 10,
                    !(acc == u64::MAX / 10 && d > u64::MAX % 10),
                    d < 10,
                    u64::MAX == u64::MAX / 10 * 10 + u64::MAX % 10,
            ;
        }
        acc = acc * 10 + d;
        i = i + 1;
        proof {
            assert(all_digits(s@.take(i as int)));
        }
    }
    proof {
        assert(s@.take(s@.len() as int) =~= s@);
    }
    Some(acc)
}

/// Parses a decimal seconds argument into a duration. Exactly the strings
/// that `dur_arg` accepts succeed; everything else is an `ArgFormatError`.
pub fn duration_from_arg(arg: &[u8]) -> (r: Result<DurationVal, InterpreterError>)
    ensures
        match r {
            Ok(v) => dur_arg(arg@) == Some(v) && v.wf(),
            Err(e) => dur_arg(arg@) is None && e == InterpreterError::ArgFormatError,
        },
{
    let start: usize = if arg.len() > 0 && arg[0] == PLUS {
        1
    } else {
        0
    };
    let (_, body) = arg.split_at(start);
    proof {
        assert(body@ =~= unsigned_body(arg@));
    }
    let d = scan_byte(body, 0, DOT);
    proof {
        assert(body@.skip(0) =~= body@);
        crate::text::lemma_find_byte(body@, DOT);
    }
    if d == body.len() {
        // no decimal point: not a duration
        return Err(InterpreterError::ArgFormatError);
    }
    if body.len() == 1 {
        // the body is just the dot: no digit at all
        proof {
            assert(unsigned_body(arg@).take(d as int).len() + unsigned_body(arg@).skip(
                d as int + 1,
            ).len() == 0);
        }
        return Err(InterpreterError::ArgFormatError);
    }
    let (ip, dot_fp) = body.split_at(d);
    let (_, fp) = dot_fp.split_at(1);
    proof {
        assert(ip@ =~= unsigned_body(arg@).take(d as int));
        assert(fp@ =~= unsigned_body(arg@).skip(d as int + 1));
        assert(ip@.len() + fp@.len() > 0);
    }
    let secs = match digits_to_u64(ip) {
        Some(v) => v,
        None => {
            return Err(InterpreterError::ArgFormatError);
        },
    };
    let nanos = match frac_to_nanos(fp) {
        Some(v) => v,
        None => {
            return Err(InterpreterError::ArgFormatError);
        },
    };
    Ok(DurationVal { secs, nanos })
}

/// The fractional digits of a duration as nanoseconds.
fn frac_to_nanos(fp: &[u8]) -> (r: Option<u32>)
    ensures
        match r {
            Some(v) => all_digits(fp@) && frac_nanos(fp@) == v && v < 1_000_000_000,
            None => !all_digits(fp@),
        },
{
    proof {
        reveal_with_fuel(pow10, 11);
    }
    let mut acc: u32 = 0;
    let mut i: usize = 0;
    proof {
        assert(fp@.take(0) =~= Seq::<u8>::empty());
    }
    while i < fp.len()
        invariant
            i <= fp@.len(),
            all_digits(fp@.take(i as int)),
            acc == digits_val(fp@.take(if i < 9 { i as int } else { 9 })),
            acc < pow10(if i < 9 { i as nat } else { 9 }),
        decreases fp@.len() - i,
    {
        let b = fp[i];
        if !(48 <= b && b <= 57) {
            proof {
                assert(!crate::text::is_digit(fp@[i as int]));
            }
            return None;
        }
        let d = (b - 48) as u32;
        if i < 9 {
            proof {
                reveal_with_fuel(pow10, 11);
                crate::text::lemma_digits_val_take(fp@, i as int);
                assert(fp@.take(i + 1).take(i as int) =~= fp@.take(i as int));
                let a = acc as nat;
                assert(a * 10 == a + a + a + a + a + a + a + a + a + a) by (nonlinear_arith);
                let p = pow10(i as nat);
                assert(p * 10 == p + p + p + p + p + p + p + p + p + p) by (nonlinear_arith);
                assert(pow10((i + 1) as nat) == 10 * p);
                lemma_pow10_le((i + 1) as nat, 9);
            }
            acc = acc * 10 + d;
        } else {
            proof {
                assert(fp@.take(i + 1).take(9) =~= fp@.take(9));
            }
        }
        i = i + 1;
        proof {
            assert(all_digits(fp@.take(i as int)));
            if i < 9 {
            } else {
                assert(fp@.take(i as int).take(9) =~= fp@.take(9));
            }
        }
    }
    proof {
        assert(fp@.take(fp@.len() as int) =~= fp@);
    }
    if fp.len() < 9 {
        let m = pow10_u32(9 - fp.len());
        proof {
            reveal_with_fuel(pow10, 11);
            assert(fp@.take(fp@.len() as int) =~= fp@);
            lemma_pow10_mul_bound(acc as nat, fp@.len() as nat, (9 - fp@.len()) as nat);
            assert((fp@.len() + (9 - fp@.len())) as nat == 9);
            assert(acc * m <= u32::MAX) by (nonlinear_arith)
                requires
                    (acc as nat) * (m as nat) < pow10(9),
                    pow10(9) == 1_000_000_000,
            ;
        }
        let out = acc * m;
        return Some(out);
    }
    proof {
        assert(fp@.take(9) =~= fp@.take(9));
        lemma_pow10_le(9, 9);
    }
    Some(acc)
}

} // verus!
