//! Capture sizing: exact decimal readings of the size replies, and the
//! block count they demand.

use vstd::prelude::*;
use crate::numtext::{
    all_digits, chars_of, digits_val, lemma_digits_val_nonneg, parse_digit_run, spec_is_digit,
};

verus! {

/// Ten raised to a power.
pub open spec fn pow10(k: nat) -> nat
    decreases k,
{
    if k == 0 {
        1
    } else {
        10 * pow10((k - 1) as nat)
    }
}

pub proof fn lemma_pow10_le19(k: nat)
    requires
        k <= 19,
    ensures
        pow10(k) <= 10000000000000000000,
    decreases k,
{
    if k == 0 {
    } else if k < 19 {
        lemma_pow10_19_chain();
        lemma_pow10_mono(k, 19);
    } else {
        lemma_pow10_19_chain();
    }
}

pub proof fn lemma_pow10_mono(a: nat, b: nat)
    requires
        a <= b,
    ensures
        pow10(a) <= pow10(b),
    decreases b,
{
    if a < b {
        lemma_pow10_mono(a, (b - 1) as nat);
        lemma_pow10_pos((b - 1) as nat);
    }
}

pub proof fn lemma_pow10_pos(k: nat)
    ensures
        pow10(k) >= 1,
    decreases k,
{
    if k > 0 {
        lemma_pow10_pos((k - 1) as nat);
    }
}

pub proof fn lemma_pow10_19_chain()
    ensures
        pow10(19) == 10000000000000000000,
{
    assert(pow10(1) == 10 * pow10(0));
    assert(pow10(2) == 10 * pow10(1));
    assert(pow10(3) == 10 * pow10(2));
    assert(pow10(4) == 10 * pow10(3));
    assert(pow10(5) == 10 * pow10(4));
    assert(pow10(6) == 10 * pow10(5));
    assert(pow10(7) == 10 * pow10(6));
    assert(pow10(8) == 10 * pow10(7));
    assert(pow10(9) == 10 * pow10(8));
    assert(pow10(10) == 10 * pow10(9));
    assert(pow10(11) == 10 * pow10(10));
    assert(pow10(12) == 10 * pow10(11));
    assert(pow10(13) == 10 * pow10(12));
    assert(pow10(14) == 10 * pow10(13));
    assert(pow10(15) == 10 * pow10(14));
    assert(pow10(16) == 10 * pow10(15));
    assert(pow10(17) == 10 * pow10(16));
    assert(pow10(18) == 10 * pow10(17));
    assert(pow10(19) == 10 * pow10(18));
}

/// A dot at `i` splits the text into an integer part and a fraction part,
/// digits on both sides, the integer part nonempty.
pub open spec fn is_dot_split(s: Seq<char>, i: int) -> bool {
    &&& 0 < i < s.len()
    &&& s[i] == '.'
    &&& all_digits(s.subrange(0, i))
    &&& all_digits(s.subrange(i + 1, s.len() as int))
}

proof fn lemma_dot_split_unique(s: Seq<char>, i: int, j: int)
    requires
        is_dot_split(s, i),
        is_dot_split(s, j),
    ensures
        i == j,
{
    if i < j {
        assert(s.subrange(i + 1, s.len() as int)[j - i - 1] == s[j]);
        assert(spec_is_digit(s[j]));
    } else if j < i {
        assert(s.subrange(j + 1, s.len() as int)[i - j - 1] == s[i]);
        assert(spec_is_digit(s[i]));
    }
}

/// Magnitude of decimal text with an optional fraction — digits, or digits
/// '.' digits — as (numerator, scale): the value is numerator / 10^scale.
pub open spec fn rat_mag(s: Seq<char>) -> Option<(nat, nat)> {
    if s.len() > 0 && all_digits(s) {
        Some((digits_val(s) as nat, 0))
    } else if exists|i: int| is_dot_split(s, i) {
        let i = choose|i: int| is_dot_split(s, i);
        let ip = s.subrange(0, i);
        let fp = s.subrange(i + 1, s.len() as int);
        Some(
            (
                (digits_val(ip) * pow10(fp.len()) + digits_val(fp)) as nat,
                fp.len(),
            ),
        )
    } else {
        None
    }
}

/// Signed decimal reading of sizing text: optional sign, digits, optional
/// fraction; the value is the first component over 10^scale.
pub open spec fn rat_of(s: Seq<char>) -> Option<(int, nat)> {
    if s.len() > 0 && (s[0] == '+' || s[0] == '-') {
        match rat_mag(s.subrange(1, s.len() as int)) {
            Some((n, k)) => Some(
                (
                    if s[0] == '-' {
                        -(n as int)
                    } else {
                        n as int
                    },
                    k,
                ),
            ),
            None => None,
        }
    } else {
        match rat_mag(s) {
            Some((n, k)) => Some((n as int, k)),
            None => None,
        }
    }
}

/// A sizing reading the sequencer accepts: nonnegative, numerator within
/// 64 bits, scale at most 19.
pub open spec fn capture_rat(s: Seq<char>) -> Option<(nat, nat)> {
    match rat_of(s) {
        Some((n, k)) => if 0 <= n <= u64::MAX && k <= 19 {
            Some((n as nat, k))
        } else {
            None
        },
        None => None,
    }
}

/// The block count the two sizing replies demand: the floor of
/// size / blocksize on their exact decimal readings, clamped to `i32::MAX`;
/// `None` when either text is rejected or the block size reads as zero.
pub open spec fn spec_block_count(st: Seq<char>, bt: Seq<char>) -> Option<int> {
    match (capture_rat(st), capture_rat(bt)) {
        (Some((n1, k1)), Some((n2, k2))) => if n2 == 0 {
            None
        } else {
            let q = (n1 * pow10(k2)) as int / (n2 * pow10(k1)) as int;
            Some(
                if q > i32::MAX {
                    i32::MAX as int
                } else {
                    q
                },
            )
        },
        _ => None,
    }
}

/// Computes ten to the `k` for scales the sequencer accepts.
fn pow10_exec(k: usize) -> (r: u64)
    requires
        k <= 19,
    ensures
        r == pow10(k as nat),
{
    proof {
        lemma_pow10_19_chain();
    }
    let mut r: u64 = 1;
    let mut i: usize = 0;
    while i < k
        invariant
            i <= k <= 19,
            r == pow10(i as nat),
        decreases k - i,
    {
        proof {
            lemma_pow10_19_chain();
            lemma_pow10_mono((i + 1) as nat, 19);
        }
        r = r * 10;
        i = i + 1;
    }
    r
}

/// Parses one sizing reply into (numerator, scale) per `capture_rat`.
pub fn parse_capture_rat(t: &Vec<char>) -> (r: Option<(u64, usize)>)
    ensures
        ({
            match capture_rat(t@) {
                Some((n, k)) => r matches Some(p) && p.0 as nat == n && p.1 as nat == k,
                None => r.is_none(),
            }
        }),
{
    let n = t.len();
    let mut start: usize = 0;
    let mut neg = false;
    if n > 0 && (t[0] == '+' || t[0] == '-') {
        start = 1;
        neg = t[0] == '-';
    }
    let ghost m = t@.subrange(start as int, n as int);
    proof {
        if start == 0 {
            assert(m =~= t@);
        }
    }
    // find the first dot in the magnitude
    let mut j: usize = start;
    while j < n && t[j] != '.'
        invariant
            start <= j <= n == t@.len(),
            forall|x: int| start <= x < j ==> t@[x] != '.',
        decreases n - j,
    {
        j = j + 1;
    }
    let dot: usize = j;
    if dot == n {
        // no fraction: plain digits
        proof {
            assert(forall|x: int| 0 <= x < m.len() ==> m[x] == t@[x + start]);
            if !(m.len() > 0 && all_digits(m)) {
                // no split either: m holds no dot at all
                assert forall|i: int| !is_dot_split(m, i) by {
                    if 0 < i < m.len() {
                        assert(m[i] == t@[i + start]);
                        assert(t@[i + start] != '.');
                    }
                }
            }
            if m.len() > 0 && all_digits(m) {
                lemma_digits_val_nonneg(m);
            }
        }
        match parse_digit_run(t, start, n) {
            Some(v) => {
                if neg && v > 0 {
                    None
                } else {
                    Some((v, 0))
                }
            },
            None => {
                proof {
                    if m.len() > 0 && all_digits(m) {
                        // the run overflowed: the reading is out of range
                        assert(digits_val(m) > u64::MAX);
                    }
                }
                None
            },
        }
    } else {
        // integer part start..dot, fraction part dot+1..n
        let ghost di = dot - start;
        let scale: usize = n - dot - 1;
        let ip = parse_digit_run(t, start, dot);
        let fp: Option<u64> = if dot + 1 == n {
            Some(0)
        } else {
            parse_digit_run(t, dot + 1, n)
        };
        proof {
            assert(m.subrange(0, di as int) =~= t@.subrange(start as int, dot as int));
            assert(m.subrange(di as int + 1, m.len() as int) =~= t@.subrange(
                dot as int + 1,
                n as int,
            ));
            assert(m[di as int] == t@[dot as int]);
            assert(!all_digits(m)) by {
                assert(m[di as int] == '.');
                assert(!spec_is_digit('.'));
            }
        }
        let ghost ipv = digits_val(m.subrange(0, di as int));
        let ghost fpv = digits_val(m.subrange(di as int + 1, m.len() as int));
        match (ip, fp) {
            (Some(a), Some(b)) => {
                proof {
                    assert(is_dot_split(m, di as int));
                    let ci = choose|i: int| is_dot_split(m, i);
                    lemma_dot_split_unique(m, ci, di as int);
                    lemma_digits_val_nonneg(m.subrange(0, di as int));
                    if dot as int + 1 < n as int {
                        lemma_digits_val_nonneg(m.subrange(di as int + 1, m.len() as int));
                    } else {
                        assert(m.subrange(di as int + 1, m.len() as int).len() == 0);
                    }
                }
                if scale > 19 {
                    None
                } else {
                    let p = pow10_exec(scale);
                    proof {
                        lemma_pow10_19_chain();
                        lemma_pow10_le19(scale as nat);
                        assert((a as nat) * (p as nat) <= 0xffffffffffffffff
                            * 10000000000000000000) by (nonlinear_arith)
                            requires
                                a <= 0xffffffffffffffff,
                                p <= 10000000000000000000,
                        ;
                    }
                    let num: u128 = (a as u128) * (p as u128) + (b as u128);
                    if num > 0xffffffffffffffff {
                        proof {
                            assert(ipv * pow10(scale as nat) + fpv > u64::MAX);
                        }
                        None
                    } else if neg && num > 0 {
                        None
                    } else {
                        Some((num as u64, scale))
                    }
                }
            },
            _ => {
                proof {
                    if exists|i: int| is_dot_split(m, i) {
                        let ci = choose|i: int| is_dot_split(m, i);
                        assert(m[ci] == '.');
                        assert forall|x: int| 0 <= x < di implies m[x] != '.' by {
                            assert(m[x] == t@[x + start]);
                            assert(t@[x + start] != '.');
                        }
                        if ci > di as int {
                            assert(m.subrange(0, ci)[di as int] == m[di as int]);
                            assert(spec_is_digit(m[di as int]));
                        }
                        assert(ci == di as int);
                        // both parts are digit runs, so a failed run overflowed
                        lemma_digits_val_nonneg(m.subrange(0, di as int));
                        lemma_digits_val_nonneg(m.subrange(di as int + 1, m.len() as int));
                        lemma_pow10_pos((m.len() - di - 1) as nat);
                        if ip.is_none() {
                            assert(ipv > u64::MAX);
                            assert(ipv * pow10((m.len() - di - 1) as nat) >= ipv * 1)
                                by (nonlinear_arith)
                                requires
                                    pow10((m.len() - di - 1) as nat) >= 1,
                                    ipv >= 0,
                            ;
                        } else {
                            assert(fpv > u64::MAX);
                            assert(ipv * pow10((m.len() - di - 1) as nat) >= 0)
                                by (nonlinear_arith)
                                requires
                                    pow10((m.len() - di - 1) as nat) >= 1,
                                    ipv >= 0,
                            ;
                        }
                    }
                }
                None
            },
        }
    }
}

/// Computes the block count from the two sizing replies: the floor of
/// size / blocksize on exact decimal readings, clamped to `i32::MAX`.
/// `None` exactly when a reply is rejected or the block size reads as zero.
pub fn block_count(size_text: &str, blocksize_text: &str) -> (r: Option<i32>)
    ensures
        ({
            match spec_block_count(size_text@, blocksize_text@) {
                Some(q) => r matches Some(c) && c as int == q && 0 <= q <= i32::MAX,
                None => r.is_none(),
            }
        }),
{
    let st = chars_of(size_text);
    let bt = chars_of(blocksize_text);
    let a = parse_capture_rat(&st);
    let b = parse_capture_rat(&bt);
    match (a, b) {
        (Some((n1, k1)), Some((n2, k2))) => {
            if n2 == 0 {
                None
            } else {
                let pa = pow10_exec(k2);
                let pb = pow10_exec(k1);
                proof {
                    lemma_pow10_19_chain();
                    lemma_pow10_le19(k2 as nat);
                    lemma_pow10_le19(k1 as nat);
                    lemma_pow10_pos(k1 as nat);
                    lemma_pow10_pos(k2 as nat);
                    assert((n1 as nat) * (pa as nat) < 0x100000000000000000000000000000000)
                        by (nonlinear_arith)
                        requires
                            n1 <= 0xffffffffffffffff,
                            pa <= 10000000000000000000,
                    ;
                    assert((n2 as nat) * (pb as nat) < 0x100000000000000000000000000000000)
                        by (nonlinear_arith)
                        requires
                            n2 <= 0xffffffffffffffff,
                            pb <= 10000000000000000000,
                    ;
                    assert((n2 as nat) * (pb as nat) >= 1) by (nonlinear_arith)
                        requires
                            n2 >= 1,
                            pb >= 1,
                    ;
                }
                let num: u128 = (n1 as u128) * (pa as u128);
                let den: u128 = (n2 as u128) * (pb as u128);
                let q = num / den;
                if q > 0x7fffffff {
                    Some(0x7fffffff)
                } else {
                    Some(q as i32)
                }
            }
        },
        _ => None,
    }
}

} // verus!
