//! Decimal text: parsing and rendering of integers, with exact specifications.

use vstd::prelude::*;
use vstd::string::*;

verus! {

/// True exactly for the ten ASCII decimal digit characters.
pub open spec fn spec_is_digit(c: char) -> bool {
    '0' <= c && c <= '9'
}

/// Numeric value of an ASCII decimal digit character.
pub open spec fn spec_digit_val(c: char) -> int {
    c as int - '0' as int
}

/// Every character of the text is an ASCII decimal digit.
pub open spec fn all_digits(s: Seq<char>) -> bool {
    forall|i: int| 0 <= i < s.len() ==> spec_is_digit(#[trigger] s[i])
}

/// Value of a digit string read in base ten.
pub open spec fn digits_val(s: Seq<char>) -> int
    decreases s.len(),
{
    if s.len() == 0 {
        0
    } else {
        digits_val(s.drop_last()) * 10 + spec_digit_val(s.last())
    }
}

/// The integer a text denotes for an unsigned type: an optional leading '+',
/// then one or more decimal digits; `None` when malformed.
pub open spec fn unsigned_text_val(s: Seq<char>) -> Option<int> {
    let d = if s.len() > 0 && s[0] == '+' {
        s.subrange(1, s.len() as int)
    } else {
        s
    };
    if d.len() > 0 && all_digits(d) {
        Some(digits_val(d))
    } else {
        None
    }
}

/// The integer a text denotes for a signed type: an optional leading '+' or
/// '-', then one or more decimal digits; `None` when malformed.
pub open spec fn signed_text_val(s: Seq<char>) -> Option<int> {
    if s.len() > 0 && s[0] == '-' {
        let d = s.subrange(1, s.len() as int);
        if d.len() > 0 && all_digits(d) {
            Some(-digits_val(d))
        } else {
            None
        }
    } else {
        unsigned_text_val(s)
    }
}

pub proof fn lemma_digits_val_nonneg(s: Seq<char>)
    requires
        all_digits(s),
    ensures
        digits_val(s) >= 0,
    decreases s.len(),
{
    if s.len() > 0 {
        assert(all_digits(s.drop_last()));
        lemma_digits_val_nonneg(s.drop_last());
    }
}

pub proof fn lemma_digits_val_push(s: Seq<char>, c: char)
    ensures
        digits_val(s.push(c)) == digits_val(s) * 10 + spec_digit_val(c),
{
    assert(s.push(c).drop_last() =~= s);
    assert(s.push(c).last() == c);
}

/// A digit-string prefix never exceeds the whole string in value.
pub proof fn lemma_digits_val_prefix_le(s: Seq<char>, n: int)
    requires
        all_digits(s),
        0 <= n <= s.len(),
    ensures
        digits_val(s.subrange(0, n)) <= digits_val(s),
    decreases s.len() - n,
{
    if n < s.len() {
        let p = s.subrange(0, n);
        let q = s.subrange(0, n + 1);
        assert(q =~= p.push(s[n]));
        lemma_digits_val_push(p, s[n]);
        assert(all_digits(p));
        lemma_digits_val_nonneg(p);
        lemma_digits_val_prefix_le(s, n + 1);
    } else {
        assert(s.subrange(0, n) =~= s);
    }
}

/// Collects the characters of a string slice into a vector.
pub fn chars_of(s: &str) -> (r: Vec<char>)
    ensures
        r@ == s@,
{
    let n = s.unicode_len();
    let mut v: Vec<char> = Vec::new();
    let mut i: usize = 0;
    while i < n
        invariant
            i <= n,
            n == s@.len(),
            v@ == s@.subrange(0, i as int),
        decreases n - i,
    {
        let c = s.get_char(i);
        v.push(c);
        proof {
            assert(v@ =~= s@.subrange(0, i as int + 1));
        }
        i = i + 1;
    }
    proof {
        assert(v@ =~= s@);
    }
    v
}

/// Reads `s[start..end]` as a run of decimal digits; `None` when the run is
/// empty, holds a non-digit, or denotes a value above `u64::MAX`.
pub fn parse_digit_run(s: &Vec<char>, start: usize, end: usize) -> (r: Option<u64>)
    requires
        start <= end <= s@.len(),
    ensures
        ({
            let d = s@.subrange(start as int, end as int);
            match r {
                Some(v) => d.len() > 0 && all_digits(d) && digits_val(d) == v as int,
                None => !(d.len() > 0 && all_digits(d) && digits_val(d) <= u64::MAX),
            }
        }),
{
    let ghost d = s@.subrange(start as int, end as int);
    if start == end {
        return None;
    }
    let mut acc: u64 = 0;
    let mut i: usize = start;
    while i < end
        invariant
            start <= i <= end <= s@.len(),
            d == s@.subrange(start as int, end as int),
            all_digits(s@.subrange(start as int, i as int)),
            acc as int == digits_val(s@.subrange(start as int, i as int)),
        decreases end - i,
    {
        let c = s[i];
        let ghost p = s@.subrange(start as int, i as int);
        if !('0' <= c && c <= '9') {
            proof {
                assert(d[i - start] == c);
            }
            return None;
        }
        let dv: u64 = (c as u32 - 48) as u64;
        proof {
            assert(dv as int == spec_digit_val(c));
            assert(s@.subrange(start as int, i as int + 1) =~= p.push(c));
            lemma_digits_val_push(p, c);
        }
        if acc > u64::MAX / 10 || 10 * acc > u64::MAX - dv {
            proof {
                let q = s@.subrange(start as int, i as int + 1);
                assert(digits_val(q) > u64::MAX);
                if d.len() > 0 && all_digits(d) {
                    lemma_digits_val_prefix_le(d, i as int + 1 - start);
                    assert(d.subrange(0, i as int + 1 - start) =~= q);
                }
            }
            return None;
        }
        acc = 10 * acc + dv;
        i = i + 1;
    }
    proof {
        assert(s@.subrange(start as int, i as int) =~= d);
    }
    Some(acc)
}

/// Parses text as std does for an unsigned integer type whose maximum is
/// `max`: an optional leading '+', then decimal digits, value within range.
pub fn parse_unsigned(t: &Vec<char>, max: u64) -> (r: Option<u64>)
    ensures
        ({
            match unsigned_text_val(t@) {
                Some(v) => if v <= max as int {
                    r == Some(v as u64)
                } else {
                    r.is_none()
                },
                None => r.is_none(),
            }
        }),
{
    let n = t.len();
    let start: usize = if n > 0 && t[0] == '+' {
        1
    } else {
        0
    };
    let ghost d = if t@.len() > 0 && t@[0] == '+' {
        t@.subrange(1, t@.len() as int)
    } else {
        t@
    };
    proof {
        assert(d =~= t@.subrange(start as int, n as int));
        if d.len() > 0 && all_digits(d) {
            lemma_digits_val_nonneg(d);
        }
    }
    match parse_digit_run(t, start, n) {
        Some(v) => if v <= max {
            Some(v)
        } else {
            None
        },
        None => None,
    }
}

/// Parses text as std does for a signed integer type with bounds
/// `[min, max]`: an optional sign, then decimal digits, value within range.
pub fn parse_signed(t: &Vec<char>, min: i64, max: i64) -> (r: Option<i64>)
    requires
        min <= 0 <= max,
    ensures
        ({
            match signed_text_val(t@) {
                Some(v) => if min as int <= v <= max as int {
                    r == Some(v as i64)
                } else {
                    r.is_none()
                },
                None => r.is_none(),
            }
        }),
{
    let n = t.len();
    if n > 0 && t[0] == '-' {
        let ghost d = t@.subrange(1, t@.len() as int);
        proof {
            if d.len() > 0 && all_digits(d) {
                lemma_digits_val_nonneg(d);
            }
        }
        let lim: u64 = (-(min as i128)) as u64;
        match parse_digit_run(t, 1, n) {
            Some(mag) => {
                if mag <= lim {
                    if mag <= (i64::MAX as u64) {
                        Some(0i64 - (mag as i64))
                    } else {
                        Some(i64::MIN)
                    }
                } else {
                    None
                }
            },
            None => None,
        }
    } else {
        let ghost d = if t@.len() > 0 && t@[0] == '+' {
            t@.subrange(1, t@.len() as int)
        } else {
            t@
        };
        proof {
            if d.len() > 0 && all_digits(d) {
                lemma_digits_val_nonneg(d);
            }
        }
        match parse_unsigned(t, max as u64) {
            Some(v) => Some(v as i64),
            None => None,
        }
    }
}

/// Decimal digit character for a value below ten.
pub open spec fn spec_digit_char(d: int) -> char {
    if d == 0 {
        '0'
    } else if d == 1 {
        '1'
    } else if d == 2 {
        '2'
    } else if d == 3 {
        '3'
    } else if d == 4 {
        '4'
    } else if d == 5 {
        '5'
    } else if d == 6 {
        '6'
    } else if d == 7 {
        '7'
    } else if d == 8 {
        '8'
    } else {
        '9'
    }
}

/// Canonical decimal digit string of a nonnegative integer.
pub open spec fn dec_digits(n: nat) -> Seq<char>
    decreases n,
{
    if n < 10 {
        seq![spec_digit_char(n as int)]
    } else {
        dec_digits(n / 10) + seq![spec_digit_char((n % 10) as int)]
    }
}

/// Canonical decimal text of an integer, with a '-' sign for negatives.
pub open spec fn dec_int_text(n: int) -> Seq<char> {
    if n < 0 {
        seq!['-'] + dec_digits((-n) as nat)
    } else {
        dec_digits(n as nat)
    }
}

fn digit_str(d: u64) -> (r: &'static str)
    requires
        d < 10,
    ensures
        r@ == seq![spec_digit_char(d as int)],
{
    proof {
        reveal_strlit("0");
        reveal_strlit("1");
        reveal_strlit("2");
        reveal_strlit("3");
        reveal_strlit("4");
        reveal_strlit("5");
        reveal_strlit("6");
        reveal_strlit("7");
        reveal_strlit("8");
        reveal_strlit("9");
        assert("0"@ =~= seq![spec_digit_char(0)]);
        assert("1"@ =~= seq![spec_digit_char(1)]);
        assert("2"@ =~= seq![spec_digit_char(2)]);
        assert("3"@ =~= seq![spec_digit_char(3)]);
        assert("4"@ =~= seq![spec_digit_char(4)]);
        assert("5"@ =~= seq![spec_digit_char(5)]);
        assert("6"@ =~= seq![spec_digit_char(6)]);
        assert("7"@ =~= seq![spec_digit_char(7)]);
        assert("8"@ =~= seq![spec_digit_char(8)]);
        assert("9"@ =~= seq![spec_digit_char(9)]);
    }
    match d {
        0 => "0",
        1 => "1",
        2 => "2",
        3 => "3",
        4 => "4",
        5 => "5",
        6 => "6",
        7 => "7",
        8 => "8",
        _ => "9",
    }
}

/// Renders a 64-bit unsigned value as canonical decimal text.
pub fn u64_to_dec(n: u64) -> (r: String)
    ensures
        r@ == dec_digits(n as nat),
    decreases n,
{
    if n < 10 {
        digit_str(n).to_owned()
    } else {
        let prefix = u64_to_dec(n / 10);
        prefix.concat(digit_str(n % 10))
    }
}

/// Renders a 64-bit signed value as canonical decimal text.
pub fn i64_to_dec(n: i64) -> (r: String)
    ensures
        r@ == dec_int_text(n as int),
{
    if n >= 0 {
        u64_to_dec(n as u64)
    } else {
        let mag: u64 = (-(n as i128)) as u64;
        proof {
            reveal_strlit("-");
            assert("-"@ =~= seq!['-']);
        }
        let s = String::from_str("-");
        s.concat(u64_to_dec(mag).as_str())
    }
}

/// The canonical digit string of a value is nonempty, made of digits, and
/// reads back as that value.
pub proof fn lemma_dec_digits_val(n: nat)
    ensures
        dec_digits(n).len() >= 1,
        all_digits(dec_digits(n)),
        digits_val(dec_digits(n)) == n,
    decreases n,
{
    if n < 10 {
        let s = dec_digits(n);
        assert(s =~= seq![spec_digit_char(n as int)]);
        assert(s.drop_last() =~= Seq::<char>::empty());
        assert(spec_is_digit(spec_digit_char(n as int)));
        assert(s.len() == 1);
        assert(s.last() == spec_digit_char(n as int));
        assert(digits_val(s.drop_last()) == 0);
        assert(digits_val(s) == digits_val(s.drop_last()) * 10 + spec_digit_val(s.last()));
        assert(digits_val(s) == spec_digit_val(spec_digit_char(n as int)));
    } else {
        lemma_dec_digits_val(n / 10);
        let a = dec_digits(n / 10);
        let c = spec_digit_char((n % 10) as int);
        assert(dec_digits(n) =~= a.push(c));
        lemma_digits_val_push(a, c);
        assert(spec_is_digit(c));
        assert(spec_digit_val(c) == n % 10);
        assert(digits_val(a) * 10 + n % 10 == n as int);
        assert(forall|i: int| 0 <= i < a.push(c).len() ==> spec_is_digit(#[trigger] a.push(c)[i]));
    }
}

/// Law: canonical unsigned decimal text round-trips through parsing.
pub proof fn lemma_unsigned_text_round_trip(n: nat)
    ensures
        unsigned_text_val(dec_digits(n)) == Some(n as int),
{
    lemma_dec_digits_val(n);
    let s = dec_digits(n);
    assert(spec_is_digit(s[0]));
    assert(s[0] != '+');
}

/// Law: canonical signed decimal text round-trips through parsing.
pub proof fn lemma_signed_text_round_trip(n: int)
    ensures
        signed_text_val(dec_int_text(n)) == Some(n),
{
    if n >= 0 {
        lemma_dec_digits_val(n as nat);
        let s = dec_digits(n as nat);
        assert(spec_is_digit(s[0]));
        assert(s[0] != '-');
        assert(s[0] != '+');
    } else {
        lemma_dec_digits_val((-n) as nat);
        let s = dec_int_text(n);
        assert(s[0] == '-');
        assert(s.subrange(1, s.len() as int) =~= dec_digits((-n) as nat));
    }
}

} // verus!
