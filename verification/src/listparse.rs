//! Tolerant parsing of a bracketed, comma-separated byte list: each token
//! is trimmed and read as a decimal byte, with 0 standing in for a
//! malformed token so the output keeps its alignment.

use vstd::prelude::*;
use crate::codec::{spec_byte_list, spec_byte_list_inner};
use crate::numtext::{
    all_digits, chars_of, dec_digits, lemma_dec_digits_val, lemma_digits_val_nonneg,
    lemma_unsigned_text_round_trip, parse_unsigned, spec_is_digit, unsigned_text_val,
};

verus! {

/// Characters trimmed from token edges.
pub open spec fn is_space(c: char) -> bool {
    c == ' ' || c == '\t' || c == '\n' || c == '\r'
}

/// The token without leading and trailing whitespace.
pub open spec fn trimmed(t: Seq<char>) -> Seq<char>
    decreases t.len(),
{
    if t.len() == 0 {
        t
    } else if is_space(t[0]) {
        trimmed(t.drop_first())
    } else if is_space(t.last()) {
        trimmed(t.drop_last())
    } else {
        t
    }
}

/// Byte one token denotes: its trimmed text as a decimal byte, else 0.
pub open spec fn token_byte(t: Seq<char>) -> u8 {
    match unsigned_text_val(trimmed(t)) {
        Some(v) => if 0 <= v <= 255 {
            v as u8
        } else {
            0
        },
        None => 0,
    }
}

/// The text without any bracket characters.
pub open spec fn unbracketed(s: Seq<char>) -> Seq<char>
    decreases s.len(),
{
    if s.len() == 0 {
        s
    } else if s.last() == '[' || s.last() == ']' {
        unbracketed(s.drop_last())
    } else {
        unbracketed(s.drop_last()).push(s.last())
    }
}

/// Comma-separated tokens of a text; splitting "" gives one empty token.
pub open spec fn split_tokens(s: Seq<char>) -> Seq<Seq<char>>
    decreases s.len(),
{
    if s.len() == 0 {
        seq![Seq::<char>::empty()]
    } else if s.last() == ',' {
        split_tokens(s.drop_last()).push(Seq::<char>::empty())
    } else {
        let r = split_tokens(s.drop_last());
        r.update(r.len() - 1, r.last().push(s.last()))
    }
}

pub proof fn lemma_split_tokens_nonempty(s: Seq<char>)
    ensures
        split_tokens(s).len() >= 1,
    decreases s.len(),
{
    if s.len() > 0 {
        lemma_split_tokens_nonempty(s.drop_last());
    }
}

/// Bytes a bracketed, comma-separated list denotes: brackets dropped, each
/// comma-separated token trimmed and read as a decimal byte, 0 for a
/// malformed token.
pub open spec fn spec_byte_list_values(s: Seq<char>) -> Seq<u8> {
    split_tokens(unbracketed(s)).map_values(|t: Seq<char>| token_byte(t))
}

/// Reads one token as a decimal byte, trimming whitespace; 0 when it is
/// not a well-formed byte.
#[verifier::rlimit(50)]
fn token_byte_exec(t: &Vec<char>) -> (r: u8)
    ensures
        r == token_byte(t@),
{
    let mut lo: usize = 0;
    let mut hi: usize = t.len();
    proof {
        assert(t@.subrange(0, t@.len() as int) =~= t@);
    }
    while lo < hi && (t[lo] == ' ' || t[lo] == '\t' || t[lo] == '\n' || t[lo] == '\r')
        invariant
            lo <= hi <= t@.len(),
            trimmed(t@) == trimmed(t@.subrange(lo as int, hi as int)),
            hi == t@.len(),
        decreases hi - lo,
    {
        proof {
            assert(t@.subrange(lo as int, hi as int).drop_first() =~= t@.subrange(
                lo as int + 1,
                hi as int,
            ));
        }
        lo = lo + 1;
    }
    while hi > lo && (t[hi - 1] == ' ' || t[hi - 1] == '\t' || t[hi - 1] == '\n' || t[hi - 1]
        == '\r')
        invariant
            lo <= hi <= t@.len(),
            trimmed(t@) == trimmed(t@.subrange(lo as int, hi as int)),
            lo == hi || !is_space(t@[lo as int]),
        decreases hi,
    {
        proof {
            assert(t@.subrange(lo as int, hi as int).drop_last() =~= t@.subrange(
                lo as int,
                hi as int - 1,
            ));
            assert(t@.subrange(lo as int, hi as int)[0] == t@[lo as int]);
        }
        hi = hi - 1;
    }
    proof {
        let u = t@.subrange(lo as int, hi as int);
        if u.len() > 0 {
            assert(u[0] == t@[lo as int]);
            assert(u.last() == t@[hi as int - 1]);
        }
        assert(trimmed(u) == u);
    }
    let mut core: Vec<char> = Vec::new();
    let mut i: usize = lo;
    while i < hi
        invariant
            lo <= i <= hi <= t@.len(),
            core@ == t@.subrange(lo as int, i as int),
        decreases hi - i,
    {
        core.push(t[i]);
        proof {
            assert(t@.subrange(lo as int, i as int + 1) =~= t@.subrange(
                lo as int,
                i as int,
            ).push(t@[i as int]));
        }
        i = i + 1;
    }
    proof {
        assert(core@ =~= t@.subrange(lo as int, hi as int));
        let d = if core@.len() > 0 && core@[0] == '+' {
            core@.subrange(1, core@.len() as int)
        } else {
            core@
        };
        if d.len() > 0 && all_digits(d) {
            lemma_digits_val_nonneg(d);
        }
    }
    match parse_unsigned(&core, 255) {
        Some(v) => v as u8,
        None => 0,
    }
}

/// Parses a bracketed, comma-separated byte list, one byte per token, with
/// 0 for each malformed token.
pub fn parse_byte_list(text: &str) -> (r: Vec<u8>)
    ensures
        r@ == spec_byte_list_values(text@),
{
    let cs = chars_of(text);
    let mut out: Vec<u8> = Vec::new();
    let mut cur: Vec<char> = Vec::new();
    let n = cs.len();
    let mut i: usize = 0;
    while i < n
        invariant
            i <= n == cs@.len(),
            cs@ == text@,
            split_tokens(unbracketed(cs@.subrange(0, i as int))).len() >= 1,
            out@ == split_tokens(unbracketed(cs@.subrange(0, i as int))).drop_last().map_values(
                |t: Seq<char>| token_byte(t),
            ),
            cur@ == split_tokens(unbracketed(cs@.subrange(0, i as int))).last(),
        decreases n - i,
    {
        let ghost p = cs@.subrange(0, i as int);
        let ghost u = unbracketed(p);
        let ghost tk = split_tokens(u);
        let c = cs[i];
        proof {
            assert(cs@.subrange(0, i as int + 1) =~= p.push(c));
            assert(p.push(c).drop_last() =~= p);
            assert(p.push(c).last() == c);
        }
        if c == '[' || c == ']' {
            proof {
                assert(unbracketed(p.push(c)) == u);
            }
        } else {
            proof {
                assert(unbracketed(p.push(c)) == u.push(c));
                assert(u.push(c).drop_last() =~= u);
                assert(u.push(c).last() == c);
                lemma_split_tokens_nonempty(u);
            }
            if c == ',' {
                let b = token_byte_exec(&cur);
                out.push(b);
                cur = Vec::new();
                proof {
                    let tk2 = split_tokens(u.push(c));
                    assert(tk2 == tk.push(Seq::<char>::empty()));
                    assert(tk2.drop_last() =~= tk);
                    assert(tk.map_values(|t: Seq<char>| token_byte(t)) =~= tk.drop_last()
                        .map_values(|t: Seq<char>| token_byte(t)).push(token_byte(tk.last())));
                }
            } else {
                cur.push(c);
                proof {
                    let tk2 = split_tokens(u.push(c));
                    assert(tk2 == tk.update(tk.len() - 1, tk.last().push(c)));
                    assert(tk2.drop_last() =~= tk.drop_last());
                    assert(tk2.last() == tk.last().push(c));
                }
            }
        }
        i = i + 1;
    }
    proof {
        assert(cs@.subrange(0, n as int) =~= cs@);
        lemma_split_tokens_nonempty(unbracketed(cs@));
    }
    let b = token_byte_exec(&cur);
    out.push(b);
    proof {
        let tk = split_tokens(unbracketed(text@));
        assert(tk.map_values(|t: Seq<char>| token_byte(t)) =~= tk.drop_last().map_values(
            |t: Seq<char>| token_byte(t),
        ).push(token_byte(tk.last())));
    }
    out
}

/// A character the byte-list rendering can hold between its brackets.
pub open spec fn is_list_char(c: char) -> bool {
    spec_is_digit(c) || c == ',' || c == ' '
}

proof fn lemma_dec_digits_list_chars(n: nat)
    ensures
        forall|i: int|
            0 <= i < dec_digits(n).len() ==> spec_is_digit(#[trigger] dec_digits(n)[i]),
{
    lemma_dec_digits_val(n);
}

proof fn lemma_inner_list_chars(b: Seq<u8>)
    ensures
        forall|i: int|
            0 <= i < spec_byte_list_inner(b).len() ==> is_list_char(
                #[trigger] spec_byte_list_inner(b)[i],
            ),
    decreases b.len(),
{
    if b.len() == 0 {
    } else if b.len() == 1 {
        lemma_dec_digits_list_chars(b[0] as nat);
    } else {
        lemma_dec_digits_list_chars(b[0] as nat);
        lemma_inner_list_chars(b.drop_first());
        let d = dec_digits(b[0] as nat);
        let rest = spec_byte_list_inner(b.drop_first());
        let whole = d + seq![',', ' '] + rest;
        assert forall|i: int| 0 <= i < whole.len() implies is_list_char(whole[i]) by {
            if i < d.len() {
                assert(whole[i] == d[i]);
            } else if i < d.len() + 2 {
            } else {
                assert(whole[i] == rest[i - d.len() - 2]);
            }
        }
    }
}

proof fn lemma_unbracketed_open_prefix(t: Seq<char>)
    requires
        forall|i: int| 0 <= i < t.len() ==> #[trigger] t[i] != '[' && t[i] != ']',
    ensures
        unbracketed(seq!['['] + t) == t,
    decreases t.len(),
{
    if t.len() == 0 {
        assert(seq!['['] + t =~= seq!['[']);
        assert(seq!['['].last() == '[');
        assert(seq!['['].drop_last() =~= Seq::<char>::empty());
        assert(unbracketed(seq!['[']) == unbracketed(seq!['['].drop_last()));
        assert(unbracketed(Seq::<char>::empty()) == Seq::<char>::empty());
        assert(t =~= Seq::<char>::empty());
        assert(unbracketed(seq!['['] + t) == t);
    } else {
        lemma_unbracketed_open_prefix(t.drop_last());
        let s = seq!['['] + t;
        assert(t[t.len() - 1] != '[' && t[t.len() - 1] != ']');
        assert(s.last() == t[t.len() - 1]);
        assert(s.drop_last() =~= seq!['['] + t.drop_last());
        assert(s.last() != '[' && s.last() != ']');
        assert(unbracketed(s) == unbracketed(s.drop_last()).push(s.last()));
        assert(unbracketed(s.drop_last()) == t.drop_last());
        assert(t.drop_last().push(t.last()) =~= t);
        assert(unbracketed(seq!['['] + t) == t);
    }
}

proof fn lemma_unbracketed_render(b: Seq<u8>)
    ensures
        unbracketed(spec_byte_list(b)) == spec_byte_list_inner(b),
{
    lemma_inner_list_chars(b);
    let inner = spec_byte_list_inner(b);
    let s = spec_byte_list(b);
    assert(s.last() == ']');
    assert(s.drop_last() =~= seq!['['] + inner);
    assert forall|i: int| 0 <= i < inner.len() implies #[trigger] inner[i] != '[' && inner[i]
        != ']' by {
        assert(is_list_char(inner[i]));
    }
    lemma_unbracketed_open_prefix(inner);
}

proof fn lemma_split_comma_free(s: Seq<char>)
    requires
        forall|i: int| 0 <= i < s.len() ==> #[trigger] s[i] != ',',
    ensures
        split_tokens(s) == seq![s],
    decreases s.len(),
{
    if s.len() == 0 {
        assert(s =~= Seq::<char>::empty());
        assert(seq![s] =~= seq![Seq::<char>::empty()]);
    } else {
        lemma_split_comma_free(s.drop_last());
        let r = split_tokens(s.drop_last());
        assert(s[s.len() - 1] != ',');
        assert(s.last() != ',');
        assert(split_tokens(s) == r.update(r.len() - 1, r.last().push(s.last())));
        assert(r.last().push(s.last()) =~= s);
        assert(r.update(0, s) =~= seq![s]);
    }
}

proof fn lemma_split_append_token(u: Seq<char>, w: Seq<char>)
    requires
        forall|i: int| 0 <= i < w.len() ==> #[trigger] w[i] != ',',
    ensures
        split_tokens(u + seq![','] + w) == split_tokens(u).push(w),
    decreases w.len(),
{
    lemma_split_tokens_nonempty(u);
    if w.len() == 0 {
        assert(u + seq![','] + w =~= u.push(','));
        assert(u.push(',').drop_last() =~= u);
        assert(split_tokens(u.push(',')) == split_tokens(u).push(Seq::<char>::empty()));
        assert(w =~= Seq::<char>::empty());
    } else {
        lemma_split_append_token(u, w.drop_last());
        let v = u + seq![','] + w;
        assert(v.last() == w.last());
        assert(v.last() != ',');
        assert(v.drop_last() =~= u + seq![','] + w.drop_last());
        let r = split_tokens(u).push(w.drop_last());
        assert(split_tokens(v) == r.update(r.len() - 1, r.last().push(w.last())));
        assert(r.last() == w.drop_last());
        assert(w.drop_last().push(w.last()) =~= w);
        assert(r.update(r.len() - 1, w) =~= split_tokens(u).push(w));
    }
}

proof fn lemma_split_inner(b: Seq<u8>)
    ensures
        b.len() > 0 ==> {
            let tk = split_tokens(spec_byte_list_inner(b));
            &&& tk.len() == b.len()
            &&& tk[0] == dec_digits(b[0] as nat)
            &&& forall|i: int|
                1 <= i < b.len() ==> #[trigger] tk[i] == seq![' '] + dec_digits(b[i] as nat)
        },
    decreases b.len(),
{
    if b.len() == 1 {
        lemma_dec_digits_list_chars(b[0] as nat);
        lemma_split_comma_free(dec_digits(b[0] as nat));
    } else if b.len() > 1 {
        let p = b.drop_last();
        let x = b.last();
        lemma_split_inner(p);
        assert(p.push(x) =~= b);
        crate::codec::lemma_byte_list_inner_snoc(p, x);
        let d = dec_digits(x as nat);
        lemma_dec_digits_list_chars(x as nat);
        let w = seq![' '] + d;
        assert forall|i: int| 0 <= i < w.len() implies #[trigger] w[i] != ',' by {
            if i > 0 {
                assert(w[i] == d[i - 1]);
                assert(spec_is_digit(d[i - 1]));
            }
        }
        assert(spec_byte_list_inner(p) + seq![',', ' '] + d =~= spec_byte_list_inner(p)
            + seq![','] + w);
        lemma_split_append_token(spec_byte_list_inner(p), w);
    }
}

proof fn lemma_token_byte_of_digits(x: u8)
    ensures
        token_byte(dec_digits(x as nat)) == x,
        token_byte(seq![' '] + dec_digits(x as nat)) == x,
{
    let d = dec_digits(x as nat);
    lemma_dec_digits_val(x as nat);
    assert(!is_space(d[0]));
    assert(!is_space(d.last()));
    assert(trimmed(d) == d);
    lemma_unsigned_text_round_trip(x as nat);
    let w = seq![' '] + d;
    assert(w[0] == ' ');
    assert(w.drop_first() =~= d);
    assert(trimmed(w) == trimmed(d));
}

/// Law: the byte-list rendering of a nonempty byte string parses back to
/// exactly those bytes. (An empty string renders as a pair of brackets,
/// which reads as one empty token, hence a single zero byte.)
pub proof fn lemma_byte_list_round_trip(b: Seq<u8>)
    requires
        b.len() > 0,
    ensures
        spec_byte_list_values(crate::codec::spec_byte_list(b)) == b,
{
    lemma_unbracketed_render(b);
    lemma_split_inner(b);
    let tk = split_tokens(spec_byte_list_inner(b));
    assert forall|i: int| 0 <= i < b.len() implies token_byte(#[trigger] tk[i]) == b[i] by {
        lemma_token_byte_of_digits(b[i]);
    }
    assert(tk.map_values(|t: Seq<char>| token_byte(t)) =~= b);
}

} // verus!
