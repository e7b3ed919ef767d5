//! Canonical decimal text for the token's integer claims.

use vstd::prelude::*;

verus! {

/// Whether an ASCII byte is a decimal digit.
pub open spec fn is_digit(c: u8) -> bool {
    0x30 <= c <= 0x39
}

/// The canonical decimal text of a number: no sign, no leading zero.
pub open spec fn dec_digits(n: nat) -> Seq<u8>
    decreases n,
{
    if n < 10 {
        seq![(0x30 + n) as u8]
    } else {
        dec_digits(n / 10) + seq![(0x30 + n % 10) as u8]
    }
}

/// Whether a byte sequence is canonical decimal text.
pub open spec fn dec_text_valid(s: Seq<u8>) -> bool {
    &&& s.len() >= 1
    &&& (forall|i: int| 0 <= i < s.len() ==> is_digit(#[trigger] s[i]))
    &&& (s[0] != 0x30 || s.len() == 1)
}

/// The number encoded by decimal text.
pub open spec fn dec_value(s: Seq<u8>) -> nat
    decreases s.len(),
{
    if s.len() == 0 {
        0
    } else {
        (dec_value(s.drop_last()) * 10 + (s.last() - 0x30)) as nat
    }
}

/// Law: the canonical text of a number is valid and encodes that number.
pub proof fn lemma_dec_round_trip(n: nat)
    ensures
        dec_text_valid(dec_digits(n)),
        dec_value(dec_digits(n)) == n,
    decreases n,
{
    if n < 10 {
        let s = dec_digits(n);
        assert(s.len() == 1 && s[0] == (0x30 + n) as u8);
        assert(is_digit(s[0]));
        assert(s.drop_last() =~= Seq::<u8>::empty());
        assert(s.last() == (0x30 + n) as u8);
        assert(dec_value(s) == dec_value(s.drop_last()) * 10 + (s.last() - 0x30));
    } else {
        lemma_dec_round_trip(n / 10);
        let p = dec_digits(n / 10);
        let s = dec_digits(n);
        assert(s.drop_last() =~= p);
        assert(s.last() == (0x30 + n % 10) as u8);
        assert(dec_value(s) == (n / 10) * 10 + n % 10);
        assert forall|i: int| 0 <= i < s.len() implies is_digit(#[trigger] s[i]) by {
            if i < p.len() {
                assert(s[i] == p[i]);
            } else {
                assert(s[i] == (0x30 + n % 10) as u8);
            }
        }
        assert(s[0] == p[0]);
        if p.len() == 1 && p[0] == 0x30 {
            assert(p.drop_last() =~= Seq::<u8>::empty());
            assert(dec_value(Seq::<u8>::empty()) == 0);
            assert(dec_value(p) == 0);
            assert(false);
        }
    }
}

/// A value is never smaller than the value of any of its digit prefixes.
proof fn lemma_dec_value_prefix(s: Seq<u8>, j: int)
    requires
        0 <= j <= s.len(),
        forall|i: int| 0 <= i < s.len() ==> is_digit(#[trigger] s[i]),
    ensures
        dec_value(s.take(j)) <= dec_value(s),
    decreases s.len() - j,
{
    if j < s.len() {
        let t = s.take(j + 1);
        assert(t.drop_last() =~= s.take(j));
        assert(is_digit(s[j]));
        assert(dec_value(t) == dec_value(s.take(j)) * 10 + (s[j] - 0x30));
        lemma_dec_value_prefix(s, j + 1);
        assert(s.take(s.len() as int) =~= s);
    } else {
        assert(s.take(j) =~= s);
    }
}

/// Renders a number as canonical decimal text.
pub fn usize_to_decimal(n: usize) -> (r: Vec<u8>)
    ensures
        r@ == dec_digits(n as nat),
{
    if n == 0 {
        let mut out: Vec<u8> = Vec::new();
        out.push(0x30);
        assert(out@ =~= dec_digits(0));
        return out;
    }
    let mut rev: Vec<u8> = Vec::new();
    let mut m = n;
    proof {
        assert(dec_digits(n as nat) =~= dec_digits(n as nat) + rev@.reverse());
    }
    while m > 0
        invariant
            m > 0 ==> dec_digits(n as nat) == dec_digits(m as nat) + rev@.reverse(),
            m == 0 ==> rev@.len() >= 1 && dec_digits(n as nat) == rev@.reverse(),
        decreases m,
    {
        let ghost old_rev = rev@;
        let ghost old_m = m as nat;
        let d: u8 = 0x30 + (m % 10) as u8;
        rev.push(d);
        m = m / 10;
        proof {
            assert(rev@.reverse() =~= seq![d] + old_rev.reverse());
            if m > 0 {
                assert(old_m >= 10);
                assert(dec_digits(old_m) == dec_digits(old_m / 10) + seq![d]);
                assert(dec_digits(old_m / 10) + (seq![d] + old_rev.reverse()) =~= (dec_digits(
                    old_m / 10,
                ) + seq![d]) + old_rev.reverse());
            } else {
                assert(old_m < 10);
                assert(dec_digits(old_m) =~= seq![d]);
            }
        }
    }
    let mut out: Vec<u8> = Vec::new();
    let k = rev.len();
    let mut j: usize = 0;
    while j < k
        invariant
            j <= k,
            k == rev@.len(),
            dec_digits(n as nat) == rev@.reverse(),
            out@ == rev@.reverse().take(j as int),
        decreases k - j,
    {
        out.push(rev[k - 1 - j]);
        assert(out@ =~= rev@.reverse().take(j + 1));
        j += 1;
    }
    assert(out@ =~= rev@.reverse());
    out
}

/// Parses canonical decimal text whose value fits the machine word; any
/// other text is rejected.
pub fn decimal_to_usize(s: &Vec<u8>) -> (r: Option<usize>)
    ensures
        r is Some <==> dec_text_valid(s@) && dec_value(s@) <= usize::MAX,
        r matches Some(v) ==> v as nat == dec_value(s@),
{
    let n = s.len();
    if n == 0 {
        return None;
    }
    if s[0] == 0x30 && n > 1 {
        return None;
    }
    let mut val: usize = 0;
    let mut i: usize = 0;
    proof {
        assert(s@.take(0) =~= Seq::<u8>::empty());
    }
    while i < n
        invariant
            i <= n,
            n == s@.len(),
            forall|j: int| 0 <= j < i ==> is_digit(#[trigger] s@[j]),
            val as nat == dec_value(s@.take(i as int)),
        decreases n - i,
    {
        let c = s[i];
        if !(0x30 <= c && c <= 0x39) {
            assert(!is_digit(s@[i as int]));
            return None;
        }
        let d = c - 0x30;
        let ghost prefix = s@.take(i as int);
        proof {
            assert(s@.take(i + 1).drop_last() =~= prefix);
            assert(s@.take(i + 1).last() == c);
        }
        let stretched = match val.checked_mul(10) {
            Some(v) => v,
            None => {
                proof {
                    if dec_text_valid(s@) {
                        lemma_dec_value_prefix(s@, i + 1);
                    }
                }
                return None;
            },
        };
        let next = match stretched.checked_add(d as usize) {
            Some(v) => v,
            None => {
                proof {
                    if dec_text_valid(s@) {
                        lemma_dec_value_prefix(s@, i + 1);
                    }
                }
                return None;
            },
        };
        val = next;
        i += 1;
    }
    assert(s@.take(n as int) =~= s@);
    Some(val)
}

} // verus!
