use crate::buffer::ByteBuffer;
use vstd::prelude::*;

verus! {

/// True for the ASCII bytes `'0'` through `'9'`.
pub open spec fn is_dec_digit(b: u8) -> bool {
    0x30 <= b <= 0x39
}

pub open spec fn all_dec_digits(s: Seq<u8>) -> bool {
    forall|i: int| 0 <= i < s.len() ==> is_dec_digit(#[trigger] s[i])
}

/// Numeric value of one ASCII digit byte.
pub open spec fn digit_val(b: u8) -> nat {
    if b >= 0x30 {
        (b - 0x30) as nat
    } else {
        0
    }
}

/// Value of a big-endian sequence of ASCII decimal digit bytes.
pub open spec fn dec_value(s: Seq<u8>) -> nat
    decreases s.len(),
{
    if s.len() == 0 {
        0
    } else {
        dec_value(s.drop_last()) * 10 + digit_val(s.last())
    }
}

/// The shortest decimal digit representation of `n`, most significant first.
pub open spec fn dec_digits(n: nat) -> Seq<u8>
    decreases n,
{
    if n < 10 {
        seq![(n + 0x30) as u8]
    } else {
        dec_digits(n / 10).push((n % 10 + 0x30) as u8)
    }
}

/// A digit sequence is worth at least as much as any of its prefixes.
pub proof fn lemma_dec_value_prefix_le(s: Seq<u8>, k: int)
    requires
        0 <= k <= s.len(),
    ensures
        dec_value(s.take(k)) <= dec_value(s),
    decreases s.len(),
{
    if k < s.len() {
        assert(s.drop_last().take(k) == s.take(k));
        lemma_dec_value_prefix_le(s.drop_last(), k);
        assert(dec_value(s.drop_last()) * 10 + digit_val(s.last()) >= dec_value(s.drop_last()))
            by (nonlinear_arith);
    } else {
        assert(s.take(k) == s);
    }
}

proof fn lemma_reverse_push(s: Seq<u8>, b: u8)
    ensures
        s.push(b).reverse() == seq![b] + s.reverse(),
{
    assert(s.push(b).reverse() =~= seq![b] + s.reverse());
}

/// Append the decimal digits of `v` to `out`; false when they do not fit.
pub fn push_decimal<const N: usize>(out: &mut ByteBuffer<N>, v: usize) -> (ok: bool)
    ensures
        ok ==> final(out)@ == old(out)@ + dec_digits(v as nat),
        !ok ==> old(out)@.len() + dec_digits(v as nat).len() > N,
{
    let mut tmp: Vec<u8> = Vec::new();
    let mut x: usize = v;
    loop
        invariant_except_break
            dec_digits(v as nat) == dec_digits(x as nat) + tmp@.reverse(),
        ensures
            dec_digits(v as nat) == tmp@.reverse(),
        decreases x,
    {
        let d: u8 = (x % 10) as u8 + 0x30;
        proof {
            if x >= 10 {
                lemma_reverse_push(tmp@, d);
                assert(dec_digits(x as nat) == dec_digits((x as nat) / 10).push(d));
                assert(dec_digits((x as nat) / 10) + (seq![d] + tmp@.reverse()) =~= (dec_digits(
                    (x as nat) / 10,
                ).push(d)) + tmp@.reverse());
                assert((x / 10) as nat == (x as nat) / 10) by (nonlinear_arith);
                assert((x % 10) as nat == (x as nat) % 10) by (nonlinear_arith);
            } else {
                lemma_reverse_push(tmp@, d);
                assert(dec_digits(x as nat) == seq![d]);
                assert(seq![d] + tmp@.reverse() =~= tmp@.push(d).reverse());
            }
        }
        tmp.push(d);
        if x < 10 {
            break ;
        }
        x = x / 10;
    }
    let n = tmp.len();
    let mut i: usize = n;
    while i > 0
        invariant
            i <= n,
            n == tmp@.len(),
            dec_digits(v as nat) == tmp@.reverse(),
            out@ == old(out)@ + tmp@.reverse().take(n - i),
        decreases i,
    {
        i = i - 1;
        let b = tmp[i];
        proof {
            assert(tmp@.reverse()[n - 1 - i] == tmp@[i as int]);
            assert(tmp@.reverse().take(n - i) =~= tmp@.reverse().take(n - i - 1).push(b));
        }
        if out.try_push(b).is_err() {
            proof {
                assert(dec_digits(v as nat).len() == n);
            }
            return false;
        }
        assert(out@ =~= old(out)@ + tmp@.reverse().take(n - i));
    }
    proof {
        assert(tmp@.reverse().take(n as int) =~= tmp@.reverse());
    }
    true
}

/// Parse an ASCII decimal number; `None` when the bytes are not all digits,
/// are empty, or name a value above `usize::MAX`.
pub fn parse_decimal(s: &[u8]) -> (r: Option<usize>)
    ensures
        match r {
            Some(v) => all_dec_digits(s@) && s@.len() > 0 && v as nat == dec_value(s@),
            None => !(all_dec_digits(s@) && s@.len() > 0 && dec_value(s@) <= usize::MAX),
        },
{
    if s.len() == 0 {
        return None;
    }
    let mut v: usize = 0;
    let mut i: usize = 0;
    while i < s.len()
        invariant
            0 <= i <= s@.len(),
            all_dec_digits(s@.take(i as int)),
            v as nat == dec_value(s@.take(i as int)),
        decreases s@.len() - i,
    {
        let b = s[i];
        if !(0x30 <= b && b <= 0x39) {
            assert(!is_dec_digit(s@[i as int]));
            return None;
        }
        let d: usize = (b - 0x30) as usize;
        proof {
            assert(s@.take(i + 1).drop_last() == s@.take(i as int));
            assert(s@.take(i + 1).last() == s@[i as int]);
        }
        let v10 = match v.checked_mul(10) {
            Some(x) => x,
            None => {
                proof {
                    assert(dec_value(s@.take(i + 1)) > usize::MAX) by (nonlinear_arith)
                        requires
                            dec_value(s@.take(i + 1)) == dec_value(s@.take(i as int)) * 10
                                + digit_val(s@[i as int]),
                            dec_value(s@.take(i as int)) * 10 > usize::MAX,
                    ;
                    lemma_dec_value_prefix_le(s@, i + 1);
                }
                return None;
            },
        };
        let vn = match v10.checked_add(d) {
            Some(x) => x,
            None => {
                proof {
                    lemma_dec_value_prefix_le(s@, i + 1);
                }
                return None;
            },
        };
        v = vn;
        i = i + 1;
    }
    proof {
        assert(s@.take(i as int) == s@);
    }
    Some(v)
}

} // verus!
