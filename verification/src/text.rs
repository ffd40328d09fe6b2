//! Byte-level text helpers used by the load balancer.

use vstd::prelude::*;
use vstd::string::StringSliceAdditionalSpecFns;

verus! {

broadcast use vstd::utf8::encode_utf8_decode_utf8;

/// Two string slices hold the same text exactly when their UTF-8 bytes agree.
pub fn same_str(a: &str, b: &str) -> (r: bool)
    ensures
        r == (a@ == b@),
{
    let x = a.as_bytes();
    let y = b.as_bytes();
    let n = x.len();
    if n != y.len() {
        proof {
            if a@ == b@ {
                assert(x@ == y@);
            }
        }
        return false;
    }
    let mut i: usize = 0;
    while i < n
        invariant
            x@ == a.spec_bytes(),
            y@ == b.spec_bytes(),
            n == x@.len(),
            n == y@.len(),
            i <= n,
            forall|j: int| 0 <= j < i ==> x@[j] == y@[j],
        decreases n - i,
    {
        if x[i] != y[i] {
            proof {
                assert(x@[i as int] != y@[i as int]);
            }
            return false;
        }
        i = i + 1;
    }
    proof {
        assert(x@ =~= y@);
        assert(a@ == vstd::utf8::decode_utf8(a.spec_bytes()));
        assert(b@ == vstd::utf8::decode_utf8(b.spec_bytes()));
    }
    true
}

/// The ASCII decimal digits of `n`, most significant first, without leading zeros.
pub open spec fn digits(n: nat) -> Seq<u8>
    decreases n,
{
    if n < 10 {
        seq![(48 + n) as u8]
    } else {
        digits(n / 10) + seq![(48 + n % 10) as u8]
    }
}

/// The text that `format!("{}", v)` produces for an integer: an optional `-`
/// followed by the decimal digits of its magnitude.
pub open spec fn decimal(v: int) -> Seq<u8> {
    if v < 0 {
        seq![45u8] + digits((-v) as nat)
    } else {
        digits(v as nat)
    }
}

/// A number below `10^k` (with `k >= 1`) has at most `k` digits.
pub proof fn lemma_digits_len(n: nat, k: nat)
    requires
        k >= 1,
        n < pow10(k),
    ensures
        digits(n).len() <= k,
    decreases n,
{
    if n >= 10 {
        assert(k >= 2) by {
            if k == 1 {
                assert(pow10(1) == 10 * pow10(0));
            }
        }
        assert(pow10(k) == 10 * pow10((k - 1) as nat));
        lemma_digits_len(n / 10, (k - 1) as nat);
    }
}

/// Ten to the power `k`.
pub open spec fn pow10(k: nat) -> nat
    decreases k,
{
    if k == 0 {
        1
    } else {
        10 * pow10((k - 1) as nat)
    }
}

fn push_digits(n: u32, out: &mut Vec<u8>)
    ensures
        final(out)@ == old(out)@ + digits(n as nat),
    decreases n,
{
    if n >= 10 {
        push_digits(n / 10, out);
    }
    let d: u8 = (48 + n % 10) as u8;
    out.push(d);
    proof {
        if n >= 10 {
            assert(old(out)@ + digits((n / 10) as nat) + seq![d] =~= old(out)@ + digits(n as nat));
        } else {
            assert(old(out)@ + seq![d] =~= old(out)@ + digits(n as nat));
        }
    }
}

/// Decimal text of a 32-bit integer, as ASCII bytes.
pub fn decimal_bytes(v: i32) -> (r: Vec<u8>)
    ensures
        r@ == decimal(v as int),
        r@.len() <= 11,
{
    let mut out: Vec<u8> = Vec::new();
    let magnitude: u32;
    if v < 0 {
        out.push(45u8);
        magnitude = (0i64 - v as i64) as u32;
    } else {
        magnitude = v as u32;
    }
    push_digits(magnitude, &mut out);
    proof {
        reveal_with_fuel(pow10, 11);
        lemma_digits_len(magnitude as nat, 10);
        if v < 0 {
            assert(out@ =~= seq![45u8] + digits(magnitude as nat));
        } else {
            assert(out@ =~= digits(magnitude as nat));
        }
    }
    out
}

} // verus!
