//! Byte-string arithmetic: big-endian encodings of machine integers and the
//! numeric value of a byte string read as one large big-endian integer. The
//! proof-of-work check compares a block hash against a difficulty target
//! through `be_val`.

use vstd::prelude::*;
use vstd::arithmetic::power::{pow, lemma_pow_positive};
use vstd::arithmetic::mul::lemma_mul_inequality;

verus! {

/// The eight bytes of a 64-bit value, most significant first.
pub open spec fn be64(v: u64) -> Seq<u8> {
    seq![
        (v >> 56) as u8,
        (v >> 48) as u8,
        (v >> 40) as u8,
        (v >> 32) as u8,
        (v >> 24) as u8,
        (v >> 16) as u8,
        (v >> 8) as u8,
        v as u8,
    ]
}

/// The numeric value of a byte string read as a big-endian integer.
pub open spec fn be_val(s: Seq<u8>) -> int
    decreases s.len(),
{
    if s.len() == 0 {
        0
    } else {
        s[0] * pow(256, (s.len() - 1) as nat) + be_val(s.drop_first())
    }
}

pub proof fn lemma_be_val_bounds(s: Seq<u8>)
    ensures
        0 <= be_val(s) < pow(256, s.len() as nat),
    decreases s.len(),
{
    reveal(pow);
    if s.len() == 0 {
    } else {
        let n = (s.len() - 1) as nat;
        lemma_be_val_bounds(s.drop_first());
        lemma_pow_positive(256, n);
        lemma_mul_inequality(s[0] as int, 255, pow(256, n));
        assert(pow(256, s.len() as nat) == 256 * pow(256, n));
    }
}

/// Leading zero bytes do not change the value.
pub proof fn lemma_be_val_zero_prefix(k: nat, s: Seq<u8>)
    ensures
        be_val(Seq::new(k, |i: int| 0u8) + s) == be_val(s),
    decreases k,
{
    let z = Seq::new(k, |i: int| 0u8);
    if k == 0 {
        assert(z + s =~= s);
    } else {
        let z1 = Seq::new((k - 1) as nat, |i: int| 0u8);
        assert((z + s).drop_first() =~= z1 + s);
        assert((z + s)[0] == 0u8);
        lemma_be_val_zero_prefix((k - 1) as nat, s);
    }
}

/// For equal-length byte strings that agree up to position `k` and differ
/// there, the one with the smaller byte at `k` has the smaller value.
pub proof fn lemma_be_val_lex(a: Seq<u8>, b: Seq<u8>, k: int)
    requires
        a.len() == b.len(),
        0 <= k < a.len(),
        forall|j: int| 0 <= j < k ==> a[j] == b[j],
        a[k] < b[k],
    ensures
        be_val(a) < be_val(b),
    decreases k,
{
    let n = (a.len() - 1) as nat;
    let p = pow(256, n);
    if k == 0 {
        lemma_be_val_bounds(a.drop_first());
        lemma_be_val_bounds(b.drop_first());
        lemma_pow_positive(256, n);
        lemma_mul_inequality(a[0] + 1, b[0] as int, p);
        assert((a[0] + 1) * p == a[0] * p + p) by (nonlinear_arith);
    } else {
        lemma_be_val_lex(a.drop_first(), b.drop_first(), k - 1);
        assert(a[0] == b[0]);
    }
}

/// Big-endian encoding of a 64-bit value.
pub fn u64_be_bytes(v: u64) -> (r: Vec<u8>)
    ensures
        r@ == be64(v),
{
    let mut r: Vec<u8> = Vec::new();
    r.push((v >> 56) as u8);
    r.push((v >> 48) as u8);
    r.push((v >> 40) as u8);
    r.push((v >> 32) as u8);
    r.push((v >> 24) as u8);
    r.push((v >> 16) as u8);
    r.push((v >> 8) as u8);
    r.push(v as u8);
    proof {
        assert(r@ =~= be64(v));
    }
    r
}

/// Whether two byte strings hold the same bytes.
pub fn bytes_eq(a: &Vec<u8>, b: &Vec<u8>) -> (r: bool)
    ensures
        r == (a@ == b@),
{
    if a.len() != b.len() {
        proof {
            assert(a@ != b@);
        }
        return false;
    }
    let n = a.len();
    let mut i: usize = 0;
    while i < n
        invariant
            n == a@.len() == b@.len(),
            0 <= i <= n,
            forall|j: int| 0 <= j < i ==> a@[j] == b@[j],
        decreases n - i,
    {
        if a[i] != b[i] {
            proof {
                assert(a@[i as int] != b@[i as int]);
            }
            return false;
        }
        i += 1;
    }
    proof {
        assert(a@ =~= b@);
    }
    true
}

/// Whether the value of `a` read as a big-endian integer is at most that of
/// `b`: the two are aligned at their least significant byte and compared from
/// the most significant position down.
pub fn be_le(a: &Vec<u8>, b: &Vec<u8>) -> (r: bool)
    ensures
        r == (be_val(a@) <= be_val(b@)),
{
    let n = if a.len() < b.len() {
        b.len()
    } else {
        a.len()
    };
    let pa = n - a.len();
    let pb = n - b.len();
    let ghost az = Seq::new(pa as nat, |i: int| 0u8) + a@;
    let ghost bz = Seq::new(pb as nat, |i: int| 0u8) + b@;
    proof {
        lemma_be_val_zero_prefix(pa as nat, a@);
        lemma_be_val_zero_prefix(pb as nat, b@);
        assert(az.len() == n && bz.len() == n);
    }
    let mut i: usize = 0;
    while i < n
        invariant
            n == az.len() == bz.len(),
            0 <= i <= n,
            pa == n - a@.len() && pb == n - b@.len(),
            az == Seq::new(pa as nat, |j: int| 0u8) + a@,
            bz == Seq::new(pb as nat, |j: int| 0u8) + b@,
            be_val(az) == be_val(a@) && be_val(bz) == be_val(b@),
            forall|j: int| 0 <= j < i ==> az[j] == bz[j],
        decreases n - i,
    {
        let x = if i >= pa {
            a[i - pa]
        } else {
            0u8
        };
        let y = if i >= pb {
            b[i - pb]
        } else {
            0u8
        };
        proof {
            assert(az[i as int] == x && bz[i as int] == y);
        }
        if x < y {
            proof {
                lemma_be_val_lex(az, bz, i as int);
            }
            return true;
        }
        if x > y {
            proof {
                lemma_be_val_lex(bz, az, i as int);
            }
            return false;
        }
        i += 1;
    }
    proof {
        assert(az =~= bz);
    }
    true
}

} // verus!
