use vstd::prelude::*;
use vstd::arithmetic::power2::*;
use vstd::arithmetic::mul::*;

verus! {

/// The eight bytes of a 64-bit value, least significant byte first.
pub open spec fn u64_le_bytes(n: u64) -> Seq<u8> {
    seq![
        (n & 0xff) as u8,
        ((n >> 8) & 0xff) as u8,
        ((n >> 16) & 0xff) as u8,
        ((n >> 24) & 0xff) as u8,
        ((n >> 32) & 0xff) as u8,
        ((n >> 40) & 0xff) as u8,
        ((n >> 48) & 0xff) as u8,
        ((n >> 56) & 0xff) as u8,
    ]
}

/// The 64-bit value read back from eight little-endian bytes.
pub open spec fn u64_from_le_bytes(s: Seq<u8>) -> u64
    recommends
        s.len() == 8,
{
    (s[0] as u64) | ((s[1] as u64) << 8) | ((s[2] as u64) << 16) | ((s[3] as u64) << 24)
        | ((s[4] as u64) << 32) | ((s[5] as u64) << 40) | ((s[6] as u64) << 48)
        | ((s[7] as u64) << 56)
}

/// Reading the little-endian bytes of a value gives the value back.
pub proof fn lemma_u64_le_round_trip(n: u64)
    ensures
        u64_from_le_bytes(u64_le_bytes(n)) == n,
{
    assert((((n & 0xff) as u8) as u64) | ((((n >> 8) & 0xff) as u8) as u64) << 8 | ((((n >> 16)
        & 0xff) as u8) as u64) << 16 | ((((n >> 24) & 0xff) as u8) as u64) << 24 | ((((n >> 32)
        & 0xff) as u8) as u64) << 32 | ((((n >> 40) & 0xff) as u8) as u64) << 40 | ((((n >> 48)
        & 0xff) as u8) as u64) << 48 | ((((n >> 56) & 0xff) as u8) as u64) << 56 == n)
        by (bit_vector);
    assert(u64_le_bytes(n)[0] == (n & 0xff) as u8);
    assert(u64_le_bytes(n)[7] == ((n >> 56) & 0xff) as u8);
}

/// Writing the value read from eight bytes gives those bytes back.
pub proof fn lemma_u64_le_bytes_of_value(b0: u8, b1: u8, b2: u8, b3: u8, b4: u8, b5: u8, b6: u8, b7: u8)
    ensures
        u64_le_bytes(u64_from_le_bytes(seq![b0, b1, b2, b3, b4, b5, b6, b7]))
            == seq![b0, b1, b2, b3, b4, b5, b6, b7],
{
    let n = u64_from_le_bytes(seq![b0, b1, b2, b3, b4, b5, b6, b7]);
    assert(n == (b0 as u64) | ((b1 as u64) << 8) | ((b2 as u64) << 16) | ((b3 as u64) << 24)
        | ((b4 as u64) << 32) | ((b5 as u64) << 40) | ((b6 as u64) << 48) | ((b7 as u64) << 56));
    assert({
        let m = (b0 as u64) | ((b1 as u64) << 8) | ((b2 as u64) << 16) | ((b3 as u64) << 24)
            | ((b4 as u64) << 32) | ((b5 as u64) << 40) | ((b6 as u64) << 48) | ((b7 as u64) << 56);
        (m & 0xff) as u8 == b0 && ((m >> 8) & 0xff) as u8 == b1 && ((m >> 16) & 0xff) as u8 == b2
            && ((m >> 24) & 0xff) as u8 == b3 && ((m >> 32) & 0xff) as u8 == b4
            && ((m >> 40) & 0xff) as u8 == b5 && ((m >> 48) & 0xff) as u8 == b6
            && ((m >> 56) & 0xff) as u8 == b7
    }) by (bit_vector);
    assert(u64_le_bytes(n) =~= seq![b0, b1, b2, b3, b4, b5, b6, b7]);
}

proof fn lemma_low_byte_fits(x: u64)
    ensures
        x & 0xff <= 0xff,
{
    assert(x & 0xff <= 0xff) by (bit_vector);
}

/// Emits the eight little-endian bytes of `n`.
pub fn u64_to_le(n: u64) -> (r: Vec<u8>)
    ensures
        r@ == u64_le_bytes(n),
        r@.len() == 8,
{
    let mut v: Vec<u8> = Vec::new();
    proof {
        lemma_low_byte_fits(n);
        lemma_low_byte_fits(n >> 8);
        lemma_low_byte_fits(n >> 16);
        lemma_low_byte_fits(n >> 24);
        lemma_low_byte_fits(n >> 32);
        lemma_low_byte_fits(n >> 40);
        lemma_low_byte_fits(n >> 48);
        lemma_low_byte_fits(n >> 56);
    }
    v.push((n & 0xff) as u8);
    v.push(((n >> 8) & 0xff) as u8);
    v.push(((n >> 16) & 0xff) as u8);
    v.push(((n >> 24) & 0xff) as u8);
    v.push(((n >> 32) & 0xff) as u8);
    v.push(((n >> 40) & 0xff) as u8);
    v.push(((n >> 48) & 0xff) as u8);
    v.push(((n >> 56) & 0xff) as u8);
    proof {
        assert(v@ =~= u64_le_bytes(n));
    }
    v
}

/// Reads a 64-bit value back from the eight bytes at `at` in `s`.
pub fn u64_from_le(s: &[u8], at: usize) -> (r: u64)
    requires
        at + 8 <= s@.len(),
    ensures
        r == u64_from_le_bytes(s@.subrange(at as int, at + 8)),
{
    let r = (s[at] as u64) | ((s[at + 1] as u64) << 8) | ((s[at + 2] as u64) << 16)
        | ((s[at + 3] as u64) << 24) | ((s[at + 4] as u64) << 32) | ((s[at + 5] as u64) << 40)
        | ((s[at + 6] as u64) << 48) | ((s[at + 7] as u64) << 56);
    proof {
        let sub = s@.subrange(at as int, at + 8);
        assert(sub[0] == s@[at as int] && sub[1] == s@[at + 1] && sub[2] == s@[at + 2]
            && sub[3] == s@[at + 3] && sub[4] == s@[at + 4] && sub[5] == s@[at + 5]
            && sub[6] == s@[at + 6] && sub[7] == s@[at + 7]);
    }
    r
}

/// The ASCII decimal digits of `n`, most significant first, with no
/// leading zeros except for the single digit of zero itself.
pub open spec fn dec_bytes(n: u64) -> Seq<u8>
    decreases n,
{
    if n < 10 {
        seq![(48 + n) as u8]
    } else {
        dec_bytes((n / 10) as u64).push((48 + n % 10) as u8)
    }
}

/// Formats `n` in ASCII decimal.
pub fn u64_to_dec(n: u64) -> (r: Vec<u8>)
    ensures
        r@ == dec_bytes(n),
    decreases n,
{
    if n < 10 {
        let mut v: Vec<u8> = Vec::new();
        v.push(48 + n as u8);
        proof {
            assert(v@ =~= dec_bytes(n));
        }
        v
    } else {
        let mut v = u64_to_dec(n / 10);
        v.push(48 + (n % 10) as u8);
        v
    }
}

/// The reserved all-zero predecessor hash that marks the genesis block.
pub open spec fn zero_hash_seq() -> Seq<u8> {
    Seq::new(32, |i: int| 0u8)
}

/// Builds the all-zero sentinel hash.
pub fn zero_hash() -> (r: Vec<u8>)
    ensures
        r@ == zero_hash_seq(),
{
    let mut v: Vec<u8> = Vec::new();
    let mut i: usize = 0;
    while i < 32
        invariant
            i <= 32,
            v@.len() == i,
            forall|j: int| 0 <= j < i ==> v@[j] == 0u8,
        decreases 32 - i,
    {
        v.push(0u8);
        i = i + 1;
    }
    proof {
        assert(v@ =~= zero_hash_seq());
    }
    v
}

/// Compares two byte strings for equality.
pub fn bytes_eq(a: &[u8], b: &[u8]) -> (r: bool)
    ensures
        r == (a@ == b@),
{
    if a.len() != b.len() {
        return false;
    }
    let n = a.len();
    let mut i: usize = 0;
    while i < n
        invariant
            i <= n,
            a@.len() == n,
            b@.len() == n,
            forall|j: int| 0 <= j < i ==> a@[j] == b@[j],
        decreases n - i,
    {
        if a[i] != b[i] {
            return false;
        }
        i = i + 1;
    }
    proof {
        assert(a@ =~= b@);
    }
    true
}

/// Copies the bytes of `s` between `from` and `to` into a fresh vector.
pub fn copy_range(s: &[u8], from: usize, to: usize) -> (r: Vec<u8>)
    requires
        from <= to <= s@.len(),
    ensures
        r@ == s@.subrange(from as int, to as int),
{
    let mut v: Vec<u8> = Vec::new();
    let mut i: usize = from;
    while i < to
        invariant
            from <= i <= to <= s@.len(),
            v@.len() == i - from,
            forall|j: int| 0 <= j < v@.len() ==> v@[j] == s@[from + j],
        decreases to - i,
    {
        v.push(s[i]);
        i = i + 1;
    }
    proof {
        assert(v@ =~= s@.subrange(from as int, to as int));
    }
    v
}

/// The value of a byte string read as a big-endian unsigned integer.
pub open spec fn be_val(s: Seq<u8>) -> nat
    decreases s.len(),
{
    if s.len() == 0 {
        0nat
    } else {
        (s[0] as nat) * pow2((8 * (s.len() - 1)) as nat) + be_val(s.skip(1))
    }
}

/// A byte string of length n reads below 2^(8n).
pub proof fn lemma_be_val_bound(s: Seq<u8>)
    ensures
        be_val(s) < pow2((8 * s.len()) as nat),
    decreases s.len(),
{
    if s.len() == 0 {
        lemma2_to64();
    } else {
        let rest = s.skip(1);
        lemma_be_val_bound(rest);
        let p = pow2((8 * (s.len() - 1)) as nat);
        assert(be_val(s) == (s[0] as nat) * p + be_val(rest));
        lemma_mul_inequality(s[0] as int, 255, p as int);
        lemma_pow2_adds(8, (8 * (s.len() - 1)) as nat);
        lemma2_to64();
        assert(pow2((8 * s.len()) as nat) == 256 * p);
    }
}

} // verus!
