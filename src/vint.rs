//! Variable-length integers: seven payload bits per byte, least significant
//! group first, with the high bit set on the last byte of each value.
use vstd::prelude::*;

verus! {

/// The high bit that marks the last byte of a value.
pub const STOP_BIT: u8 = 128;

/// The bytes that encode `v`.
pub open spec fn vint_bytes(v: nat) -> Seq<u8>
    decreases v,
{
    if v < 128 {
        seq![(v + 128) as u8]
    } else {
        seq![(v % 128) as u8] + vint_bytes(v / 128)
    }
}

/// The number of bytes up to and including the first stop byte
/// (the whole length when there is none).
pub open spec fn vint_len(s: Seq<u8>) -> nat
    decreases s.len(),
{
    if s.len() == 0 {
        0
    } else if s[0] >= 128 {
        1
    } else {
        1 + vint_len(s.drop_first())
    }
}

/// Whether `s` holds a stop byte.
pub open spec fn vint_complete(s: Seq<u8>) -> bool
    decreases s.len(),
{
    s.len() > 0 && (s[0] >= 128 || vint_complete(s.drop_first()))
}

/// The number that the low seven bits of the bytes of `s` spell, least
/// significant group first.
pub open spec fn vint_value(s: Seq<u8>) -> nat
    decreases s.len(),
{
    if s.len() == 0 {
        0
    } else {
        (s[0] % 128) as nat + 128 * vint_value(s.drop_first())
    }
}

/// The value held by the first variable-length integer of `s`.
pub open spec fn vint_first(s: Seq<u8>) -> nat {
    vint_value(s.subrange(0, vint_len(s) as int))
}

pub open spec fn pow128(k: nat) -> nat
    decreases k,
{
    if k == 0 {
        1
    } else {
        128 * pow128((k - 1) as nat)
    }
}

proof fn lemma_vint_len_skip(s: Seq<u8>, i: int)
    requires
        0 <= i <= s.len(),
        forall|j: int| 0 <= j < i ==> s[j] < 128,
    ensures
        vint_len(s) == i + vint_len(s.subrange(i, s.len() as int)),
        vint_complete(s) == vint_complete(s.subrange(i, s.len() as int)),
    decreases i,
{
    if i > 0 {
        let t = s.drop_first();
        assert forall|j: int| 0 <= j < i - 1 implies t[j] < 128 by {
            assert(s[j + 1] < 128);
        }
        lemma_vint_len_skip(t, i - 1);
        assert(t.subrange(i - 1, t.len() as int) =~= s.subrange(i, s.len() as int));
    } else {
        assert(s.subrange(0, s.len() as int) =~= s);
    }
}

proof fn lemma_vint_value_bound(s: Seq<u8>)
    ensures
        vint_value(s) < pow128(s.len()),
    decreases s.len(),
{
    if s.len() > 0 {
        lemma_vint_value_bound(s.drop_first());
    }
}

proof fn lemma_vint_value_step(s: Seq<u8>, i: int, n: int)
    requires
        0 < i <= n <= s.len(),
    ensures
        vint_value(s.subrange(i - 1, n)) == (s[i - 1] % 128) as nat + 128 * vint_value(
            s.subrange(i, n),
        ),
{
    assert(s.subrange(i - 1, n).drop_first() =~= s.subrange(i, n));
}

/// The encoding of `v` is a complete value that spells `v`, at most `k`
/// bytes long where `v < 128^k`.
pub proof fn lemma_vint_bytes(v: nat, rest: Seq<u8>)
    ensures
        vint_len(vint_bytes(v) + rest) == vint_bytes(v).len(),
        vint_complete(vint_bytes(v) + rest),
        vint_first(vint_bytes(v) + rest) == v,
        (vint_bytes(v) + rest).subrange(vint_bytes(v).len() as int, (vint_bytes(v) + rest).len() as int)
            == rest,
        forall|k: nat| 1 <= k && v < pow128(k) ==> vint_bytes(v).len() <= k,
    decreases v,
{
    let b = vint_bytes(v);
    let s = b + rest;
    assert(s.subrange(b.len() as int, s.len() as int) =~= rest);
    if v < 128 {
        assert(s.subrange(0, 1) =~= b);
        assert(s.subrange(0, 1).drop_first() =~= Seq::<u8>::empty());
        assert(s[0] == (v + 128) as u8);
        assert(vint_len(s) == 1);
        let t = s.subrange(0, 1);
        assert(t[0] == s[0]);
        assert(vint_value(t.drop_first()) == 0);
        assert(((v + 128) as u8) as nat == v + 128);
        assert(vint_value(t) == v);
    } else {
        let b2 = vint_bytes(v / 128);
        lemma_vint_bytes(v / 128, rest);
        assert(s.drop_first() =~= b2 + rest);
        assert(s.subrange(0, b.len() as int).drop_first() =~= b2);
        assert((b2 + rest).subrange(0, b2.len() as int) =~= b2);
        assert(s.subrange(0, b.len() as int)[0] == (v % 128) as u8);
        assert forall|k: nat| 1 <= k && v < pow128(k) implies b.len() <= k by {
            if k == 1 {
                assert(pow128(1) == 128 * pow128(0));
            } else {
                assert(pow128(k) == 128 * pow128((k - 1) as nat));
                assert(v / 128 < pow128((k - 1) as nat)) by (nonlinear_arith)
                    requires
                        v < 128 * pow128((k - 1) as nat),
                ;
            }
        }
    }
}

/// Appends the encoding of `val` to `w`.
pub fn encode_vint32(val: u32, w: &mut Vec<u8>)
    ensures
        final(w)@ == old(w)@ + vint_bytes(val as nat),
{
    encode_vint64(val as u64, w);
}

/// Appends the encoding of `val` to `w`.
pub fn encode_vint64(val: u64, w: &mut Vec<u8>)
    ensures
        final(w)@ == old(w)@ + vint_bytes(val as nat),
{
    let mut v: u64 = val;
    loop
        invariant
            w@ + vint_bytes(v as nat) == old(w)@ + vint_bytes(val as nat),
        decreases v,
    {
        let b: u8 = (v % 128) as u8;
        if v < 128 {
            assert(b | STOP_BIT == b + 128) by (bit_vector)
                requires
                    b < 128,
            ;
            w.push(b | STOP_BIT);
            assert(w@ =~= old(w)@ + vint_bytes(val as nat));
            return;
        }
        let ghost before = w@;
        w.push(b);
        assert(before + vint_bytes(v as nat) =~= w@ + vint_bytes((v / 128) as nat));
        v = v / 128;
    }
}

/// The number of bytes of the first value of `data`, which holds a stop
/// byte among its first `max` bytes.
fn vint_len_within(data: &[u8], max: usize) -> (n: usize)
    requires
        vint_complete(data@),
        vint_len(data@) <= max,
    ensures
        n == vint_len(data@),
        n <= data@.len(),
{
    let mut i: usize = 0;
    while i < max && i < data.len()
        invariant
            i <= data.len(),
            i <= max,
            vint_complete(data@),
            vint_len(data@) <= max,
            forall|j: int| 0 <= j < i ==> data@[j] < 128,
        decreases max - i,
    {
        if data[i] >= STOP_BIT {
            proof {
                lemma_vint_len_skip(data@, i as int);
            }
            return i + 1;
        }
        i += 1;
    }
    proof {
        lemma_vint_len_skip(data@, i as int);
    }
    i
}

fn vint32_len(data: &[u8]) -> (n: usize)
    requires
        vint_complete(data@),
        vint_len(data@) <= 5,
    ensures
        n == vint_len(data@),
        n <= data@.len(),
{
    vint_len_within(data, 5)
}

/// The number that the first `n` bytes of `s` spell.
fn vint_prefix_value(s: &[u8], n: usize) -> (r: u128)
    requires
        n <= s@.len(),
        n <= 10,
    ensures
        r as nat == vint_value(s@.subrange(0, n as int)),
{
    proof {
        lemma_vint_value_bound(s@.subrange(0, n as int));
        lemma_pow128_ten();
        lemma_pow128_mono(n as nat, 10);
    }
    let mut result: u128 = 0;
    let mut i: usize = n;
    while i > 0
        invariant
            i <= n <= s@.len(),
            result as nat == vint_value(s@.subrange(i as int, n as int)),
            vint_value(s@.subrange(0, n as int)) < 0x40_0000_0000_0000_0000,
        decreases i,
    {
        proof {
            lemma_vint_value_step(s@, i as int, n as int);
            if i > 1 {
                lemma_vint_value_step_bound(s@, i as int - 1, n as int);
            }
        }
        result = result * 128 + (s[i - 1] % 128) as u128;
        i -= 1;
    }
    result
}

/// Reads one value from the front of `data` and moves `data` past it.
/// The value is taken modulo 2^32, as the low 32 bits of what the bytes spell.
pub fn decode_vint32(data: &mut &[u8]) -> (r: u32)
    requires
        vint_complete(old(data)@),
        vint_len(old(data)@) <= 5,
    ensures
        r as nat == vint_first(old(data)@) % 0x1_0000_0000,
        final(data)@ == old(data)@.subrange(vint_len(old(data)@) as int, old(data)@.len() as int),
{
    let s: &[u8] = *data;
    let n = vint32_len(s);
    let result = vint_prefix_value(s, n);
    *data = vstd::slice::slice_subrange(s, n, s.len());
    #[verifier::truncate]
    let r = result as u32;
    assert(r as u128 == result % 0x1_0000_0000) by (bit_vector)
        requires
            r == result as u32,
    ;
    r
}

/// Reads one value from the front of `data` and moves `data` past it.
/// The value is taken modulo 2^64.
pub fn decode_vint64(data: &mut &[u8]) -> (r: u64)
    requires
        vint_complete(old(data)@),
        vint_len(old(data)@) <= 10,
    ensures
        r as nat == vint_first(old(data)@) % 0x1_0000_0000_0000_0000,
        final(data)@ == old(data)@.subrange(vint_len(old(data)@) as int, old(data)@.len() as int),
{
    let s: &[u8] = *data;
    let n = vint_len_within(s, 10);
    let result = vint_prefix_value(s, n);
    *data = vstd::slice::slice_subrange(s, n, s.len());
    #[verifier::truncate]
    let r = result as u64;
    assert(r as u128 == result % 0x1_0000_0000_0000_0000) by (bit_vector)
        requires
            r == result as u64,
    ;
    r
}

proof fn lemma_pow128_ten()
    ensures
        pow128(5) == 0x8_0000_0000,
        pow128(10) == 0x40_0000_0000_0000_0000,
{
    assert(pow128(0) == 1);
    assert(pow128(1) == 0x80);
    assert(pow128(2) == 0x4000);
    assert(pow128(3) == 0x20_0000);
    assert(pow128(4) == 0x1000_0000);
    assert(pow128(5) == 0x8_0000_0000);
    assert(pow128(6) == 0x400_0000_0000);
    assert(pow128(7) == 0x2_0000_0000_0000);
    assert(pow128(8) == 0x100_0000_0000_0000);
    assert(pow128(9) == 0x8000_0000_0000_0000);
}

proof fn lemma_pow128_mono(a: nat, b: nat)
    requires
        a <= b,
    ensures
        pow128(a) <= pow128(b),
    decreases b,
{
    if a < b {
        lemma_pow128_mono(a, (b - 1) as nat);
    }
}

/// The value of a suffix is no larger than the value of the whole.
proof fn lemma_vint_value_step_bound(s: Seq<u8>, i: int, n: int)
    requires
        0 < i <= n <= s.len(),
    ensures
        vint_value(s.subrange(i, n)) <= vint_value(s.subrange(0, n)),
    decreases i,
{
    lemma_vint_value_step(s, i, n);
    if i > 1 {
        lemma_vint_value_step_bound(s, i - 1, n);
    } else {
        lemma_vint_value_step(s, 1, n);
    }
}


/// What `encode_vint32` appends, `decode_vint32` reads back, leaving what
/// followed.
pub proof fn lemma_vint32_round_trip(v: u32, rest: Seq<u8>)
    ensures
        vint_complete(vint_bytes(v as nat) + rest),
        vint_len(vint_bytes(v as nat) + rest) <= 5,
        vint_first(vint_bytes(v as nat) + rest) % 0x1_0000_0000 == v,
        (vint_bytes(v as nat) + rest).subrange(
            vint_len(vint_bytes(v as nat) + rest) as int,
            (vint_bytes(v as nat) + rest).len() as int,
        ) == rest,
{
    lemma_vint_bytes(v as nat, rest);
    lemma_pow128_ten();
    assert(v < pow128(5));
}

/// What `encode_vint64` appends, `decode_vint64` reads back, leaving what
/// followed.
pub proof fn lemma_vint64_round_trip(v: u64, rest: Seq<u8>)
    ensures
        vint_complete(vint_bytes(v as nat) + rest),
        vint_len(vint_bytes(v as nat) + rest) <= 10,
        vint_first(vint_bytes(v as nat) + rest) % 0x1_0000_0000_0000_0000 == v,
        (vint_bytes(v as nat) + rest).subrange(
            vint_len(vint_bytes(v as nat) + rest) as int,
            (vint_bytes(v as nat) + rest).len() as int,
        ) == rest,
{
    lemma_vint_bytes(v as nat, rest);
    lemma_pow128_ten();
}

}
