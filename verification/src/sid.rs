//! Symbol identifiers.
//!
//! A symbol identifier (SID) is a 64-bit value derived deterministically
//! from the symbol's textual form, so that independently constructed
//! symbol tables agree on every SID.  The derivation is a SipHash-1-3
//! digest (with a zero key) of the UTF-8 bytes of the text followed by a
//! `0xff` terminator byte.  [`sid_of`] is the mathematical definition and
//! [`str_sid`] the executable function proved to match it.

use vstd::prelude::*;

verus! {

pub open spec fn wadd(x: u64, y: u64) -> u64 {
    vstd::wrapping::u64_specs::wrapping_add(x, y)
}

/// One SipHash mixing round over the four lanes of the state.
pub open spec fn spec_sipround(v: (u64, u64, u64, u64)) -> (u64, u64, u64, u64) {
    let a0 = wadd(v.0, v.1);
    let b1 = ((v.1 << 13u64) | (v.1 >> 51u64)) ^ a0;
    let a1 = (a0 << 32u64) | (a0 >> 32u64);
    let c0 = wadd(v.2, v.3);
    let d1 = ((v.3 << 16u64) | (v.3 >> 48u64)) ^ c0;
    let a2 = wadd(a1, d1);
    let d2 = ((d1 << 21u64) | (d1 >> 43u64)) ^ a2;
    let c1 = wadd(c0, b1);
    let b2 = ((b1 << 17u64) | (b1 >> 47u64)) ^ c1;
    let c2 = (c1 << 32u64) | (c1 >> 32u64);
    (a2, b2, c2, d2)
}

/// The little-endian integer value of a byte sequence.
pub open spec fn le_int(s: Seq<u8>) -> int
    decreases s.len(),
{
    if s.len() == 0 {
        0
    } else {
        s[0] + 256 * le_int(s.drop_first())
    }
}

pub open spec fn pow256(n: nat) -> int
    decreases n,
{
    if n == 0 {
        1
    } else {
        256 * pow256((n - 1) as nat)
    }
}

pub proof fn lemma_le_int_bound(s: Seq<u8>)
    ensures
        0 <= le_int(s) < pow256(s.len()),
    decreases s.len(),
{
    if s.len() == 0 {
    } else {
        lemma_le_int_bound(s.drop_first());
    }
}

/// The state of the hash after absorbing one 64-bit message block.
pub open spec fn sip_step(v: (u64, u64, u64, u64), m: u64) -> (u64, u64, u64, u64) {
    let w = spec_sipround((v.0, v.1, v.2, v.3 ^ m));
    (w.0 ^ m, w.1, w.2, w.3)
}

pub open spec fn sip_init() -> (u64, u64, u64, u64) {
    (0x736f6d6570736575u64, 0x646f72616e646f6du64, 0x6c7967656e657261u64, 0x7465646279746573u64)
}

/// The value of the `i`-th full 8-byte block of the message.
pub open spec fn block_at(msg: Seq<u8>, i: int) -> u64 {
    le_int(msg.subrange(8 * i, 8 * i + 8)) as u64
}

/// The state after absorbing the first `k` full blocks of the message.
pub open spec fn sip_comp(msg: Seq<u8>, k: int) -> (u64, u64, u64, u64)
    decreases k,
{
    if k <= 0 {
        sip_init()
    } else {
        sip_step(sip_comp(msg, k - 1), block_at(msg, k - 1))
    }
}

/// The SipHash-1-3 digest (zero key) of a byte message.
pub open spec fn spec_siphash(msg: Seq<u8>) -> u64 {
    let nb = msg.len() as int / 8;
    let tail = msg.subrange(8 * nb, msg.len() as int);
    let b = (((msg.len() as u64) & 0xff) << 56u64) | (le_int(tail) as u64);
    let v = sip_step(sip_comp(msg, nb), b);
    let w = spec_sipround(spec_sipround(spec_sipround((v.0, v.1, v.2 ^ 0xff, v.3))));
    w.0 ^ w.1 ^ w.2 ^ w.3
}

/// The SID of a symbol text: the digest of its UTF-8 bytes followed by a
/// `0xff` terminator.
pub open spec fn sid_of(text: Seq<char>) -> u64 {
    spec_siphash(vstd::utf8::encode_utf8(text).push(0xff))
}

fn sipround(v: (u64, u64, u64, u64)) -> (r: (u64, u64, u64, u64))
    ensures
        r == spec_sipround(v),
{
    let a0 = v.0.wrapping_add(v.1);
    let b1 = ((v.1 << 13u64) | (v.1 >> 51u64)) ^ a0;
    let a1 = (a0 << 32u64) | (a0 >> 32u64);
    let c0 = v.2.wrapping_add(v.3);
    let d1 = ((v.3 << 16u64) | (v.3 >> 48u64)) ^ c0;
    let a2 = a1.wrapping_add(d1);
    let d2 = ((d1 << 21u64) | (d1 >> 43u64)) ^ a2;
    let c1 = c0.wrapping_add(b1);
    let b2 = ((b1 << 17u64) | (b1 >> 47u64)) ^ c1;
    let c2 = (c1 << 32u64) | (c1 >> 32u64);
    (a2, b2, c2, d2)
}

/// Reads the little-endian value of `msg[from..to]`, for a span of at
/// most eight bytes.
fn read_le(msg: &[u8], from: usize, to: usize) -> (m: u64)
    requires
        from <= to <= msg@.len(),
        to - from <= 8,
    ensures
        m == le_int(msg@.subrange(from as int, to as int)),
{
    let mut m: u64 = 0;
    let mut j: usize = to;
    proof {
        assert(msg@.subrange(to as int, to as int) =~= Seq::<u8>::empty());
    }
    while j > from
        invariant
            from <= j <= to <= msg@.len(),
            to - from <= 8,
            m == le_int(msg@.subrange(j as int, to as int)),
        decreases j,
    {
        j = j - 1;
        proof {
            let s = msg@.subrange(j as int, to as int);
            assert(s.drop_first() =~= msg@.subrange(j + 1, to as int));
            lemma_le_int_bound(msg@.subrange(j + 1, to as int));
            lemma_pow256_mono((to - j - 1) as nat, 7);
        }
        m = m * 256 + (msg[j] as u64);
    }
    m
}

proof fn lemma_pow256_pos(n: nat)
    ensures
        pow256(n) >= 1,
    decreases n,
{
    if n > 0 {
        lemma_pow256_pos((n - 1) as nat);
    }
}

proof fn lemma_pow256_mono(a: nat, b: nat)
    ensures
        a <= b ==> pow256(a) <= pow256(b),
        pow256(8) == 0x1_0000_0000_0000_0000,
    decreases b,
{
    if b > 0 {
        lemma_pow256_pos((b - 1) as nat);
        if a <= b - 1 {
            lemma_pow256_mono(a, (b - 1) as nat);
        }
    }
    reveal_with_fuel(pow256, 9);
}

/// The SipHash-1-3 digest (zero key) of `msg`, matching [`spec_siphash`].
fn siphash13(msg: &[u8]) -> (r: u64)
    ensures
        r == spec_siphash(msg@),
{
    let n = msg.len();
    let nb = n / 8;
    let mut v = (
        0x736f6d6570736575u64,
        0x646f72616e646f6du64,
        0x6c7967656e657261u64,
        0x7465646279746573u64,
    );
    let mut i: usize = 0;
    while i < nb
        invariant
            i <= nb,
            nb == msg@.len() as int / 8,
            n == msg@.len(),
            v == sip_comp(msg@, i as int),
        decreases nb - i,
    {
        let m = read_le(msg, i * 8, i * 8 + 8);
        proof {
            assert(m == block_at(msg@, i as int));
        }
        v = sip_step_exec(v, m);
        i = i + 1;
    }
    let tail = read_le(msg, nb * 8, n);
    let b = (((n as u64) & 0xff) << 56u64) | tail;
    v = sip_step_exec(v, b);
    let w = sipround(sipround(sipround((v.0, v.1, v.2 ^ 0xff, v.3))));
    w.0 ^ w.1 ^ w.2 ^ w.3
}

fn sip_step_exec(v: (u64, u64, u64, u64), m: u64) -> (r: (u64, u64, u64, u64))
    ensures
        r == sip_step(v, m),
{
    let w = sipround((v.0, v.1, v.2, v.3 ^ m));
    (w.0 ^ m, w.1, w.2, w.3)
}

/// The SID of a string: [`sid_of`] of its characters.
pub fn str_sid(s: &str) -> (r: u64)
    ensures
        r == sid_of(s@),
{
    let mut msg = s.as_bytes_vec();
    msg.push(0xff);
    siphash13(msg.as_slice())
}

} // verus!
