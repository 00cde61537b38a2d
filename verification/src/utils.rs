//! Sequence-numbered datagrams and duplicate detection.
//!
//! A simple framing for datagram transports: eight big-endian bytes of
//! sequence number, then the payload.  The receiver keeps a set of seen
//! sequence numbers and drops duplicates, acknowledging each packet with
//! an ASCII `"ACK <seq>"` reply.

use std::collections::HashSet;
use vstd::prelude::*;

use crate::addr::{dec_digits, push_dec};
use crate::discovery::copy_range;

verus! {

broadcast use vstd::std_specs::hash::group_hash_axioms;

/// Bytes of the sequence-number prefix.
pub const SEQ_BYTES: usize = 8;

/// The last `k` big-endian base-256 digits of `n`.
pub open spec fn be_bytes_rec(n: int, k: nat) -> Seq<u8>
    decreases k,
{
    if k == 0 {
        Seq::empty()
    } else {
        be_bytes_rec(n / 256, (k - 1) as nat).push((n % 256) as u8)
    }
}

/// The eight big-endian bytes of a 64-bit sequence number.
pub open spec fn u64_be_bytes(n: u64) -> Seq<u8> {
    be_bytes_rec(n as int, 8)
}

/// The value a big-endian byte sequence denotes.
pub open spec fn be_val(s: Seq<u8>) -> int
    decreases s.len(),
{
    if s.len() == 0 {
        0
    } else {
        be_val(s.drop_last()) * 256 + s.last()
    }
}

/// 256 to the `k`-th power.
pub open spec fn pow256(k: nat) -> int
    decreases k,
{
    if k == 0 {
        1
    } else {
        256 * pow256((k - 1) as nat)
    }
}

/// A byte sequence denotes a value below 256 to its length.
proof fn lemma_be_val_bounds(s: Seq<u8>)
    ensures
        0 <= be_val(s) < pow256(s.len()),
    decreases s.len(),
{
    if s.len() == 0 {
    } else {
        let p = s.drop_last();
        lemma_be_val_bounds(p);
        assert(be_val(s) == be_val(p) * 256 + s.last());
        assert(be_val(p) * 256 + s.last() < pow256(p.len()) * 256) by (nonlinear_arith)
            requires
                0 <= be_val(p) < pow256(p.len()),
                0 <= s.last() < 256,
        ;
        assert(pow256(s.len()) == 256 * pow256(p.len()));
    }
}

/// Reading a big-endian byte sequence back from its value reproduces the
/// bytes.
proof fn lemma_be_bytes_of_val(s: Seq<u8>)
    ensures
        be_bytes_rec(be_val(s), s.len()) == s,
    decreases s.len(),
{
    if s.len() == 0 {
        assert(be_bytes_rec(be_val(s), 0) =~= s);
    } else {
        let p = s.drop_last();
        lemma_be_val_bounds(p);
        lemma_be_bytes_of_val(p);
        let v = be_val(s);
        assert(v == be_val(p) * 256 + s.last());
        assert(v / 256 == be_val(p) && v % 256 == s.last()) by (nonlinear_arith)
            requires
                v == be_val(p) * 256 + s.last(),
                be_val(p) >= 0,
                0 <= s.last() < 256,
        ;
        assert(be_bytes_rec(v, s.len()) == be_bytes_rec(v / 256, p.len()).push(
            (v % 256) as u8,
        ));
        assert(be_bytes_rec(v, s.len()) =~= s);
    }
}

/// Appends the `k` low big-endian bytes of `n`.
fn push_be_rec(out: &mut Vec<u8>, n: u64, k: usize)
    ensures
        final(out)@ == old(out)@ + be_bytes_rec(n as int, k as nat),
    decreases k,
{
    if k == 0 {
        proof {
            assert(final(out)@ =~= old(out)@ + be_bytes_rec(n as int, 0));
        }
        return ;
    }
    push_be_rec(out, n / 256, k - 1);
    out.push((n % 256) as u8);
    proof {
        assert((n / 256) as int == n as int / 256);
        assert((n % 256) as int == n as int % 256);
        assert(final(out)@ =~= old(out)@ + be_bytes_rec(n as int, k as nat));
    }
}

/// One outbound packet: the sequence number in eight big-endian bytes,
/// then the payload.
pub fn make_packet(seq_no: u64, payload: &[u8]) -> (r: Vec<u8>)
    ensures
        r@ == u64_be_bytes(seq_no) + payload@,
{
    let mut out: Vec<u8> = Vec::new();
    push_be_rec(&mut out, seq_no, SEQ_BYTES);
    let mut tail = copy_range(payload, 0, payload.len());
    out.append(&mut tail);
    proof {
        assert(out@ =~= u64_be_bytes(seq_no) + payload@);
    }
    out
}

/// Splits an inbound packet into sequence number and payload; a packet
/// shorter than the sequence prefix is rejected.
pub fn split_packet(data: &[u8]) -> (r: Option<(u64, Vec<u8>)>)
    ensures
        data@.len() < SEQ_BYTES ==> r is None,
        data@.len() >= SEQ_BYTES ==> match r {
            Some((sn, pl)) => {
                &&& sn == be_val(data@.subrange(0, SEQ_BYTES as int))
                &&& u64_be_bytes(sn) == data@.subrange(0, SEQ_BYTES as int)
                &&& pl@ == data@.subrange(SEQ_BYTES as int, data@.len() as int)
            },
            None => false,
        },
{
    let n = data.len();
    if n < SEQ_BYTES {
        return None;
    }
    let mut v: u64 = 0;
    let mut k: usize = 0;
    proof {
        lemma_pow256_le(0, 8);
        reveal_with_fuel(pow256, 9);
        assert(pow256(8) == 0x1_0000_0000_0000_0000);
    }
    while k < SEQ_BYTES
        invariant
            k <= SEQ_BYTES <= n,
            n == data@.len(),
            v == be_val(data@.subrange(0, k as int)),
            0 <= v < pow256(k as nat),
            pow256(k as nat) <= pow256(8),
            pow256(8) == 0x1_0000_0000_0000_0000,
        decreases SEQ_BYTES - k,
    {
        proof {
            lemma_pow256_le(k as nat, 7);
            assert(pow256(7) * 256 == pow256(8));
            assert(v * 256 + data@[k as int] < pow256(8)) by (nonlinear_arith)
                requires
                    0 <= v < pow256(k as nat),
                    pow256(k as nat) <= pow256(7),
                    pow256(7) * 256 == pow256(8),
                    0 <= data@[k as int] < 256,
            ;
            let cur = data@.subrange(0, k as int);
            let nxt = data@.subrange(0, k + 1);
            assert(nxt.drop_last() =~= cur);
            assert(nxt.last() == data@[k as int]);
        }
        v = v * 256 + (data[k] as u64);
        k = k + 1;
        proof {
            lemma_pow256_le(k as nat, 8);
        }
    }
    let payload = copy_range(data, SEQ_BYTES, n);
    proof {
        lemma_be_bytes_of_val(data@.subrange(0, SEQ_BYTES as int));
    }
    Some((v, payload))
}

proof fn lemma_pow256_le(a: nat, b: nat)
    requires
        a <= b,
    ensures
        pow256(a) <= pow256(b),
        pow256(a) >= 1,
    decreases b,
{
    if a == b {
        if a > 0 {
            lemma_pow256_le((a - 1) as nat, (a - 1) as nat);
        }
    } else {
        lemma_pow256_le(a, (b - 1) as nat);
    }
}

/// The ASCII acknowledgement for one sequence number: `"ACK <seq>"`.
pub fn make_ack(seq_no: u64) -> (r: Vec<u8>)
    ensures
        r@ == seq![65u8, 67u8, 75u8, 32u8] + dec_digits(seq_no as nat),
{
    let mut out: Vec<u8> = Vec::new();
    out.push(65);
    out.push(67);
    out.push(75);
    out.push(32);
    push_dec(&mut out, seq_no);
    proof {
        assert(out@ =~= seq![65u8, 67u8, 75u8, 32u8] + dec_digits(seq_no as nat));
    }
    out
}

/// Records one packet's sequence number in the dedup set: reports whether
/// it was new, and never removes anything.
#[allow(unused_variables)]
pub fn handle_packet(seen: &mut HashSet<u64>, seq_no: u64, payload: &[u8]) -> (r: bool)
    ensures
        r == !old(seen)@.contains(seq_no),
        final(seen)@ == old(seen)@.insert(seq_no),
{
    if seen.contains(&seq_no) {
        proof {
            assert(old(seen)@.insert(seq_no) =~= old(seen)@);
        }
        false
    } else {
        seen.insert(seq_no);
        true
    }
}

/// Duplicate-detection idempotence: once a sequence number is in the
/// dedup set, processing it again reports a duplicate and leaves the set
/// unchanged, in contents and so in size.
pub proof fn lemma_duplicate_detection(s: Set<u64>, seq_no: u64)
    ensures
        s.insert(seq_no).contains(seq_no),
        s.insert(seq_no).insert(seq_no) == s.insert(seq_no),
        s.insert(seq_no).insert(seq_no).len() == s.insert(seq_no).len(),
{
    assert(s.insert(seq_no).insert(seq_no) =~= s.insert(seq_no));
}

} // verus!
