//! Socket addresses as plain values, with their canonical text form.
//!
//! The discovery protocol carries addresses as ASCII text
//! (`"a.b.c.d:port"`).  This module models an address as four octets and a
//! port, and gives the two directions of the wire form: `format_addr`
//! produces the canonical text of an address, and `parse_addr` accepts
//! exactly the canonical texts (decimal components without leading zeros)
//! and nothing else.

use vstd::prelude::*;

verus! {

/// An IPv4 socket address held as plain values.
#[derive(Clone, Copy, Debug, PartialEq, Eq, Hash, Structural)]
pub struct NetAddr {
    pub a: u8,
    pub b: u8,
    pub c: u8,
    pub d: u8,
    pub port: u16,
}

/// ASCII '.'
pub const DOT: u8 = 46;

/// ASCII ':'
pub const COLON: u8 = 58;


pub open spec fn is_digit(b: u8) -> bool {
    48 <= b <= 57
}

/// Canonical decimal text of `n`: most significant digit first, no leading
/// zeros, `"0"` for zero.
pub open spec fn dec_digits(n: nat) -> Seq<u8>
    decreases n,
{
    if n < 10 {
        seq![(n + 48) as u8]
    } else {
        dec_digits((n / 10) as nat).push((n % 10 + 48) as u8)
    }
}

/// Numeric value of a sequence of decimal digits.
pub open spec fn dec_val(s: Seq<u8>) -> int
    decreases s.len(),
{
    if s.len() == 0 {
        0
    } else {
        dec_val(s.drop_last()) * 10 + (s.last() - 48)
    }
}

/// A digit sequence in canonical form: nonempty, and without a leading zero
/// unless it is exactly `"0"`.
pub open spec fn canonical_dec(s: Seq<u8>) -> bool {
    &&& s.len() > 0
    &&& (forall|i: int| 0 <= i < s.len() ==> is_digit(#[trigger] s[i]))
    &&& (s.len() > 1 ==> s[0] != 48)
}

/// The canonical text of an address: the four octets and the port in
/// decimal, separated by `'.'` and `':'`.
pub open spec fn addr_text(x: NetAddr) -> Seq<u8> {
    dec_digits(x.a as nat) + seq![DOT] + dec_digits(x.b as nat) + seq![DOT] + dec_digits(
        x.c as nat,
    ) + seq![DOT] + dec_digits(x.d as nat) + seq![COLON] + dec_digits(x.port as nat)
}

/// `dec_digits` produces a canonical digit sequence whose value is `n`.
pub proof fn lemma_dec_digits_canonical(n: nat)
    ensures
        canonical_dec(dec_digits(n)),
        dec_val(dec_digits(n)) == n,
        n > 0 ==> dec_digits(n)[0] != 48,
    decreases n,
{
    if n < 10 {
        let s = dec_digits(n);
        assert(s.len() == 1);
        assert(s[0] == (n + 48) as u8);
        assert forall|i: int| 0 <= i < s.len() implies is_digit(#[trigger] s[i]) by {
            assert(s[i] == (n + 48) as u8);
        }
        assert(s.drop_last() =~= Seq::<u8>::empty());
        assert(dec_val(s) == dec_val(s.drop_last()) * 10 + (s.last() - 48));
        assert(s.last() == (n + 48) as u8);
    } else {
        lemma_dec_digits_canonical((n / 10) as nat);
        let p = dec_digits((n / 10) as nat);
        let s = dec_digits(n);
        assert(s == p.push((n % 10 + 48) as u8));
        assert forall|i: int| 0 <= i < s.len() implies is_digit(#[trigger] s[i]) by {
            if i < p.len() {
                assert(s[i] == p[i]);
            } else {
                assert(s[i] == (n % 10 + 48) as u8);
            }
        }
        assert(s[0] == p[0]);
        // the leading digit of n / 10 is nonzero because n >= 10
        assert(n / 10 >= 1);
        assert(p[0] != 48);
        assert(s.drop_last() =~= p);
        assert(s.last() == (n % 10 + 48) as u8);
        assert(dec_val(s) == dec_val(p) * 10 + (n % 10));
        assert(dec_val(s) == (n / 10) * 10 + (n % 10));
        assert(n == (n / 10) * 10 + (n % 10));
    }
}

/// A digit sequence with a nonzero leading digit has a positive value.
proof fn lemma_dec_val_positive(s: Seq<u8>)
    requires
        s.len() >= 1,
        forall|i: int| 0 <= i < s.len() ==> is_digit(#[trigger] s[i]),
        s[0] != 48,
    ensures
        dec_val(s) >= 1,
    decreases s.len(),
{
    if s.len() == 1 {
        assert(s.drop_last().len() == 0);
        assert(dec_val(s) == dec_val(s.drop_last()) * 10 + (s.last() - 48));
        assert(s.last() == s[0]);
        assert(is_digit(s[0]));
        assert(s.last() >= 49);
    } else {
        let p = s.drop_last();
        assert(p[0] == s[0]);
        assert forall|i: int| 0 <= i < p.len() implies is_digit(#[trigger] p[i]) by {
            assert(p[i] == s[i]);
        }
        lemma_dec_val_positive(p);
        assert(is_digit(s.last())) by {
            assert(s.last() == s[s.len() - 1]);
        }
        assert(dec_val(s) == dec_val(p) * 10 + (s.last() - 48));
    }
}

/// The value of a digit sequence is nonnegative.
proof fn lemma_dec_val_nonneg(s: Seq<u8>)
    requires
        forall|i: int| 0 <= i < s.len() ==> is_digit(#[trigger] s[i]),
    ensures
        dec_val(s) >= 0,
    decreases s.len(),
{
    if s.len() > 0 {
        let p = s.drop_last();
        assert forall|i: int| 0 <= i < p.len() implies is_digit(#[trigger] p[i]) by {
            assert(p[i] == s[i]);
        }
        lemma_dec_val_nonneg(p);
        assert(is_digit(s.last())) by {
            assert(s.last() == s[s.len() - 1]);
        }
        assert(dec_val(s) == dec_val(p) * 10 + (s.last() - 48));
    }
}

/// A canonical digit sequence is the canonical text of its own value.
pub proof fn lemma_canonical_dec_unique(s: Seq<u8>)
    requires
        canonical_dec(s),
    ensures
        dec_val(s) >= 0,
        dec_digits(dec_val(s) as nat) == s,
    decreases s.len(),
{
    lemma_dec_val_nonneg(s);
    if s.len() == 1 {
        assert(s.drop_last().len() == 0);
        assert(dec_val(s) == dec_val(s.drop_last()) * 10 + (s.last() - 48));
        assert(s.last() == s[0]);
        assert(is_digit(s[0]));
        let v = dec_val(s);
        assert(0 <= v < 10);
        assert(dec_digits(v as nat) == seq![(v + 48) as u8]);
        assert(dec_digits(v as nat) =~= s);
    } else {
        let p = s.drop_last();
        assert(p[0] == s[0]);
        assert forall|i: int| 0 <= i < p.len() implies is_digit(#[trigger] p[i]) by {
            assert(p[i] == s[i]);
        }
        assert(is_digit(s.last())) by {
            assert(s.last() == s[s.len() - 1]);
        }
        lemma_dec_val_nonneg(p);
        lemma_dec_val_positive(p);
        lemma_canonical_dec_unique(p);
        let v = dec_val(s);
        assert(v == dec_val(p) * 10 + (s.last() - 48));
        assert(dec_val(p) * 10 >= 10) by (nonlinear_arith)
            requires
                dec_val(p) >= 1,
        ;
        assert(v >= 10);
        assert(v / 10 == dec_val(p) && v % 10 == s.last() - 48) by (nonlinear_arith)
            requires
                v == dec_val(p) * 10 + (s.last() - 48),
                dec_val(p) >= 0,
                48 <= s.last() <= 57,
        ;
        assert(v as nat / 10 == dec_val(p) as nat);
        assert(dec_digits(v as nat) == dec_digits(dec_val(p) as nat).push(
            (v as nat % 10 + 48) as u8,
        ));
        assert(dec_digits(v as nat) == p.push((s.last() - 48 + 48) as u8));
        assert((s.last() - 48 + 48) as u8 == s.last());
        assert(dec_digits(v as nat) =~= s);
    }
}

/// Powers of ten.
pub open spec fn pow10(k: nat) -> nat
    decreases k,
{
    if k == 0 {
        1
    } else {
        10 * pow10((k - 1) as nat)
    }
}

/// Appending digits multiplies the value of the prefix by a power of ten.
proof fn lemma_dec_val_extend(s: Seq<u8>, t: Seq<u8>)
    requires
        forall|i: int| 0 <= i < t.len() ==> is_digit(#[trigger] t[i]),
    ensures
        dec_val(s + t) == dec_val(s) * pow10(t.len()) + dec_val(t),
    decreases t.len(),
{
    if t.len() == 0 {
        assert(s + t =~= s);
        assert(pow10(0) == 1);
    } else {
        let t0 = t.drop_last();
        assert forall|i: int| 0 <= i < t0.len() implies is_digit(#[trigger] t0[i]) by {
            assert(t0[i] == t[i]);
        }
        lemma_dec_val_extend(s, t0);
        let u = s + t;
        assert(u.drop_last() =~= s + t0);
        assert(u.last() == t.last());
        assert(dec_val(u) == dec_val(s + t0) * 10 + (t.last() - 48));
        assert(dec_val(t) == dec_val(t0) * 10 + (t.last() - 48));
        assert(pow10(t.len()) == 10 * pow10(t0.len()));
        assert((dec_val(s) * pow10(t0.len()) + dec_val(t0)) * 10 == dec_val(s) * (10 * pow10(
            t0.len(),
        )) + dec_val(t0) * 10) by (nonlinear_arith);
    }
}

/// The first position at or after `i` that does not hold a decimal digit.
pub open spec fn digit_run_end(s: Seq<u8>, i: int) -> int
    recommends
        0 <= i <= s.len(),
    decreases s.len() - i,
{
    if i < s.len() && is_digit(s[i]) {
        digit_run_end(s, i + 1)
    } else {
        i
    }
}

/// Basic shape of a digit run: it stays inside the sequence, everything in
/// it is a digit, and it is maximal.
pub proof fn lemma_digit_run_end_bounds(s: Seq<u8>, i: int)
    requires
        0 <= i <= s.len(),
    ensures
        i <= digit_run_end(s, i) <= s.len(),
        forall|j: int| i <= j < digit_run_end(s, i) ==> is_digit(#[trigger] s[j]),
        digit_run_end(s, i) == s.len() || !is_digit(s[digit_run_end(s, i)]),
    decreases s.len() - i,
{
    if i < s.len() && is_digit(s[i]) {
        lemma_digit_run_end_bounds(s, i + 1);
    }
}

/// If a canonical digit block sits at position `i` and is followed by a
/// non-digit (or the end), the digit run starting at `i` is exactly that
/// block.
proof fn lemma_digit_run_of_block(s: Seq<u8>, i: int, d: Seq<u8>)
    requires
        0 <= i,
        i + d.len() <= s.len(),
        d.len() >= 1,
        s.subrange(i, i + d.len()) == d,
        forall|k: int| 0 <= k < d.len() ==> is_digit(#[trigger] d[k]),
        i + d.len() == s.len() || !is_digit(s[i + d.len()]),
    ensures
        digit_run_end(s, i) == i + d.len(),
    decreases d.len(),
{
    assert(s[i] == d[0]);
    assert(is_digit(s[i]));
    assert(digit_run_end(s, i) == digit_run_end(s, i + 1));
    if d.len() == 1 {
        assert(digit_run_end(s, i + 1) == i + 1);
    } else {
        let d1 = d.subrange(1, d.len() as int);
        assert(s.subrange(i + 1, i + 1 + d1.len()) =~= d1);
        assert forall|k: int| 0 <= k < d1.len() implies is_digit(#[trigger] d1[k]) by {
            assert(d1[k] == d[k + 1]);
        }
        lemma_digit_run_of_block(s, i + 1, d1);
    }
}

/// How the text of an address decomposes: where each digit run ends, what
/// it spells, and where the separators sit.  This pins down the only way a
/// byte sequence can be the text of an address.
pub proof fn lemma_addr_text_parts(s: Seq<u8>, x: NetAddr)
    requires
        s == addr_text(x),
    ensures
        ({
            let d1 = dec_digits(x.a as nat);
            let d2 = dec_digits(x.b as nat);
            let d3 = dec_digits(x.c as nat);
            let d4 = dec_digits(x.d as nat);
            let d5 = dec_digits(x.port as nat);
            let p1 = d1.len() as int;
            let p2 = p1 + 1 + d2.len();
            let p3 = p2 + 1 + d3.len();
            let p4 = p3 + 1 + d4.len();
            &&& s.len() == p4 + 1 + d5.len()
            &&& digit_run_end(s, 0) == p1 && s.subrange(0, p1) == d1
            &&& s[p1] == DOT
            &&& digit_run_end(s, p1 + 1) == p2 && s.subrange(p1 + 1, p2) == d2
            &&& s[p2] == DOT
            &&& digit_run_end(s, p2 + 1) == p3 && s.subrange(p2 + 1, p3) == d3
            &&& s[p3] == DOT
            &&& digit_run_end(s, p3 + 1) == p4 && s.subrange(p3 + 1, p4) == d4
            &&& s[p4] == COLON
            &&& digit_run_end(s, p4 + 1) == s.len() && s.subrange(p4 + 1, s.len() as int) == d5
        }),
{
    let d1 = dec_digits(x.a as nat);
    let d2 = dec_digits(x.b as nat);
    let d3 = dec_digits(x.c as nat);
    let d4 = dec_digits(x.d as nat);
    let d5 = dec_digits(x.port as nat);
    lemma_dec_digits_canonical(x.a as nat);
    lemma_dec_digits_canonical(x.b as nat);
    lemma_dec_digits_canonical(x.c as nat);
    lemma_dec_digits_canonical(x.d as nat);
    lemma_dec_digits_canonical(x.port as nat);
    let p1 = d1.len() as int;
    let p2 = p1 + 1 + d2.len();
    let p3 = p2 + 1 + d3.len();
    let p4 = p3 + 1 + d4.len();
    let t1 = d1 + seq![DOT];
    let t2 = t1 + d2;
    let t3 = t2 + seq![DOT];
    let t4 = t3 + d3;
    let t5 = t4 + seq![DOT];
    let t6 = t5 + d4;
    let t7 = t6 + seq![COLON];
    let t8 = t7 + d5;
    assert(s == t8);
    assert(s.len() == p4 + 1 + d5.len());
    assert(s.subrange(0, p1) =~= d1);
    assert(s[p1] == DOT);
    assert(s.subrange(p1 + 1, p2) =~= d2);
    assert(s[p2] == DOT);
    assert(s.subrange(p2 + 1, p3) =~= d3);
    assert(s[p3] == DOT);
    assert(s.subrange(p3 + 1, p4) =~= d4);
    assert(s[p4] == COLON);
    assert(s.subrange(p4 + 1, s.len() as int) =~= d5);
    lemma_digit_run_of_block(s, 0, d1);
    lemma_digit_run_of_block(s, p1 + 1, d2);
    lemma_digit_run_of_block(s, p2 + 1, d3);
    lemma_digit_run_of_block(s, p3 + 1, d4);
    lemma_digit_run_of_block(s, p4 + 1, d5);
}

/// Two addresses with the same text are the same address.
pub proof fn lemma_addr_text_injective(x: NetAddr, y: NetAddr)
    requires
        addr_text(x) == addr_text(y),
    ensures
        x == y,
{
    let s = addr_text(x);
    lemma_addr_text_parts(s, x);
    lemma_addr_text_parts(s, y);
    lemma_dec_digits_canonical(x.a as nat);
    lemma_dec_digits_canonical(x.b as nat);
    lemma_dec_digits_canonical(x.c as nat);
    lemma_dec_digits_canonical(x.d as nat);
    lemma_dec_digits_canonical(x.port as nat);
    lemma_dec_digits_canonical(y.a as nat);
    lemma_dec_digits_canonical(y.b as nat);
    lemma_dec_digits_canonical(y.c as nat);
    lemma_dec_digits_canonical(y.d as nat);
    lemma_dec_digits_canonical(y.port as nat);
    // the digit runs coincide position by position, so the component
    // values coincide
    assert(dec_digits(x.a as nat) == dec_digits(y.a as nat));
    assert(x.a == y.a);
    assert(dec_digits(x.b as nat) == dec_digits(y.b as nat));
    assert(x.b == y.b);
    assert(dec_digits(x.c as nat) == dec_digits(y.c as nat));
    assert(x.c == y.c);
    assert(dec_digits(x.d as nat) == dec_digits(y.d as nat));
    assert(x.d == y.d);
    assert(dec_digits(x.port as nat) == dec_digits(y.port as nat));
    assert(x.port == y.port);
}

/// Scans the decimal number starting at `start`.
///
/// Succeeds exactly when the maximal digit run at `start` is canonical and
/// its value is at most `max`, returning the value and the end of the run.
fn scan_num(s: &[u8], start: usize, max: u32) -> (r: Option<(u32, usize)>)
    requires
        start <= s@.len(),
        max <= 65535,
    ensures
        ({
            let end = digit_run_end(s@, start as int);
            let run = s@.subrange(start as int, end);
            match r {
                Some((v, e)) => {
                    &&& e == end
                    &&& canonical_dec(run)
                    &&& v == dec_val(run)
                    &&& v <= max
                },
                None => !(canonical_dec(run) && dec_val(run) <= max),
            }
        }),
{
    let len = s.len();
    proof {
        lemma_digit_run_end_bounds(s@, start as int);
    }
    let ghost end = digit_run_end(s@, start as int);
    let ghost run = s@.subrange(start as int, end);
    if start >= len || s[start] < 48 || s[start] > 57 {
        // empty digit run
        assert(end == start as int);
        assert(run.len() == 0);
        return None;
    }
    if s[start] == 48 {
        // a leading zero is canonical only as the single digit "0"
        if start + 1 < len && 48 <= s[start + 1] && s[start + 1] <= 57 {
            proof {
                assert(is_digit(s@[start as int]) && is_digit(s@[start as int + 1]));
                assert(end == digit_run_end(s@, start as int + 1));
                assert(end == digit_run_end(s@, start as int + 2));
                lemma_digit_run_end_bounds(s@, start as int + 2);
                assert(run.len() >= 2);
                assert(run[0] == 48);
            }
            return None;
        }
        proof {
            assert(end == digit_run_end(s@, start as int + 1));
            assert(end == start + 1);
            assert(run =~= seq![48u8]);
            assert(run[0] == 48u8);
            assert forall|j: int| 0 <= j < run.len() implies is_digit(#[trigger] run[j]) by {
                assert(run[j] == run[0]);
            }
            assert(canonical_dec(run));
            assert(run.drop_last() =~= Seq::<u8>::empty());
            assert(dec_val(run) == dec_val(run.drop_last()) * 10 + (run.last() - 48));
            assert(dec_val(run) == 0);
        }
        return Some((0, start + 1));
    }
    let mut i = start;
    let mut v: u32 = 0;
    while i < len && 48 <= s[i] && s[i] <= 57
        invariant
            start <= i <= len,
            len == s@.len(),
            max <= 65535,
            v <= max,
            s@[start as int] > 48,
            end == digit_run_end(s@, start as int),
            run == s@.subrange(start as int, end),
            digit_run_end(s@, i as int) == end,
            forall|j: int| start <= j < i ==> is_digit(#[trigger] s@[j]),
            i > start ==> v == dec_val(s@.subrange(start as int, i as int)),
            i == start ==> v == 0,
        decreases len - i,
    {
        let d = s[i];
        proof {
            assert(is_digit(s@[i as int]));
            assert(digit_run_end(s@, i as int) == digit_run_end(s@, i as int + 1));
        }
        let ghost pre = s@.subrange(start as int, i as int);
        let ghost cur = s@.subrange(start as int, i as int + 1);
        proof {
            assert(cur.drop_last() =~= pre);
            assert(cur.last() == s@[i as int]);
            assert forall|j: int| 0 <= j < cur.len() implies is_digit(#[trigger] cur[j]) by {
                assert(cur[j] == s@[start + j]);
            }
        }
        let nv = v * 10 + ((d - 48) as u32);
        proof {
            if i == start {
                assert(pre.len() == 0);
                assert(dec_val(cur) == dec_val(pre) * 10 + (cur.last() - 48));
            }
            assert(nv == dec_val(cur));
        }
        if nv > max {
            // every extension of this prefix is at least as large
            proof {
                lemma_digit_run_end_bounds(s@, i as int + 1);
                let rest = s@.subrange(i as int + 1, end);
                assert forall|j: int| 0 <= j < rest.len() implies is_digit(#[trigger] rest[j]) by {
                    assert(rest[j] == s@[i + 1 + j]);
                }
                lemma_dec_val_extend(cur, rest);
                assert(cur + rest =~= run);
                lemma_dec_val_nonneg(rest);
                assert(pow10(rest.len()) >= 1) by {
                    lemma_pow10_positive(rest.len());
                }
                assert(dec_val(cur) * pow10(rest.len()) >= dec_val(cur)) by (nonlinear_arith)
                    requires
                        dec_val(cur) >= 0,
                        pow10(rest.len()) >= 1,
                ;
                assert(dec_val(run) >= dec_val(cur));
            }
            return None;
        }
        v = nv;
        i = i + 1;
    }
    proof {
        assert(digit_run_end(s@, i as int) == i as int);
        assert(i > start);
        assert(run == s@.subrange(start as int, i as int));
        assert(run[0] == s@[start as int]);
        assert(run[0] != 48);
        assert forall|j: int| 0 <= j < run.len() implies is_digit(#[trigger] run[j]) by {
            assert(run[j] == s@[start + j]);
        }
        assert(canonical_dec(run));
    }
    Some((v, i))
}

/// The decomposition of an address text together with the canonical-form
/// facts about each component, as one package.
proof fn lemma_addr_text_full(s: Seq<u8>, x: NetAddr)
    requires
        s == addr_text(x),
    ensures
        ({
            let p1 = digit_run_end(s, 0);
            let p2 = digit_run_end(s, p1 + 1);
            let p3 = digit_run_end(s, p2 + 1);
            let p4 = digit_run_end(s, p3 + 1);
            &&& 0 < p1 < p2 < p3 < p4 < s.len()
            &&& digit_run_end(s, p4 + 1) == s.len()
            &&& canonical_dec(s.subrange(0, p1)) && dec_val(s.subrange(0, p1)) == x.a
            &&& s[p1] == DOT
            &&& canonical_dec(s.subrange(p1 + 1, p2)) && dec_val(s.subrange(p1 + 1, p2)) == x.b
            &&& s[p2] == DOT
            &&& canonical_dec(s.subrange(p2 + 1, p3)) && dec_val(s.subrange(p2 + 1, p3)) == x.c
            &&& s[p3] == DOT
            &&& canonical_dec(s.subrange(p3 + 1, p4)) && dec_val(s.subrange(p3 + 1, p4)) == x.d
            &&& s[p4] == COLON
            &&& canonical_dec(s.subrange(p4 + 1, s.len() as int)) && dec_val(
                s.subrange(p4 + 1, s.len() as int),
            ) == x.port
        }),
{
    lemma_addr_text_parts(s, x);
    lemma_dec_digits_canonical(x.a as nat);
    lemma_dec_digits_canonical(x.b as nat);
    lemma_dec_digits_canonical(x.c as nat);
    lemma_dec_digits_canonical(x.d as nat);
    lemma_dec_digits_canonical(x.port as nat);
}

/// Parses the canonical text of a socket address.
///
/// Accepts exactly the sequences produced by [`addr_text`] (and so by
/// [`format_addr`]): decimal octets and port without leading zeros,
/// separated by `'.'` and `':'`.
#[verifier::rlimit(60)]
pub fn parse_addr(s: &[u8]) -> (r: Option<NetAddr>)
    ensures
        match r {
            Some(x) => s@ == addr_text(x),
            None => forall|x: NetAddr| s@ != addr_text(x),
        },
{
    let len = s.len();
    let (v1, e1) = match scan_num(s, 0, 255) {
        Some(p) => p,
        None => {
            proof {
                assert forall|x: NetAddr| s@ != addr_text(x) by {
                    if s@ == addr_text(x) {
                        lemma_addr_text_full(s@, x);
                    }
                }
            }
            return None;
        },
    };
    proof {
        lemma_digit_run_end_bounds(s@, 0);
    }
    if e1 >= len || s[e1] != DOT {
        proof {
            assert forall|x: NetAddr| s@ != addr_text(x) by {
                if s@ == addr_text(x) {
                    lemma_addr_text_full(s@, x);
                }
            }
        }
        return None;
    }
    let (v2, e2) = match scan_num(s, e1 + 1, 255) {
        Some(p) => p,
        None => {
            proof {
                assert forall|x: NetAddr| s@ != addr_text(x) by {
                    if s@ == addr_text(x) {
                        lemma_addr_text_full(s@, x);
                    }
                }
            }
            return None;
        },
    };
    proof {
        lemma_digit_run_end_bounds(s@, e1 as int + 1);
    }
    if e2 >= len || s[e2] != DOT {
        proof {
            assert forall|x: NetAddr| s@ != addr_text(x) by {
                if s@ == addr_text(x) {
                    lemma_addr_text_full(s@, x);
                }
            }
        }
        return None;
    }
    let (v3, e3) = match scan_num(s, e2 + 1, 255) {
        Some(p) => p,
        None => {
            proof {
                assert forall|x: NetAddr| s@ != addr_text(x) by {
                    if s@ == addr_text(x) {
                        lemma_addr_text_full(s@, x);
                    }
                }
            }
            return None;
        },
    };
    proof {
        lemma_digit_run_end_bounds(s@, e2 as int + 1);
    }
    if e3 >= len || s[e3] != DOT {
        proof {
            assert forall|x: NetAddr| s@ != addr_text(x) by {
                if s@ == addr_text(x) {
                    lemma_addr_text_full(s@, x);
                }
            }
        }
        return None;
    }
    let (v4, e4) = match scan_num(s, e3 + 1, 255) {
        Some(p) => p,
        None => {
            proof {
                assert forall|x: NetAddr| s@ != addr_text(x) by {
                    if s@ == addr_text(x) {
                        lemma_addr_text_full(s@, x);
                    }
                }
            }
            return None;
        },
    };
    proof {
        lemma_digit_run_end_bounds(s@, e3 as int + 1);
    }
    if e4 >= len || s[e4] != COLON {
        proof {
            assert forall|x: NetAddr| s@ != addr_text(x) by {
                if s@ == addr_text(x) {
                    lemma_addr_text_full(s@, x);
                }
            }
        }
        return None;
    }
    let (v5, e5) = match scan_num(s, e4 + 1, 65535) {
        Some(p) => p,
        None => {
            proof {
                assert forall|x: NetAddr| s@ != addr_text(x) by {
                    if s@ == addr_text(x) {
                        lemma_addr_text_full(s@, x);
                    }
                }
            }
            return None;
        },
    };
    if e5 != len {
        proof {
            assert forall|x: NetAddr| s@ != addr_text(x) by {
                if s@ == addr_text(x) {
                    lemma_addr_text_full(s@, x);
                }
            }
        }
        return None;
    }
    let x = NetAddr {
        a: v1 as u8,
        b: v2 as u8,
        c: v3 as u8,
        d: v4 as u8,
        port: v5 as u16,
    };
    proof {
        let run1 = s@.subrange(0, e1 as int);
        let run2 = s@.subrange(e1 as int + 1, e2 as int);
        let run3 = s@.subrange(e2 as int + 1, e3 as int);
        let run4 = s@.subrange(e3 as int + 1, e4 as int);
        let run5 = s@.subrange(e4 as int + 1, len as int);
        lemma_canonical_dec_unique(run1);
        lemma_canonical_dec_unique(run2);
        lemma_canonical_dec_unique(run3);
        lemma_canonical_dec_unique(run4);
        lemma_canonical_dec_unique(run5);
        assert(dec_digits(x.a as nat) == run1);
        assert(dec_digits(x.b as nat) == run2);
        assert(dec_digits(x.c as nat) == run3);
        assert(dec_digits(x.d as nat) == run4);
        assert(dec_digits(x.port as nat) == run5);
        assert(s@ =~= addr_text(x));
    }
    Some(x)
}

proof fn lemma_pow10_positive(k: nat)
    ensures
        pow10(k) >= 1,
    decreases k,
{
    if k > 0 {
        lemma_pow10_positive((k - 1) as nat);
    }
}

/// Appends the canonical decimal text of `n` to `out`.
pub fn push_dec(out: &mut Vec<u8>, n: u64)
    ensures
        final(out)@ == old(out)@ + dec_digits(n as nat),
    decreases n,
{
    if n < 10 {
        out.push((n as u8) + 48);
        proof {
            assert(final(out)@ =~= old(out)@ + dec_digits(n as nat));
        }
    } else {
        push_dec(out, n / 10);
        out.push(((n % 10) as u8) + 48);
        proof {
            assert((n / 10) as nat == n as nat / 10);
            assert((n % 10) as nat == n as nat % 10);
            assert(final(out)@ =~= old(out)@ + dec_digits(n as nat));
        }
    }
}

/// The canonical text of an address, as bytes.
pub fn format_addr(x: &NetAddr) -> (r: Vec<u8>)
    ensures
        r@ == addr_text(*x),
{
    let mut out: Vec<u8> = Vec::new();
    push_dec(&mut out, x.a as u64);
    out.push(DOT);
    push_dec(&mut out, x.b as u64);
    out.push(DOT);
    push_dec(&mut out, x.c as u64);
    out.push(DOT);
    push_dec(&mut out, x.d as u64);
    out.push(COLON);
    push_dec(&mut out, x.port as u64);
    proof {
        assert(out@ =~= addr_text(*x));
    }
    out
}

} // verus!
