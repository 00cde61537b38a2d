//! The discovery announcement protocol.
//!
//! A node announces itself with a single UDP datagram of the form
//! `"<peer-id>|<ip:port>"`, sent periodically to a well-known multicast
//! group.  A listener ingests such datagrams: it decodes them as UTF-8
//! (lossily — malformed bytes must never crash the listener), splits once
//! on `'|'`, parses the address half, and on success performs a
//! last-write-wins update of the peer directory.  Anything malformed
//! leaves the directory untouched.
//!
//! The sockets, the timer and the receive loop live outside this crate;
//! here are the message codec and the per-datagram directory update.

use vstd::prelude::*;

use crate::addr::{addr_text, format_addr, parse_addr, NetAddr};
use crate::peer::{PeerID, PeerInfo, PeerInfoV, PeerStore};

verus! {

/// ASCII '|', the delimiter between identity and address.
pub const BAR: u8 = 124;

/// The first position at or after `i` holding the delimiter (or the end).
pub open spec fn first_bar(s: Seq<u8>, i: int) -> int
    recommends
        0 <= i <= s.len(),
    decreases s.len() - i,
{
    if i < s.len() {
        if s[i] == BAR {
            i
        } else {
            first_bar(s, i + 1)
        }
    } else {
        i
    }
}

proof fn lemma_first_bar_bounds(s: Seq<u8>, i: int)
    requires
        0 <= i <= s.len(),
    ensures
        i <= first_bar(s, i) <= s.len(),
        forall|j: int| i <= j < first_bar(s, i) ==> #[trigger] s[j] != BAR,
        first_bar(s, i) < s.len() ==> s[first_bar(s, i)] == BAR,
    decreases s.len() - i,
{
    if i < s.len() && s[i] != BAR {
        lemma_first_bar_bounds(s, i + 1);
    }
}

/// The bytes of one announcement: the identity bytes, the delimiter, the
/// address text.
pub open spec fn spec_announcement(id_bytes: Seq<u8>, a: NetAddr) -> Seq<u8> {
    id_bytes + seq![BAR] + addr_text(a)
}

/// What a datagram means: split once on the delimiter; the left half is
/// the announced identity (as raw bytes), the right half must be the text
/// of an address.  `None` when there is no delimiter or the address half
/// parses as no address.
pub open spec fn spec_parse_announcement(s: Seq<u8>) -> Option<(Seq<u8>, NetAddr)> {
    let k = first_bar(s, 0);
    if k == s.len() {
        None
    } else {
        let tail = s.subrange(k + 1, s.len() as int);
        if exists|a: NetAddr| tail == addr_text(a) {
            Some((s.subrange(0, k), choose|a: NetAddr| tail == addr_text(a)))
        } else {
            None
        }
    }
}

/// Copies `s[from..to]` into a fresh vector.
pub(crate) fn copy_range(s: &[u8], from: usize, to: usize) -> (r: Vec<u8>)
    requires
        from <= to <= s@.len(),
    ensures
        r@ == s@.subrange(from as int, to as int),
{
    let mut out: Vec<u8> = Vec::new();
    let mut k = from;
    while k < to
        invariant
            from <= k <= to <= s@.len(),
            out@ == s@.subrange(from as int, k as int),
        decreases to - k,
    {
        out.push(s[k]);
        proof {
            assert(out@ =~= s@.subrange(from as int, k + 1));
        }
        k = k + 1;
    }
    out
}

/// Splits a datagram into identity bytes and parsed address, exactly as
/// [`spec_parse_announcement`] says.
pub fn parse_announcement(data: &[u8]) -> (r: Option<(Vec<u8>, NetAddr)>)
    ensures
        match r {
            Some((idb, a)) => spec_parse_announcement(data@) == Some((idb@, a)),
            None => spec_parse_announcement(data@) is None,
        },
{
    let n = data.len();
    let mut k: usize = 0;
    while k < n && data[k] != BAR
        invariant
            0 <= k <= n,
            n == data@.len(),
            forall|j: int| 0 <= j < k ==> #[trigger] data@[j] != BAR,
            first_bar(data@, 0) == first_bar(data@, k as int),
        decreases n - k,
    {
        k = k + 1;
    }
    proof {
        assert(first_bar(data@, 0) == k as int);
    }
    if k == n {
        return None;
    }
    let addr = parse_addr(&data[k + 1..n]);
    let ghost tail = data@.subrange(k + 1, n as int);
    match addr {
        Some(a) => {
            let idb = copy_range(data, 0, k);
            proof {
                assert(tail == addr_text(a));
                let picked = choose|x: NetAddr| tail == addr_text(x);
                crate::addr::lemma_addr_text_injective(picked, a);
            }
            Some((idb, a))
        },
        None => {
            proof {
                assert(forall|x: NetAddr| tail != addr_text(x));
            }
            None
        },
    }
}

/// What the chars of the lossy UTF-8 decoding of a byte sequence are.
pub uninterp spec fn lossy_str_of(bytes: Seq<u8>) -> Seq<char>;

/// Relies on `String::from_utf8_lossy`: the result is a function of the
/// bytes alone, and valid UTF-8 passes through unchanged.
#[verifier::external_body]
pub(crate) fn lossy_string(data: &[u8]) -> (r: String)
    ensures
        r@ == lossy_str_of(data@),
        vstd::utf8::valid_utf8(data@) ==> r@ == vstd::utf8::decode_utf8(data@),
{
    String::from_utf8_lossy(data).into_owned()
}

/// The directory record one valid announcement produces: only the
/// announced transport address is populated, the receipt time is
/// recorded, and every quality field is unset.
pub open spec fn announced_info(id: Seq<char>, a: NetAddr, now: u64) -> PeerInfoV {
    PeerInfoV {
        id: id,
        wifi_addr: Some(a),
        ble_addr: None,
        last_seen: now,
        rtt_ms: None,
        mtu: None,
        loss_percent: None,
    }
}

/// The listener's step for one datagram: a well-formed announcement
/// performs a last-write-wins update of the directory under the announced
/// (lossily decoded) identity; anything malformed leaves the directory
/// untouched.  Returns whether the directory changed.
pub fn ingest_datagram(store: &mut PeerStore, data: &[u8], now: u64) -> (r: bool)
    requires
        old(store).wf(),
    ensures
        final(store).wf(),
        match spec_parse_announcement(data@) {
            Some((idb, a)) => {
                &&& r == true
                &&& final(store)@ == old(store)@.insert(
                    lossy_str_of(idb),
                    announced_info(lossy_str_of(idb), a, now),
                )
                &&& (vstd::utf8::valid_utf8(idb) ==> lossy_str_of(idb)
                    == vstd::utf8::decode_utf8(idb))
            },
            None => r == false && *final(store) == *old(store),
        },
{
    match parse_announcement(data) {
        Some((idb, a)) => {
            let id = lossy_string(idb.as_slice());
            let info = PeerInfo {
                id: PeerID(id),
                wifi_addr: Some(a),
                ble_addr: None,
                last_seen: now,
                rtt_ms: None,
                mtu: None,
                loss_percent: None,
            };
            store.update_store(info);
            true
        },
        None => false,
    }
}

/// The bytes a node announces itself with: its identity's UTF-8 bytes,
/// the delimiter, and the canonical text of its address.
pub fn encode_announcement(id: &PeerID, addr: &NetAddr) -> (r: Vec<u8>)
    ensures
        r@ == spec_announcement(vstd::utf8::encode_utf8(id.0@), *addr),
{
    let bytes = id.0.as_str().as_bytes();
    let mut out = copy_range(bytes, 0, bytes.len());
    proof {
        assert(out@ =~= vstd::utf8::encode_utf8(id.0@));
    }
    out.push(BAR);
    let mut tail = format_addr(addr);
    out.append(&mut tail);
    proof {
        assert(out@ =~= spec_announcement(vstd::utf8::encode_utf8(id.0@), *addr));
    }
    out
}

/// An announcement whose identity bytes avoid the delimiter parses back
/// to exactly the identity bytes and the address it was built from.
pub proof fn lemma_announcement_round_trip(idb: Seq<u8>, a: NetAddr)
    requires
        forall|i: int| 0 <= i < idb.len() ==> #[trigger] idb[i] != BAR,
    ensures
        spec_parse_announcement(spec_announcement(idb, a)) == Some((idb, a)),
{
    let s = spec_announcement(idb, a);
    let k = idb.len() as int;
    assert(s[k] == BAR);
    lemma_prefix_first_bar(s, 0, k);
    assert(first_bar(s, 0) == k);
    let tail = s.subrange(k + 1, s.len() as int);
    assert(tail =~= addr_text(a));
    assert(s.subrange(0, k) =~= idb);
    let picked = choose|x: NetAddr| tail == addr_text(x);
    crate::addr::lemma_addr_text_injective(picked, a);
}

proof fn lemma_prefix_first_bar(s: Seq<u8>, i: int, k: int)
    requires
        0 <= i <= k < s.len(),
        forall|j: int| i <= j < k ==> #[trigger] s[j] != BAR,
        s[k] == BAR,
    ensures
        first_bar(s, i) == k,
    decreases k - i,
{
    if i < k {
        lemma_prefix_first_bar(s, i + 1, k);
    }
}

/// An identity that avoids the delimiter character encodes to bytes that
/// avoid the delimiter byte: every byte of a multi-byte encoding is at or
/// above 0x80, and the only character whose single-byte encoding is the
/// delimiter is `'|'` itself.
pub proof fn lemma_no_delimiter_in_encoding(id_chars: Seq<char>)
    requires
        forall|i: int| 0 <= i < id_chars.len() ==> #[trigger] id_chars[i] != '|',
    ensures
        forall|i: int|
            0 <= i < vstd::utf8::encode_utf8(id_chars).len()
                ==> #[trigger] vstd::utf8::encode_utf8(id_chars)[i] != BAR,
    decreases id_chars.len(),
{
    if id_chars.len() > 0 {
        let c = id_chars[0];
        let s = c as u32;
        let first = vstd::utf8::encode_scalar(s);
        assert forall|i: int| 0 <= i < first.len() implies #[trigger] first[i] != BAR by {
            if vstd::utf8::has_width_1_encoding(s) {
                assert(first[0] == (s & 0x7F) as u8);
                assert(s & 0x7F == s) by (bit_vector)
                    requires
                        s < 0x80,
                ;
                if first[0] == BAR {
                    assert(s == 124);
                    vstd::utf8::char_u32_cast(c, s);
                    assert(c == 124u32 as char);
                    assert(c == '|');
                }
            } else {
                // every leading or continuation byte of a longer encoding
                // has its high bit set
                assert(forall|b: u8| (0xC0 | b) >= 0x80 as u8) by (bit_vector);
                assert(forall|b: u8| (0xE0 | b) >= 0x80 as u8) by (bit_vector);
                assert(forall|b: u8| (0xF0 | b) >= 0x80 as u8) by (bit_vector);
                assert(forall|b: u8| (0x80 | b) >= 0x80 as u8) by (bit_vector);
            }
        }
        let rest = id_chars.drop_first();
        assert forall|i: int| 0 <= i < rest.len() implies #[trigger] rest[i] != '|' by {
            assert(rest[i] == id_chars[i + 1]);
        }
        lemma_no_delimiter_in_encoding(rest);
        let bytes = vstd::utf8::encode_utf8(id_chars);
        assert(bytes == first + vstd::utf8::encode_utf8(rest));
        assert forall|i: int| 0 <= i < bytes.len() implies #[trigger] bytes[i] != BAR by {
            if i < first.len() {
                assert(bytes[i] == first[i]);
            } else {
                assert(bytes[i] == vstd::utf8::encode_utf8(rest)[i - first.len()]);
            }
        }
    }
}

/// Whatever identity a node holds, as long as it contains no `'|'`, a
/// listener fed that node's own announcement recovers the identity and
/// address exactly: the encoding is valid UTF-8 and decodes back to the
/// same characters.
pub proof fn lemma_announcement_identity_preserved(id_chars: Seq<char>, a: NetAddr)
    requires
        forall|i: int| 0 <= i < id_chars.len() ==> #[trigger] id_chars[i] != '|',
    ensures
        spec_parse_announcement(spec_announcement(vstd::utf8::encode_utf8(id_chars), a))
            == Some((vstd::utf8::encode_utf8(id_chars), a)),
        vstd::utf8::valid_utf8(vstd::utf8::encode_utf8(id_chars)),
        vstd::utf8::decode_utf8(vstd::utf8::encode_utf8(id_chars)) == id_chars,
{
    broadcast use vstd::utf8::encode_utf8_valid_utf8;
    broadcast use vstd::utf8::encode_utf8_decode_utf8;

    lemma_no_delimiter_in_encoding(id_chars);
    lemma_announcement_round_trip(vstd::utf8::encode_utf8(id_chars), a);
}

} // verus!
