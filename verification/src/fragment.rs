//! Fragmentation and reassembly for the constrained-MTU transport.
//!
//! A payload larger than the transport's MTU is carried as a series of
//! frames.  Each frame starts with a three-byte header: the *total* payload
//! length as a little-endian 16-bit value (so the receiver knows the
//! expected size from any first fragment), then a one-byte sequence number
//! that starts at 0 per message and wraps modulo 256.  The rest of the
//! frame is a chunk of the payload.
//!
//! The receiver keeps one [`Reassembly`] per connection.  A frame shorter
//! than the header is discarded.  A first fragment starts a buffer; each
//! following fragment must carry the successor sequence number, else the
//! whole buffer is discarded and the state reset (the message is lost; no
//! feedback reaches the sender).  Reassembly completes as soon as the
//! buffer reaches the expected length.

use vstd::prelude::*;

verus! {

/// Bytes of the per-frame header: 2 for the total length, 1 for the
/// sequence number.
pub const HEADER_SIZE: usize = 3;

/// Default MTU of the constrained transport.
pub const DEFAULT_MTU: usize = 20;

/// Largest representable payload: the header carries the length in 16
/// bits.
pub const MAX_PAYLOAD: usize = 65535;

/// `ceil(len / cap)`: how many chunks of capacity `cap` cover `len` bytes.
pub open spec fn chunk_count(len: int, cap: int) -> int
    recommends
        cap > 0,
        len >= 0,
{
    (len + cap - 1) / cap
}

/// The `i`-th chunk of the payload.
pub open spec fn chunk_at(data: Seq<u8>, cap: int, i: int) -> Seq<u8>
    recommends
        cap > 0,
        0 <= i,
        i * cap < data.len(),
{
    data.subrange(
        i * cap,
        if (i + 1) * cap <= data.len() {
            (i + 1) * cap
        } else {
            data.len() as int
        },
    )
}

/// The `i`-th frame: little-endian total length, wrapping sequence number,
/// then the chunk.
pub open spec fn spec_frame(data: Seq<u8>, cap: int, i: int) -> Seq<u8> {
    seq![
        (data.len() % 256) as u8,
        (data.len() / 256) as u8,
        (i % 256) as u8,
    ] + chunk_at(data, cap, i)
}

/// All frames of a payload, in order.
pub open spec fn spec_frames(data: Seq<u8>, cap: int) -> Seq<Seq<u8>> {
    Seq::new(chunk_count(data.len() as int, cap) as nat, |i: int| spec_frame(data, cap, i))
}

/// Splits `data` into MTU-sized frames.
///
/// Frames are emitted in order; every frame repeats the full payload
/// length; sequence numbers start at 0 and wrap modulo 256.  An empty
/// payload yields no frames.
pub fn split_into_frames(data: &[u8], mtu: usize) -> (r: Vec<Vec<u8>>)
    requires
        HEADER_SIZE < mtu,
        data@.len() <= MAX_PAYLOAD,
    ensures
        r@.len() == chunk_count(data@.len() as int, mtu - HEADER_SIZE),
        forall|i: int| 0 <= i < r@.len() ==> (#[trigger] r@[i])@ == spec_frame(
            data@,
            mtu - HEADER_SIZE,
            i,
        ),
        r@.map_values(|f: Vec<u8>| f@) == spec_frames(data@, mtu - HEADER_SIZE),
{
    let cap = mtu - HEADER_SIZE;
    let total = data.len();
    let lo = (total % 256) as u8;
    let hi = (total / 256) as u8;
    let mut frames: Vec<Vec<u8>> = Vec::new();
    let mut offset: usize = 0;
    let mut sq: u8 = 0;
    while offset < total
        invariant
            0 < cap == mtu - HEADER_SIZE,
            total == data@.len() <= MAX_PAYLOAD,
            lo == (total % 256) as u8,
            hi == (total / 256) as u8,
            offset <= total,
            offset == if frames@.len() * cap <= total {
                frames@.len() * cap
            } else {
                total as int
            },
            frames@.len() > 0 ==> (frames@.len() - 1) * cap < total,
            sq == (frames@.len() % 256) as u8,
            forall|j: int| 0 <= j < frames@.len() ==> (#[trigger] frames@[j])@ == spec_frame(
                data@,
                cap as int,
                j,
            ),
        decreases total - offset,
    {
        let ghost i = frames@.len() as int;
        proof {
            assert(offset == i * cap);
            assert((i + 1) * cap == i * cap + cap) by (nonlinear_arith);
        }
        let remaining = total - offset;
        let end = if cap < remaining {
            offset + cap
        } else {
            total
        };
        let mut fr: Vec<u8> = Vec::new();
        fr.push(lo);
        fr.push(hi);
        fr.push(sq);
        let mut k = offset;
        while k < end
            invariant
                offset <= k <= end <= total,
                total == data@.len(),
                fr@ == seq![lo, hi, sq] + data@.subrange(offset as int, k as int),
            decreases end - k,
        {
            fr.push(data[k]);
            proof {
                assert(fr@ =~= seq![lo, hi, sq] + data@.subrange(offset as int, k + 1));
            }
            k = k + 1;
        }
        proof {
            assert(fr@ =~= spec_frame(data@, cap as int, i));
        }
        frames.push(fr);
        offset = end;
        sq = sq.wrapping_add(1);
        proof {
            assert(frames@.len() == i + 1);
            assert((i + 1) % 256 == if i % 256 == 255 {
                0int
            } else {
                i % 256 + 1
            }) by {
                lemma_mod_inc(i, 256);
            }
        }
    }
    proof {
        let n = frames@.len() as int;
        if total == 0 {
            assert(n == 0);
            assert((0 + cap - 1) / cap as int == 0) by (nonlinear_arith)
                requires
                    cap >= 1,
            ;
        } else {
            assert(n * cap >= total);
            assert(n > 0);
            assert((n - 1) * cap < total);
            lemma_ceil_div(total as int, cap as int, n);
        }
        assert(frames@.map_values(|f: Vec<u8>| f@) =~= spec_frames(data@, cap as int));
    }
    frames
}

/// Incrementing respects the remainder classes.
proof fn lemma_mod_inc(i: int, m: int)
    requires
        i >= 0,
        m > 1,
    ensures
        (i + 1) % m == if i % m == m - 1 {
            0int
        } else {
            i % m + 1
        },
{
    let q = i / m;
    let r = i % m;
    vstd::arithmetic::div_mod::lemma_fundamental_div_mod(i, m);
    assert(i == q * m + r);
    if r == m - 1 {
        assert(i + 1 == (q + 1) * m) by (nonlinear_arith)
            requires
                i == q * m + r,
                r == m - 1,
        ;
        assert((i + 1) % m == 0) by (nonlinear_arith)
            requires
                i + 1 == (q + 1) * m,
                q + 1 >= 0,
                m > 1,
        ;
    } else {
        assert((i + 1) % m == r + 1) by (nonlinear_arith)
            requires
                i == q * m + r,
                0 <= r < m - 1,
                m > 1,
                q >= 0,
        ;
    }
}

/// If `n` chunks of size `cap` cover `total` and `n - 1` do not, then `n`
/// is the ceiling of the division.
proof fn lemma_ceil_div(total: int, cap: int, n: int)
    requires
        cap > 0,
        total >= 1,
        n > 0,
        n * cap >= total,
        (n - 1) * cap < total,
    ensures
        (total + cap - 1) / cap == n,
{
    assert((total + cap - 1) / cap == n) by (nonlinear_arith)
        requires
            cap > 0,
            total >= 1,
            n > 0,
            n * cap >= total,
            (n - 1) * cap < total,
    ;
}

/// The reassembly state, mathematically.
#[verifier::ext_equal]
pub struct ReassemblyV {
    pub buffer: Seq<u8>,
    pub expected_length: Option<u16>,
    pub last_sequence: Option<u8>,
}

/// "No reassembly in progress."
pub open spec fn init_state() -> ReassemblyV {
    ReassemblyV { buffer: Seq::empty(), expected_length: None, last_sequence: None }
}

/// A reachable reassembly state: idle states hold nothing, in-progress
/// states remember the last sequence number.
pub open spec fn state_wf(st: ReassemblyV) -> bool {
    &&& (st.expected_length is None ==> st.buffer.len() == 0 && st.last_sequence is None)
    &&& (st.expected_length is Some ==> st.last_sequence is Some)
}

/// The sequence number that must follow `s`.
pub open spec fn wrap_inc(s: u8) -> u8 {
    if s == 255 {
        0
    } else {
        (s + 1) as u8
    }
}

/// The total payload length a frame's header announces.
pub open spec fn frame_total(frame: Seq<u8>) -> int {
    frame[0] + 256 * frame[1]
}

/// The sequence number a frame carries.
pub open spec fn frame_seq(frame: Seq<u8>) -> u8 {
    frame[2]
}

/// The payload chunk a frame carries.
pub open spec fn frame_chunk(frame: Seq<u8>) -> Seq<u8> {
    frame.subrange(HEADER_SIZE as int, frame.len() as int)
}

/// One step of the reassembly state machine: the state after one inbound
/// frame, and the completed payload if that frame finished a message.
///
/// A short frame is ignored.  A frame reaching an idle state starts a new
/// message (and completes it at once if the chunk already covers the
/// announced length).  A frame reaching an in-progress state must carry
/// the successor sequence number; otherwise the buffered message is
/// dropped and the state reset.
pub open spec fn spec_step(st: ReassemblyV, frame: Seq<u8>) -> (ReassemblyV, Option<Seq<u8>>) {
    if frame.len() < HEADER_SIZE {
        (st, None)
    } else {
        let total = frame_total(frame);
        let sq = frame_seq(frame);
        let chunk = frame_chunk(frame);
        match st.expected_length {
            None => {
                if chunk.len() >= total {
                    (init_state(), Some(chunk))
                } else {
                    (
                        ReassemblyV {
                            buffer: chunk,
                            expected_length: Some(total as u16),
                            last_sequence: Some(sq),
                        },
                        None,
                    )
                }
            },
            Some(expected) => {
                match st.last_sequence {
                    Some(last) => {
                        if sq != wrap_inc(last) {
                            (init_state(), None)
                        } else {
                            let buf = st.buffer + chunk;
                            if buf.len() >= expected {
                                (init_state(), Some(buf))
                            } else {
                                (
                                    ReassemblyV {
                                        buffer: buf,
                                        expected_length: Some(expected),
                                        last_sequence: Some(sq),
                                    },
                                    None,
                                )
                            }
                        }
                    },
                    None => (init_state(), None),
                }
            },
        }
    }
}

/// Per-connection reassembly state: the accumulated buffer, the total
/// length announced by the first fragment, and the last sequence number
/// seen.  Created idle; reset on completion and on any sequence error.
#[derive(Debug)]
pub struct Reassembly {
    buffer: Vec<u8>,
    expected_length: Option<u16>,
    last_sequence: Option<u8>,
}

impl View for Reassembly {
    type V = ReassemblyV;

    closed spec fn view(&self) -> ReassemblyV {
        ReassemblyV {
            buffer: self.buffer@,
            expected_length: self.expected_length,
            last_sequence: self.last_sequence,
        }
    }
}

impl Reassembly {
    /// An idle reassembly state.
    pub fn new() -> (r: Self)
        ensures
            r@ == init_state(),
            state_wf(r@),
    {
        let r = Reassembly { buffer: Vec::new(), expected_length: None, last_sequence: None };
        proof {
            assert(r@ =~= init_state());
        }
        r
    }

    /// Feeds one inbound frame; returns the completed payload when this
    /// frame finishes a message.  Behaves exactly as [`spec_step`].
    pub fn push_frame(&mut self, frame: &[u8]) -> (r: Option<Vec<u8>>)
        requires
            state_wf(old(self)@),
        ensures
            state_wf(final(self)@),
            final(self)@ == spec_step(old(self)@, frame@).0,
            match r {
                Some(p) => spec_step(old(self)@, frame@).1 == Some(p@),
                None => spec_step(old(self)@, frame@).1 is None,
            },
    {
        let n = frame.len();
        if n < HEADER_SIZE {
            return None;
        }
        let total = (frame[0] as usize) + 256 * (frame[1] as usize);
        let sq = frame[2];
        match self.expected_length {
            None => {
                let chunk = copy_tail(frame, HEADER_SIZE);
                if chunk.len() >= total {
                    // the first fragment already covers the whole message
                    proof {
                        assert(old(self)@ =~= init_state());
                    }
                    return Some(chunk);
                }
                self.buffer = chunk;
                self.expected_length = Some(total as u16);
                self.last_sequence = Some(sq);
                None
            },
            Some(expected) => {
                let last = match self.last_sequence {
                    Some(l) => l,
                    None => 0,  // unreachable: in-progress states carry a sequence number
                };
                if sq != last.wrapping_add(1) {
                    // sequence error: drop the buffered message, reset
                    self.buffer = Vec::new();
                    self.expected_length = None;
                    self.last_sequence = None;
                    proof {
                        assert(final(self)@ =~= init_state());
                    }
                    return None;
                }
                let mut k = HEADER_SIZE;
                while k < n
                    invariant
                        HEADER_SIZE <= k <= n,
                        n == frame@.len(),
                        self.buffer@ == old(self)@.buffer + frame@.subrange(
                            HEADER_SIZE as int,
                            k as int,
                        ),
                        self.expected_length == old(self)@.expected_length,
                        self.last_sequence == old(self)@.last_sequence,
                    decreases n - k,
                {
                    self.buffer.push(frame[k]);
                    proof {
                        assert(self.buffer@ =~= old(self)@.buffer + frame@.subrange(
                            HEADER_SIZE as int,
                            k + 1,
                        ));
                    }
                    k = k + 1;
                }
                self.last_sequence = Some(sq);
                if self.buffer.len() >= expected as usize {
                    // message complete: hand the buffer out and reset
                    let mut out: Vec<u8> = Vec::new();
                    core::mem::swap(&mut out, &mut self.buffer);
                    self.expected_length = None;
                    self.last_sequence = None;
                    proof {
                        assert(final(self)@ =~= init_state());
                    }
                    return Some(out);
                }
                None
            },
        }
    }
}

/// Feeds a series of frames through the state machine, collecting every
/// completed payload in order.
pub open spec fn spec_feed(st: ReassemblyV, frames: Seq<Seq<u8>>) -> (ReassemblyV, Seq<Seq<u8>>)
    decreases frames.len(),
{
    if frames.len() == 0 {
        (st, Seq::empty())
    } else {
        let first = spec_step(st, frames[0]);
        let rest = spec_feed(first.0, frames.subrange(1, frames.len() as int));
        (
            rest.0,
            match first.1 {
                Some(p) => seq![p] + rest.1,
                None => rest.1,
            },
        )
    }
}

/// The reassembly state after the first `k` frames of a message of length
/// `data.len()` have been absorbed (for `1 <= k <` the frame count).
spec fn mid_state(data: Seq<u8>, cap: int, k: int) -> ReassemblyV {
    ReassemblyV {
        buffer: data.take(k * cap),
        expected_length: Some(data.len() as u16),
        last_sequence: Some(((k - 1) % 256) as u8),
    }
}

/// The ceiling bounds: `n` chunks cover the payload, `n - 1` do not.
proof fn lemma_ceil_bounds(len: int, cap: int)
    requires
        cap > 0,
        len >= 1,
    ensures
        chunk_count(len, cap) >= 1,
        chunk_count(len, cap) * cap >= len,
        (chunk_count(len, cap) - 1) * cap < len,
{
    assert((len + cap - 1) / cap >= 1 && ((len + cap - 1) / cap) * cap >= len && ((len + cap
        - 1) / cap - 1) * cap < len) by (nonlinear_arith)
        requires
            cap > 0,
            len >= 1,
    ;
}

/// Multiplying by a chunk capacity preserves order.
proof fn lemma_mul_mono(a: int, b: int, c: int)
    requires
        a <= b,
        c >= 0,
    ensures
        a * c <= b * c,
{
    vstd::arithmetic::mul::lemma_mul_inequality(a, b, c);
}

/// What one in-order frame does to the mid-state: absorbs its chunk, and
/// completes the message on the last frame.
proof fn lemma_feed_tail(data: Seq<u8>, cap: int, k: int)
    requires
        cap > 0,
        1 <= data.len() <= MAX_PAYLOAD,
        1 <= k < chunk_count(data.len() as int, cap),
    ensures
        spec_feed(
            mid_state(data, cap, k),
            spec_frames(data, cap).subrange(k, chunk_count(data.len() as int, cap)),
        ) == (init_state(), seq![data]),
    decreases chunk_count(data.len() as int, cap) - k,
{
    let len = data.len() as int;
    let n = chunk_count(len, cap);
    lemma_ceil_bounds(len, cap);
    let frames = spec_frames(data, cap);
    let tail = frames.subrange(k, n);
    let st = mid_state(data, cap, k);
    let frame = frames[k];
    assert(frame == spec_frame(data, cap, k));
    // the k-th chunk is nonempty because k * cap < len
    lemma_mul_mono(k, n - 1, cap);
    assert(k * cap <= (n - 1) * cap < len);
    let chunk = chunk_at(data, cap, k);
    assert((k + 1) * cap == k * cap + cap) by (nonlinear_arith);
    // header fields
    assert(frame.len() >= HEADER_SIZE);
    assert(frame[0] == (len % 256) as u8 && frame[1] == (len / 256) as u8 && frame[2] == (k
        % 256) as u8);
    vstd::arithmetic::div_mod::lemma_fundamental_div_mod(len, 256);
    assert(frame_total(frame) == len);
    assert(frame_chunk(frame) =~= chunk);
    // the frame carries the successor sequence number
    lemma_mod_inc(k - 1, 256);
    assert(frame_seq(frame) == wrap_inc(((k - 1) % 256) as u8));
    // absorbing the chunk extends the prefix
    let step = spec_step(st, frame);
    let buf = st.buffer + chunk;
    assert(st.expected_length == Some(len as u16));
    if k + 1 == n {
        // last frame: the buffer reaches the full payload
        assert(buf =~= data.take(len));
        assert(data.take(len) =~= data);
        assert(buf.len() >= len);
        assert(step == (init_state(), Some(data)));
        assert(tail.subrange(1, tail.len() as int) =~= Seq::<Seq<u8>>::empty());
        assert(spec_feed(step.0, tail.subrange(1, tail.len() as int)) == (
            init_state(),
            Seq::<Seq<u8>>::empty(),
        ));
        assert(seq![data] + Seq::<Seq<u8>>::empty() =~= seq![data]);
        assert(tail[0] == frame);
    } else {
        // middle frame: the buffer grows by one full chunk
        lemma_mul_mono(k + 1, n - 1, cap);
        assert((k + 1) * cap <= (n - 1) * cap < len);
        assert(buf =~= data.take((k + 1) * cap));
        assert(buf.len() == (k + 1) * cap < len);
        assert(step.0 =~= mid_state(data, cap, k + 1));
        assert(step.1 is None);
        lemma_feed_tail(data, cap, k + 1);
        assert(tail.subrange(1, tail.len() as int) =~= frames.subrange(k + 1, n));
        assert(tail[0] == frame);
    }
}

/// Fragmentation round-trip: for any payload and any MTU larger than the
/// header, splitting produces `ceil(len / (mtu - 3))` frames, and feeding
/// them in order through an idle reassembly state delivers exactly the
/// original payload and returns the state to idle.
pub proof fn lemma_fragmentation_round_trip(data: Seq<u8>, mtu: int)
    requires
        HEADER_SIZE < mtu,
        1 <= data.len() <= MAX_PAYLOAD,
    ensures
        spec_frames(data, mtu - HEADER_SIZE).len() == chunk_count(
            data.len() as int,
            mtu - HEADER_SIZE,
        ),
        spec_feed(init_state(), spec_frames(data, mtu - HEADER_SIZE)) == (
            init_state(),
            seq![data],
        ),
{
    let cap = mtu - HEADER_SIZE;
    let len = data.len() as int;
    let n = chunk_count(len, cap);
    lemma_ceil_bounds(len, cap);
    let frames = spec_frames(data, cap);
    let frame = frames[0];
    assert(frame == spec_frame(data, cap, 0));
    let chunk = chunk_at(data, cap, 0);
    assert(0 * cap == 0 && 1 * cap == cap) by (nonlinear_arith);
    assert(frame.len() >= HEADER_SIZE);
    vstd::arithmetic::div_mod::lemma_fundamental_div_mod(len, 256);
    assert(frame_total(frame) == len);
    assert(frame_chunk(frame) =~= chunk);
    let step = spec_step(init_state(), frame);
    if n == 1 {
        // a single frame carries the whole payload
        assert(cap >= len);
        assert(chunk =~= data);
        assert(step == (init_state(), Some(data)));
        assert(frames.len() == n);
        assert(frames.subrange(1, frames.len() as int) =~= Seq::<Seq<u8>>::empty());
        assert(seq![data] + Seq::<Seq<u8>>::empty() =~= seq![data]);
        let rest = spec_feed(step.0, frames.subrange(1, frames.len() as int));
        assert(rest.1 == Seq::<Seq<u8>>::empty());
        assert(spec_feed(init_state(), frames).0 == rest.0);
        assert(spec_feed(init_state(), frames).1 == seq![data] + rest.1);
    } else {
        // the first frame starts the buffer with one full chunk
        assert((n - 1) * cap >= 1 * cap) by {
            lemma_mul_mono(1, n - 1, cap);
        }
        assert(cap < len);
        assert(chunk =~= data.take(cap));
        assert(chunk.len() == cap < len);
        assert(step.0 =~= mid_state(data, cap, 1));
        assert(step.1 is None);
        lemma_feed_tail(data, cap, 1);
        assert(frames.len() == n);
        assert(frames.subrange(1, frames.len() as int) =~= frames.subrange(1, n));
        let rest = spec_feed(step.0, frames.subrange(1, frames.len() as int));
        assert(rest == (init_state(), seq![data]));
        assert(spec_feed(init_state(), frames).0 == rest.0);
        assert(spec_feed(init_state(), frames).1 == rest.1);
    }
    assert(spec_feed(init_state(), frames).0 == init_state());
    assert(spec_feed(init_state(), frames).1 == seq![data]);
}

/// Sequence-gap detection: a frame whose sequence number is not the
/// successor of the last one seen makes the state machine drop the whole
/// buffered message and reset; the next well-formed first fragment then
/// starts a fresh reassembly, independent of everything before the gap.
pub proof fn lemma_sequence_gap_resets(st: ReassemblyV, bad: Seq<u8>, next: Seq<u8>)
    requires
        st.expected_length is Some,
        st.last_sequence is Some,
        bad.len() >= HEADER_SIZE,
        frame_seq(bad) != wrap_inc(st.last_sequence->0),
    ensures
        spec_step(st, bad) == (init_state(), None::<Seq<u8>>),
        spec_step(spec_step(st, bad).0, next) == spec_step(init_state(), next),
{
}

/// Copies `frame[from..]` into a fresh vector.
fn copy_tail(frame: &[u8], from: usize) -> (r: Vec<u8>)
    requires
        from <= frame@.len(),
    ensures
        r@ == frame@.subrange(from as int, frame@.len() as int),
{
    let n = frame.len();
    let mut out: Vec<u8> = Vec::new();
    let mut k = from;
    while k < n
        invariant
            from <= k <= n,
            n == frame@.len(),
            out@ == frame@.subrange(from as int, k as int),
        decreases n - k,
    {
        out.push(frame[k]);
        proof {
            assert(out@ =~= frame@.subrange(from as int, k + 1));
        }
        k = k + 1;
    }
    out
}

} // verus!
