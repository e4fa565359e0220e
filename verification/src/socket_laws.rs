//! What holds of a connection's decisions across operations: the incoming buffer stays a
//! sorted set of sequence numbers, packets received out of order and more than once are read
//! back in order, the data queued for sending is cut into packets that put it back together,
//! the congestion timeout stays within its bounds, a selective acknowledgement makes the sender
//! resend exactly the packets that the receiver lacks, and one such round of recovery delivers
//! everything that was sent.
use crate::bit_iterator::{bit_at, bits_of, ones};
use crate::congestion::{sack_lost_from, sack_resend_list, sack_resend_ok, timeout_for};
use crate::packet::{ExtensionModel, ExtensionType, Packet, PacketType};
use crate::socket::{
    accept_all, accepted, buffer_insert, chunk_count, count_below, is_stashed,
    lemma_count_below_sorted, sack_len, seq_distance, SocketCore,
    sack_marked, sack_reports, seq_of, sorted_by_seq, stash_index, CHUNK_SIZE,
    MAX_CONGESTION_TIMEOUT, MIN_CONGESTION_TIMEOUT,
};
use vstd::prelude::*;

verus! {

/// The sequence numbers of the packets of `s`.
pub open spec fn seq_numbers(s: Seq<Packet>) -> Set<u16> {
    Set::new(|x: u16| exists|k: int| 0 <= k < s.len() && seq_of(#[trigger] s[k]) == x)
}

/// Inserting a packet into the incoming buffer keeps it sorted by sequence number; the buffer
/// then holds the packet's sequence number besides those it held. A packet whose sequence
/// number the buffer already holds leaves it unchanged; any other one is added.
pub proof fn law_buffer_insert(s: Seq<Packet>, p: Packet)
    requires
        sorted_by_seq(s),
    ensures
        sorted_by_seq(buffer_insert(s, p)),
        seq_numbers(buffer_insert(s, p)) == seq_numbers(s).insert(seq_of(p)),
        seq_numbers(s).contains(seq_of(p)) ==> buffer_insert(s, p) == s,
        !seq_numbers(s).contains(seq_of(p)) ==> buffer_insert(s, p).len() == s.len() + 1
            && buffer_insert(s, p).contains(p),
{
    let x = seq_of(p);
    lemma_count_below_sorted(s, x);
    let i = count_below(s, x) as int;
    let t = buffer_insert(s, p);
    if i < s.len() && seq_of(s[i]) == x {
        assert(seq_numbers(s).contains(x));
        assert(seq_numbers(t) =~= seq_numbers(s).insert(x));
    } else {
        assert(!seq_numbers(s).contains(x)) by {
            if seq_numbers(s).contains(x) {
                let k = choose|k: int| 0 <= k < s.len() && seq_of(#[trigger] s[k]) == x;
                if k < i {
                } else if k == i {
                } else {
                    assert(seq_of(s[i]) < seq_of(s[k]));
                }
            }
        }
        assert(t == s.insert(i, p));
        assert forall|a: int, b: int| 0 <= a < b < t.len() implies seq_of(#[trigger] t[a]) < seq_of(
            #[trigger] t[b],
        ) by {
            if a < i && b < i {
            } else if a < i && b == i {
            } else if a < i {
                assert(t[b] == s[b - 1]);
            } else if a == i {
                assert(t[b] == s[b - 1]);
                assert(seq_of(s[b - 1]) >= x);
            } else {
                assert(t[a] == s[a - 1]);
                assert(t[b] == s[b - 1]);
            }
        }
        assert forall|y: u16| seq_numbers(t).contains(y) <==> seq_numbers(s).insert(x).contains(y) by {
            if seq_numbers(t).contains(y) {
                let k = choose|k: int| 0 <= k < t.len() && seq_of(#[trigger] t[k]) == y;
                if k < i {
                    assert(t[k] == s[k]);
                } else if k > i {
                    assert(t[k] == s[k - 1]);
                }
            }
            if seq_numbers(s).contains(y) {
                let k = choose|k: int| 0 <= k < s.len() && seq_of(#[trigger] s[k]) == y;
                if k < i {
                    assert(t[k] == s[k]);
                } else {
                    assert(t[k + 1] == s[k]);
                }
            }
            if y == x {
                assert(t[i] == p);
            }
        }
        assert(seq_numbers(t) =~= seq_numbers(s).insert(x));
        assert(t[i] == p);
    }
}

/// The end of the `i`-th chunk of `n` bytes.
pub open spec fn chunk_end(n: nat, i: int) -> int {
    if (i + 1) * CHUNK_SIZE <= n {
        (i + 1) * CHUNK_SIZE
    } else {
        n as int
    }
}

/// The first `k` chunks of `buf` put back together.
pub open spec fn chunks_joined(buf: Seq<u8>, k: int) -> Seq<u8>
    decreases k,
{
    if k <= 0 {
        Seq::empty()
    } else {
        chunks_joined(buf, k - 1) + buf.subrange((k - 1) * CHUNK_SIZE, chunk_end(buf.len(), k - 1))
    }
}

/// The payloads of the data packets that queueing `buf` makes, one per chunk of `CHUNK_SIZE`
/// bytes, put back together in order, give `buf`.
pub proof fn law_chunks_reassemble(buf: Seq<u8>)
    ensures
        chunks_joined(buf, chunk_count(buf.len()) as int) == buf,
{
    let n = buf.len();
    let c = chunk_count(n) as int;
    if n == 0 {
        assert(chunks_joined(buf, 0) =~= buf);
    } else {
        assert(c >= 1 && (c - 1) * 1380 < n && n <= c * 1380) by (nonlinear_arith)
            requires
                c == (n - 1) / 1380 + 1,
                n >= 1,
        ;
        lemma_chunks_prefix(buf, c);
        assert(buf.subrange(0, n as int) =~= buf);
    }
}

/// The first `k` chunks, while they lie within `buf`, are the prefix that ends where the `k`-th
/// chunk ends.
proof fn lemma_chunks_prefix(buf: Seq<u8>, k: int)
    requires
        1 <= k,
        (k - 1) * CHUNK_SIZE < buf.len(),
    ensures
        chunks_joined(buf, k) == buf.subrange(0, chunk_end(buf.len(), k - 1)),
    decreases k,
{
    let n = buf.len();
    if k == 1 {
        assert(chunks_joined(buf, 0) =~= Seq::<u8>::empty());
        assert(chunks_joined(buf, 1) =~= buf.subrange(0, chunk_end(n, 0)));
    } else {
        assert((k - 2) * 1380 < n && (k - 1) * 1380 <= n) by (nonlinear_arith)
            requires
                (k - 1) * 1380 < n,
                k >= 2,
        ;
        lemma_chunks_prefix(buf, k - 1);
        assert(chunk_end(n, k - 2) == (k - 1) * CHUNK_SIZE);
        assert(buf.subrange(0, (k - 1) * CHUNK_SIZE) + buf.subrange((k - 1) * CHUNK_SIZE, chunk_end(n, k - 1))
            =~= buf.subrange(0, chunk_end(n, k - 1)));
    }
}

/// The congestion timeout that the round-trip estimate gives lies between
/// `MIN_CONGESTION_TIMEOUT` and `MAX_CONGESTION_TIMEOUT`.
pub proof fn law_timeout_bounds(rtt: int, var: int)
    ensures
        MIN_CONGESTION_TIMEOUT <= timeout_for(rtt, var) <= MAX_CONGESTION_TIMEOUT,
{
}

/// A selective acknowledgement is at most 8192 bytes long: it reports positions below 2^16.
proof fn lemma_sack_len_bound(s: Seq<Packet>, ack: u16, n: int)
    ensures
        sack_len(s, ack, n) <= 8192,
    decreases n,
{
    if n > 0 {
        lemma_sack_len_bound(s, ack, n - 1);
        if is_stashed(s, ack, n - 1) {
            let byte = stash_index(s, ack, n - 1) / 8;
            assert(0 <= byte <= 8191);
            assert(4 * (byte / 4) + 4 <= 8192);
        }
    }
}

/// Every number that the scan of a selective acknowledgement from position `j` names lost
/// stands for an unset bit at or after `j`.
proof fn lemma_sack_lost_from_unset(bits: Seq<bool>, ack: u16, last: u16, j: int, v: u16)
    requires
        0 <= j,
        sack_lost_from(bits, ack, last, j).contains(v),
    ensures
        exists|i: int| j <= i < bits.len() && !bits[i] && v == ack + 2 + (i % 65536),
    decreases bits.len() - j,
{
    if j < bits.len() {
        if bits[j] {
            lemma_sack_lost_from_unset(bits, ack, last, j + 1, v);
        } else {
            let rest = sack_lost_from(bits, ack, last, j + 1);
            let w = ack + 2 + (j % 65536);
            if w < last {
                let all = seq![w as u16] + rest;
                let k = choose|k: int| 0 <= k < all.len() && all[k] == v;
                if k == 0 {
                    assert(v == w);
                } else {
                    assert(rest[k - 1] == v);
                    lemma_sack_lost_from_unset(bits, ack, last, j + 1, v);
                }
            }
        }
    }
}

/// The sender never resends, as lost, a packet that the receiver holds: every sequence number
/// that the sender reads as lost from the selective acknowledgement that the receiver built of
/// its incoming buffer `s`, both sides taking `ack` as the last acknowledged packet, is that of
/// no packet of `s`.
pub proof fn law_sack_spares_held_packets(s: Seq<Packet>, ack: u16, sack: Seq<u8>, last: u16, v: u16)
    requires
        sack_reports(s, ack, s.len() as int, sack),
        sack_lost_from(bits_of(sack), ack, last, 0).contains(v),
    ensures
        forall|k: int| 0 <= k < s.len() ==> seq_of(#[trigger] s[k]) != v,
{
    let bits = bits_of(sack);
    lemma_sack_lost_from_unset(bits, ack, last, 0, v);
    let i = choose|i: int| 0 <= i < bits.len() && !bits[i] && v == ack + 2 + (i % 65536);
    lemma_sack_len_bound(s, ack, s.len() as int);
    assert(i < 65536);
    assert(i % 65536 == i);
    assert(!bit_at(sack, i));
    assert forall|k: int| 0 <= k < s.len() implies seq_of(#[trigger] s[k]) != v by {
        if seq_of(s[k]) == v {
            assert(is_stashed(s, ack, k));
            assert(stash_index(s, ack, k) == i);
            assert(sack_marked(s, ack, s.len() as int, i));
        }
    }
}

/// The payloads of the packets of `s`, put together in order.
pub open spec fn payloads(s: Seq<Packet>) -> Seq<u8>
    decreases s.len(),
{
    if s.len() == 0 {
        Seq::empty()
    } else {
        payloads(s.drop_last()) + s.last()@.payload
    }
}

/// The pieces of `outs`, put together in order.
pub open spec fn joined(outs: Seq<Seq<u8>>) -> Seq<u8>
    decreases outs.len(),
{
    if outs.len() == 0 {
        Seq::empty()
    } else {
        joined(outs.drop_last()) + outs.last()
    }
}

/// The data packets `src` carry the sequence numbers that follow `a`, in order.
pub open spec fn follows(src: Seq<Packet>, a: u16) -> bool {
    &&& a + src.len() <= u16::MAX
    &&& forall|j: int| 0 <= j < src.len() ==> #[trigger] seq_of(src[j]) == a + 1 + j
        && src[j]@.header.ty == PacketType::Data
}

proof fn lemma_seq_numbers_push(s: Seq<Packet>, p: Packet)
    ensures
        seq_numbers(s.push(p)) == seq_numbers(s).insert(seq_of(p)),
{
    let t = s.push(p);
    assert forall|y: u16| seq_numbers(t).contains(y) <==> seq_numbers(s).insert(seq_of(p)).contains(y) by {
        if seq_numbers(t).contains(y) {
            let k = choose|k: int| 0 <= k < t.len() && seq_of(#[trigger] t[k]) == y;
            if k < s.len() {
                assert(t[k] == s[k]);
            }
        }
        if seq_numbers(s).contains(y) {
            let k = choose|k: int| 0 <= k < s.len() && seq_of(#[trigger] s[k]) == y;
            assert(t[k] == s[k]);
        }
        if y == seq_of(p) {
            assert(t[s.len() as int] == p);
        }
    }
    assert(seq_numbers(t) =~= seq_numbers(s).insert(seq_of(p)));
}

proof fn lemma_insert_members(s: Seq<Packet>, p: Packet)
    ensures
        forall|k: int| 0 <= k < buffer_insert(s, p).len() ==> s.contains(#[trigger] buffer_insert(s, p)[k])
            || buffer_insert(s, p)[k] == p,
{
    let i = count_below(s, seq_of(p)) as int;
    let t = buffer_insert(s, p);
    assert forall|k: int| 0 <= k < t.len() implies s.contains(#[trigger] t[k]) || t[k] == p by {
        if i < s.len() && seq_of(s[i]) == seq_of(p) {
            assert(t[k] == s[k]);
        } else {
            lemma_count_below_le(s, seq_of(p));
            if k < i {
                assert(t[k] == s[k]);
            } else if k > i {
                assert(t[k] == s[k - 1]);
            }
        }
    }
}

proof fn lemma_count_below_le(s: Seq<Packet>, x: u16)
    ensures
        count_below(s, x) <= s.len(),
    decreases s.len(),
{
    if s.len() > 0 {
        lemma_count_below_le(s.drop_last(), x);
    }
}

/// Receiving packets of `src` in any order, each any number of times, keeps the incoming
/// buffer sorted, made of packets of `src`, and holding the sequence numbers received.
proof fn lemma_accept_all(src: Seq<Packet>, a: u16, ps: Seq<Packet>)
    requires
        follows(src, a),
        forall|i: int| 0 <= i < ps.len() ==> src.contains(#[trigger] ps[i]),
    ensures
        sorted_by_seq(accept_all(Seq::empty(), a, ps)),
        forall|k: int| 0 <= k < accept_all(Seq::empty(), a, ps).len() ==> src.contains(
            #[trigger] accept_all(Seq::empty(), a, ps)[k],
        ),
        seq_numbers(accept_all(Seq::empty(), a, ps)) == seq_numbers(ps),
    decreases ps.len(),
{
    if ps.len() == 0 {
        assert(seq_numbers(Seq::<Packet>::empty()) =~= seq_numbers(ps));
    } else {
        let q = ps.drop_last();
        let p = ps.last();
        assert forall|i: int| 0 <= i < q.len() implies src.contains(#[trigger] q[i]) by {
            assert(q[i] == ps[i]);
        }
        lemma_accept_all(src, a, q);
        let r = accept_all(Seq::empty(), a, q);
        assert(src.contains(ps[ps.len() - 1]));
        let m = choose|m: int| 0 <= m < src.len() && src[m] == p;
        assert(seq_of(src[m]) == a + 1 + m);
        assert(seq_distance(seq_of(p), a) > 0);
        assert(accepted(r, a, p) == buffer_insert(r, p));
        law_buffer_insert(r, p);
        lemma_insert_members(r, p);
        assert(ps =~= q.push(p));
        lemma_seq_numbers_push(q, p);
    }
}

/// A sorted buffer whose sequence numbers lie in `lo .. lo + k` and take every value there
/// holds them in order, one each.
proof fn lemma_consecutive_at(b: Seq<Packet>, lo: int, k: int, j: int)
    requires
        sorted_by_seq(b),
        forall|i: int| 0 <= i < b.len() ==> lo <= #[trigger] seq_of(b[i]) < lo + k,
        forall|v: u16| lo <= v < lo + k ==> #[trigger] seq_numbers(b).contains(v),
        0 <= lo,
        lo + k <= 65536,
        0 <= j < b.len(),
    ensures
        seq_of(b[j]) == lo + j,
        j < k,
    decreases j,
{
    if j > 0 {
        lemma_consecutive_at(b, lo, k, j - 1);
        assert(seq_of(b[j - 1]) < seq_of(b[j]));
    }
    let v = (lo + j) as u16;
    if lo + j < lo + k {
        assert(seq_numbers(b).contains(v));
        let i = choose|i: int| 0 <= i < b.len() && seq_of(#[trigger] b[i]) == v;
        if i < j {
            if j > 0 {
                if i < j - 1 {
                    assert(seq_of(b[i]) < seq_of(b[j - 1]));
                }
            }
        } else if i > j {
            assert(seq_of(b[j]) < seq_of(b[i]));
        }
    }
}

/// Received in any order and any number of times, the packets of `src` stand in the incoming
/// buffer as `src`.
proof fn lemma_accept_all_src(src: Seq<Packet>, a: u16, ps: Seq<Packet>)
    requires
        follows(src, a),
        forall|i: int| 0 <= i < ps.len() ==> src.contains(#[trigger] ps[i]),
        forall|j: int| 0 <= j < src.len() ==> ps.contains(#[trigger] src[j]),
    ensures
        accept_all(Seq::empty(), a, ps) == src,
{
    lemma_accept_all(src, a, ps);
    let b = accept_all(Seq::empty(), a, ps);
    let lo = a + 1;
    let k = src.len() as int;
    assert forall|i: int| 0 <= i < b.len() implies lo <= #[trigger] seq_of(b[i]) < lo + k by {
        assert(src.contains(b[i]));
        let m = choose|m: int| 0 <= m < src.len() && src[m] == b[i];
        assert(seq_of(src[m]) == a + 1 + m);
    }
    assert forall|v: u16| lo <= v < lo + k implies #[trigger] seq_numbers(b).contains(v) by {
        let j = v - lo;
        assert(seq_of(src[j]) == v);
        assert(ps.contains(src[j]));
        let i = choose|i: int| 0 <= i < ps.len() && ps[i] == src[j];
        assert(seq_numbers(ps).contains(v));
    }
    if k > 0 {
        let v = (lo + k - 1) as u16;
        assert(seq_numbers(b).contains(v));
        let i = choose|i: int| 0 <= i < b.len() && seq_of(#[trigger] b[i]) == v;
        lemma_consecutive_at(b, lo, k, i);
    }
    if b.len() > 0 {
        lemma_consecutive_at(b, lo, k, b.len() - 1);
    }
    assert forall|j: int| 0 <= j < b.len() implies #[trigger] b[j] == src[j] by {
        lemma_consecutive_at(b, lo, k, j);
        assert(src.contains(b[j]));
        let m = choose|m: int| 0 <= m < src.len() && src[m] == b[j];
        assert(seq_of(src[m]) == a + 1 + m);
    }
    assert(b =~= src);
}

/// What a reader has taken out of the buffered packets `src` after `out` was returned, the
/// first `d` packets having left the incoming buffer.
pub open spec fn delivered<A>(src: Seq<Packet>, s: SocketCore<A>, out: Seq<u8>, d: int) -> bool {
    &&& 0 <= d <= src.len()
    &&& s.incoming_buffer@ == src.subrange(d, src.len() as int)
    &&& d < src.len() ==> (s.ack_nr == seq_of(src[d]) || s.ack_nr + 1 == seq_of(src[d]))
    &&& s.pending_data@.len() == 0 ==> out == payloads(src.subrange(0, d))
    &&& s.pending_data@.len() > 0 ==> d < src.len() && out + s.pending_data@ == payloads(
        src.subrange(0, d + 1),
    )
}

proof fn lemma_payloads_step(src: Seq<Packet>, d: int)
    requires
        0 <= d < src.len(),
    ensures
        payloads(src.subrange(0, d + 1)) == payloads(src.subrange(0, d)) + src[d]@.payload,
{
    assert(src.subrange(0, d + 1).drop_last() =~= src.subrange(0, d));
}

/// One flush keeps what was returned and what is buffered in step with `src`.
proof fn lemma_delivery_step<A>(
    src: Seq<Packet>,
    a: u16,
    s: SocketCore<A>,
    t: SocketCore<A>,
    max_len: usize,
    out: Seq<u8>,
    o: Seq<u8>,
    d: int,
) -> (d2: int)
    requires
        follows(src, a),
        delivered(src, s, out, d),
        t.flush_step(s, max_len, o),
    ensures
        delivered(src, t, out + o, d2),
{
    let k = src.len() as int;
    if s.pending_data@.len() > 0 {
        let data = s.pending_data@;
        let n = crate::socket::min_len(data.len(), max_len as nat) as int;
        assert(data.subrange(0, n) + data.subrange(n, data.len() as int) =~= data);
        if n == data.len() {
            lemma_payloads_step(src, d);
            assert(t.incoming_buffer@ =~= src.subrange(d + 1, k));
            assert(out + o =~= out + data);
            if d + 1 < k {
                assert(seq_of(src[d + 1]) == a + 1 + d + 1);
                assert(seq_of(src[d]) == a + 1 + d);
            }
            d + 1
        } else {
            assert((out + o) + t.pending_data@ =~= out + data);
            d
        }
    } else if s.next_in_order() {
        let data = src[d]@.payload;
        assert(s.incoming_buffer@[0] == src[d]);
        let n = crate::socket::min_len(data.len(), max_len as nat) as int;
        lemma_payloads_step(src, d);
        assert(data.subrange(0, n) + data.subrange(n, data.len() as int) =~= data);
        if n == data.len() {
            assert(t.incoming_buffer@ =~= src.subrange(d + 1, k));
            assert(out + o =~= out + data);
            if d + 1 < k {
                assert(seq_of(src[d + 1]) == a + 1 + d + 1);
                assert(seq_of(src[d]) == a + 1 + d);
            }
            d + 1
        } else {
            assert((out + o) + t.pending_data@ =~= out + data);
            d
        }
    } else {
        if d < k {
            assert(s.incoming_buffer@[0] == src[d]);
        }
        assert(out + o =~= out);
        d
    }
}

proof fn lemma_delivery_run<A>(
    src: Seq<Packet>,
    a: u16,
    states: Seq<SocketCore<A>>,
    maxes: Seq<usize>,
    outs: Seq<Seq<u8>>,
    n: int,
) -> (d: int)
    requires
        follows(src, a),
        states.len() == outs.len() + 1,
        maxes.len() == outs.len(),
        0 <= n <= outs.len(),
        delivered(src, states[0], Seq::empty(), 0),
        forall|i: int| 0 <= i < outs.len() ==> #[trigger] states[i + 1].flush_step(states[i], maxes[i], outs[i]),
    ensures
        delivered(src, states[n], joined(outs.subrange(0, n)), d),
    decreases n,
{
    if n == 0 {
        assert(outs.subrange(0, 0) =~= Seq::<Seq<u8>>::empty());
        0
    } else {
        let d0 = lemma_delivery_run(src, a, states, maxes, outs, n - 1);
        assert(outs.subrange(0, n).drop_last() =~= outs.subrange(0, n - 1));
        let i = n - 1;
        assert(states[i + 1].flush_step(states[i], maxes[i], outs[i]));
        lemma_delivery_step(
            src,
            a,
            states[n - 1],
            states[n],
            maxes[n - 1],
            joined(outs.subrange(0, n - 1)),
            outs[n - 1],
            d0,
        )
    }
}

/// Ordered delivery: data packets that follow the last one delivered, `a`, received in any
/// order and any number of times before reading, are read back, through any run of flushes
/// that leaves the incoming buffer and the partially read data empty, as their payloads put
/// together in sequence order, whatever the sizes of the reads.
pub proof fn law_ordered_delivery<A>(
    src: Seq<Packet>,
    received: Seq<Packet>,
    states: Seq<SocketCore<A>>,
    maxes: Seq<usize>,
    outs: Seq<Seq<u8>>,
)
    requires
        states.len() == outs.len() + 1,
        maxes.len() == outs.len(),
        follows(src, states[0].ack_nr),
        forall|i: int| 0 <= i < received.len() ==> src.contains(#[trigger] received[i]),
        forall|j: int| 0 <= j < src.len() ==> received.contains(#[trigger] src[j]),
        states[0].pending_data@.len() == 0,
        states[0].incoming_buffer@ == accept_all(Seq::empty(), states[0].ack_nr, received),
        forall|i: int| 0 <= i < outs.len() ==> #[trigger] states[i + 1].flush_step(states[i], maxes[i], outs[i]),
        states.last().incoming_buffer@.len() == 0,
        states.last().pending_data@.len() == 0,
    ensures
        joined(outs) == payloads(src),
{
    let a = states[0].ack_nr;
    lemma_accept_all_src(src, a, received);
    assert(src.subrange(0, src.len() as int) =~= src);
    assert(src.subrange(0, 0) =~= Seq::<Packet>::empty());
    if src.len() > 0 {
        assert(seq_of(src[0]) == a + 1);
    }
    let n = outs.len() as int;
    let d = lemma_delivery_run(src, a, states, maxes, outs, n);
    assert(outs.subrange(0, n) =~= outs);
    assert(states[n] == states.last());
    if d < src.len() {
        assert(src.subrange(d, src.len() as int).len() > 0);
    }
    assert(src.subrange(0, d) =~= src);
}

/// Whether `src[j]` arrived among the first `i` events.
pub open spec fn arrived(src: Seq<Packet>, events: Seq<Option<Packet>>, i: int, j: int) -> bool {
    exists|t: int| 0 <= t < i && #[trigger] events[t] == Some(src[j])
}

/// Whether a receiving socket is idle: nothing partially read, and the first buffered packet,
/// if any, is not the next one to deliver.
pub open spec fn idle<A>(s: SocketCore<A>) -> bool {
    s.pending_data@.len() == 0 && !s.next_in_order()
}

/// Whether `after` is `before` once the data packet `p` arrived: it is acknowledged where it
/// follows the last acknowledgement, as `handle_packet` does, then kept for delivery, as
/// `accept_packet` does; nothing else that reading depends on changes.
pub open spec fn arrival<A>(before: SocketCore<A>, after: SocketCore<A>, p: Packet) -> bool {
    &&& after.ack_nr == before.acked_by(p@).ack_nr
    &&& after.incoming_buffer@ == accepted(before.incoming_buffer@, before.last_dropped, p)
    &&& after.pending_data@ == before.pending_data@
    &&& after.last_dropped == before.last_dropped
}

/// What holds of a receiving socket after the first `i` events, `d` packets of `src` having
/// been delivered whole and `out` read.
pub open spec fn receiving<A>(
    src: Seq<Packet>,
    a: u16,
    events: Seq<Option<Packet>>,
    i: int,
    s: SocketCore<A>,
    out: Seq<u8>,
    d: int,
) -> bool {
    let buf = s.incoming_buffer@;
    let k = src.len() as int;
    &&& 0 <= d <= k
    &&& s.last_dropped == a + d
    &&& sorted_by_seq(buf)
    &&& forall|x: int| 0 <= x < buf.len() ==> src.contains(#[trigger] buf[x]) && seq_of(buf[x]) >= a + d + 1
    &&& forall|j: int| d <= j < k && #[trigger] arrived(src, events, i, j) ==> buf.contains(src[j])
    &&& s.ack_nr == a + d || (s.ack_nr == a + d + 1 && buf.len() > 0 && buf[0] == src[d])
    &&& s.pending_data@.len() > 0 ==> {
        &&& d < k
        &&& buf.len() > 0
        &&& buf[0] == src[d]
        &&& out + s.pending_data@ == payloads(src.subrange(0, d + 1))
    }
    &&& s.pending_data@.len() == 0 ==> out == payloads(src.subrange(0, d))
}

proof fn lemma_insert_keeps(s: Seq<Packet>, p: Packet, x: Packet)
    requires
        s.contains(x),
    ensures
        buffer_insert(s, p).contains(x),
{
    let i = count_below(s, seq_of(p)) as int;
    let t = buffer_insert(s, p);
    if !(i < s.len() && seq_of(s[i]) == seq_of(p)) {
        lemma_count_below_le(s, seq_of(p));
        let k = choose|k: int| 0 <= k < s.len() && s[k] == x;
        if k < i {
            assert(t[k] == x);
        } else {
            assert(t[k + 1] == x);
        }
    }
}

/// In a receiving socket, a buffered packet at position `x` is `src[j]` for some `j` at least
/// `d`, and the first one is the least.
proof fn lemma_buffer_head<A>(
    src: Seq<Packet>,
    a: u16,
    events: Seq<Option<Packet>>,
    i: int,
    s: SocketCore<A>,
    out: Seq<u8>,
    d: int,
)
    requires
        follows(src, a),
        receiving(src, a, events, i, s, out, d),
        s.incoming_buffer@.len() > 0,
    ensures
        d < src.len(),
        seq_of(s.incoming_buffer@[0]) >= a + d + 1,
        seq_of(s.incoming_buffer@[0]) == a + d + 1 ==> s.incoming_buffer@[0] == src[d],
        s.incoming_buffer@.contains(src[d]) ==> s.incoming_buffer@[0] == src[d],
        forall|x: int| 1 <= x < s.incoming_buffer@.len() ==> seq_of(#[trigger] s.incoming_buffer@[x])
            > a + d + 1,
{
    let buf = s.incoming_buffer@;
    assert(src.contains(buf[0]));
    let j0 = choose|j: int| 0 <= j < src.len() && src[j] == buf[0];
    assert(seq_of(src[j0]) == a + 1 + j0);
    if seq_of(buf[0]) == a + d + 1 {
        assert(j0 == d);
    }
    if buf.contains(src[d]) {
        let x = choose|x: int| 0 <= x < buf.len() && buf[x] == src[d];
        assert(seq_of(src[d]) == a + 1 + d);
        if x > 0 {
            assert(seq_of(buf[0]) < seq_of(buf[x]));
        }
    }
    assert forall|x: int| 1 <= x < buf.len() implies seq_of(#[trigger] buf[x]) > a + d + 1 by {
        assert(seq_of(buf[0]) < seq_of(buf[x]));
    }
}

/// An arrival while idle keeps the socket receiving.
proof fn lemma_arrival_step<A>(
    src: Seq<Packet>,
    a: u16,
    events: Seq<Option<Packet>>,
    i: int,
    s: SocketCore<A>,
    t: SocketCore<A>,
    out: Seq<u8>,
    d: int,
    p: Packet,
)
    requires
        follows(src, a),
        0 <= i < events.len(),
        events[i] == Some(p),
        src.contains(p),
        seq_of(p) >= s.last_dropped,
        receiving(src, a, events, i, s, out, d),
        idle(s),
        arrival(s, t, p),
    ensures
        receiving(src, a, events, i + 1, t, out, d),
{
    let buf = s.incoming_buffer@;
    let k = src.len() as int;
    let j = choose|j: int| 0 <= j < k && src[j] == p;
    assert(seq_of(src[j]) == a + 1 + j);
    assert(j >= d - 1);
    // Idle: the acknowledgement is the last delivered packet, and the next one is not buffered.
    if buf.len() > 0 {
        lemma_buffer_head(src, a, events, i, s, out, d);
    }
    assert(s.ack_nr == a + d);
    assert(d < k ==> !buf.contains(src[d]));
    let nb = t.incoming_buffer@;
    if j == d - 1 {
        assert(seq_distance(seq_of(p), s.ack_nr) == 0);
        assert(seq_distance(seq_of(p), s.last_dropped) == 0);
        assert(nb == buf);
        assert(t.ack_nr == s.ack_nr);
        assert forall|jj: int| d <= jj < k && #[trigger] arrived(src, events, i + 1, jj) implies nb.contains(
            src[jj],
        ) by {
            let tt = choose|tt: int| 0 <= tt < i + 1 && #[trigger] events[tt] == Some(src[jj]);
            if tt == i {
                assert(src[jj] == src[j]);
                assert(seq_of(src[jj]) == a + 1 + jj);
            } else {
                assert(arrived(src, events, i, jj));
            }
        }
    } else {
        assert(seq_distance(seq_of(p), s.last_dropped) > 0);
        assert(nb == buffer_insert(buf, p));
        law_buffer_insert(buf, p);
        lemma_insert_members(buf, p);
        assert forall|x: int| 0 <= x < nb.len() implies src.contains(#[trigger] nb[x]) && seq_of(nb[x])
            >= a + d + 1 by {
            if nb[x] != p {
                assert(buf.contains(nb[x]));
                let y = choose|y: int| 0 <= y < buf.len() && buf[y] == nb[x];
                assert(src.contains(buf[y]));
            }
        }
        // The packet stands in the new buffer.
        assert(nb.contains(p)) by {
            if seq_numbers(buf).contains(seq_of(p)) {
                let y = choose|y: int| 0 <= y < buf.len() && seq_of(#[trigger] buf[y]) == seq_of(p);
                assert(src.contains(buf[y]));
                let jj = choose|jj: int| 0 <= jj < k && src[jj] == buf[y];
                assert(seq_of(src[jj]) == a + 1 + jj);
                assert(buf[y] == p);
            }
        }
        assert forall|jj: int| d <= jj < k && #[trigger] arrived(src, events, i + 1, jj) implies nb.contains(
            src[jj],
        ) by {
            let tt = choose|tt: int| 0 <= tt < i + 1 && #[trigger] events[tt] == Some(src[jj]);
            if tt == i {
                assert(src[jj] == p);
            } else {
                assert(arrived(src, events, i, jj));
                lemma_insert_keeps(buf, p, src[jj]);
            }
        }
        if j == d {
            assert(seq_distance(seq_of(p), s.ack_nr) == 1);
            assert(t.ack_nr == a + d + 1);
            // The packet goes first: every buffered one comes after it.
            lemma_count_below_sorted(buf, seq_of(p));
            if buf.len() > 0 {
                lemma_buffer_head(src, a, events, i, s, out, d);
                assert(seq_of(buf[0]) > seq_of(p));
            }
            assert(count_below(buf, seq_of(p)) == 0);
            assert(nb[0] == p);
        } else {
            assert(seq_distance(seq_of(p), s.ack_nr) != 1);
            assert(t.ack_nr == s.ack_nr);
        }
    }
}

/// A read keeps the socket receiving.
proof fn lemma_read_step<A>(
    src: Seq<Packet>,
    a: u16,
    events: Seq<Option<Packet>>,
    i: int,
    s: SocketCore<A>,
    t: SocketCore<A>,
    max_len: usize,
    out: Seq<u8>,
    o: Seq<u8>,
    d: int,
) -> (d2: int)
    requires
        follows(src, a),
        0 <= i < events.len(),
        events[i] is None,
        receiving(src, a, events, i, s, out, d),
        t.flush_step(s, max_len, o),
    ensures
        receiving(src, a, events, i + 1, t, out + o, d2),
{
    let buf = s.incoming_buffer@;
    let k = src.len() as int;
    assert forall|jj: int| 0 <= jj < k && #[trigger] arrived(src, events, i + 1, jj) implies arrived(
        src,
        events,
        i,
        jj,
    ) by {
        let tt = choose|tt: int| 0 <= tt < i + 1 && #[trigger] events[tt] == Some(src[jj]);
        assert(tt != i);
    }
    let delivers = s.pending_data@.len() > 0 || s.next_in_order();
    if !delivers {
        assert(out + o =~= out);
        assert(t == s);
        assert(t.incoming_buffer@ == buf);
        return d;
    }
    lemma_buffer_head(src, a, events, i, s, out, d);
    if s.pending_data@.len() == 0 {
        // The next packet in order is the first buffered one.
        assert(seq_of(buf[0]) == a + d + 1) by {
            if s.ack_nr == a + d + 1 {
            }
        }
    }
    assert(buf[0] == src[d]);
    let data = if s.pending_data@.len() > 0 {
        s.pending_data@
    } else {
        src[d]@.payload
    };
    let n = crate::socket::min_len(data.len(), max_len as nat) as int;
    assert(data.subrange(0, n) + data.subrange(n, data.len() as int) =~= data);
    lemma_payloads_step(src, d);
    if n == data.len() {
        let nb = t.incoming_buffer@;
        assert(nb == buf.drop_first());
        assert(out + o =~= out + data);
        assert(seq_of(src[d]) == a + 1 + d);
        assert forall|x: int| 0 <= x < nb.len() implies src.contains(#[trigger] nb[x]) && seq_of(nb[x])
            >= a + (d + 1) + 1 by {
            assert(nb[x] == buf[x + 1]);
            assert(src.contains(buf[x + 1]));
            assert(seq_of(buf[x + 1]) > a + d + 1);
        }
        assert forall|jj: int| d + 1 <= jj < k && #[trigger] arrived(src, events, i + 1, jj) implies nb.contains(
            src[jj],
        ) by {
            assert(arrived(src, events, i, jj));
            assert(buf.contains(src[jj]));
            let y = choose|y: int| 0 <= y < buf.len() && buf[y] == src[jj];
            assert(seq_of(src[jj]) == a + 1 + jj);
            assert(y != 0);
            assert(nb[y - 1] == src[jj]);
        }
        if nb.len() > 0 {
            assert(sorted_by_seq(nb)) by {
                assert forall|x: int, y: int| 0 <= x < y < nb.len() implies seq_of(#[trigger] nb[x]) < seq_of(
                    #[trigger] nb[y],
                ) by {
                    assert(nb[x] == buf[x + 1]);
                    assert(nb[y] == buf[y + 1]);
                }
            }
        }
        d + 1
    } else {
        assert((out + o) + t.pending_data@ =~= out + data);
        assert(t.incoming_buffer@ == buf);
        d
    }
}

proof fn lemma_receiving_run<A>(
    src: Seq<Packet>,
    a: u16,
    events: Seq<Option<Packet>>,
    states: Seq<SocketCore<A>>,
    maxes: Seq<usize>,
    outs: Seq<Seq<u8>>,
    n: int,
) -> (d: int)
    requires
        follows(src, a),
        states.len() == events.len() + 1,
        maxes.len() == events.len(),
        outs.len() == events.len(),
        0 <= n <= events.len(),
        receiving(src, a, events, 0, states[0], Seq::empty(), 0),
        forall|i: int| 0 <= i < events.len() ==> (#[trigger] events[i] matches Some(p) ==> {
            &&& src.contains(p)
            &&& seq_of(p) >= states[i].last_dropped
            &&& idle(states[i])
            &&& arrival(states[i], states[i + 1], p)
            &&& outs[i].len() == 0
        }),
        forall|i: int| 0 <= i < events.len() ==> (#[trigger] events[i] is None ==> states[i + 1].flush_step(
            states[i],
            maxes[i],
            outs[i],
        )),
    ensures
        receiving(src, a, events, n, states[n], joined(outs.subrange(0, n)), d),
    decreases n,
{
    if n == 0 {
        assert(outs.subrange(0, 0) =~= Seq::<Seq<u8>>::empty());
        0
    } else {
        let d0 = lemma_receiving_run(src, a, events, states, maxes, outs, n - 1);
        let i = n - 1;
        let before = joined(outs.subrange(0, i));
        assert(outs.subrange(0, n).drop_last() =~= outs.subrange(0, i));
        assert(joined(outs.subrange(0, n)) == before + outs[i]);
        match events[i] {
            Some(p) => {
                lemma_arrival_step(src, a, events, i, states[i], states[i + 1], before, d0, p);
                assert(before + outs[i] =~= before);
                d0
            },
            None => {
                lemma_read_step(src, a, events, i, states[i], states[i + 1], maxes[i], before, outs[i], d0)
            },
        }
    }
}

/// Ordered delivery while receiving: data packets that follow the last one delivered, `a`,
/// arrive in any order and any number of times, each while nothing is ready to read, and
/// none older than the last packet delivered; between arrivals, reads of any sizes take out
/// what is ready. Once every packet has arrived and the incoming buffer and the partially
/// read data are empty, what the reads returned, put together, is the packets' payloads in
/// sequence order.
pub proof fn law_ordered_delivery_while_receiving<A>(
    src: Seq<Packet>,
    events: Seq<Option<Packet>>,
    states: Seq<SocketCore<A>>,
    maxes: Seq<usize>,
    outs: Seq<Seq<u8>>,
)
    requires
        states.len() == events.len() + 1,
        maxes.len() == events.len(),
        outs.len() == events.len(),
        follows(src, states[0].ack_nr),
        states[0].last_dropped == states[0].ack_nr,
        states[0].incoming_buffer@.len() == 0,
        states[0].pending_data@.len() == 0,
        forall|i: int| 0 <= i < events.len() ==> (#[trigger] events[i] matches Some(p) ==> {
            &&& src.contains(p)
            &&& seq_of(p) >= states[i].last_dropped
            &&& idle(states[i])
            &&& arrival(states[i], states[i + 1], p)
            &&& outs[i].len() == 0
        }),
        forall|i: int| 0 <= i < events.len() ==> (#[trigger] events[i] is None ==> states[i + 1].flush_step(
            states[i],
            maxes[i],
            outs[i],
        )),
        forall|j: int| 0 <= j < src.len() ==> #[trigger] arrived(src, events, events.len() as int, j),
        states.last().incoming_buffer@.len() == 0,
        states.last().pending_data@.len() == 0,
    ensures
        joined(outs) == payloads(src),
{
    let a = states[0].ack_nr;
    let n = events.len() as int;
    assert(src.subrange(0, 0) =~= Seq::<Packet>::empty());
    assert(sorted_by_seq(states[0].incoming_buffer@));
    assert forall|j: int| 0 <= j < src.len() && #[trigger] arrived(src, events, 0, j) implies states[0].incoming_buffer@.contains(
        src[j],
    ) by {
    }
    let d = lemma_receiving_run(src, a, events, states, maxes, outs, n);
    assert(outs.subrange(0, n) =~= outs);
    assert(states[n] == states.last());
    if d < src.len() {
        assert(arrived(src, events, n, d));
        assert(states[n].incoming_buffer@.contains(src[d]));
    }
    assert(src.subrange(0, d) =~= src);
}

/// The scan of a selective acknowledgement from position `j` names every unset position `i` at
/// or after `j` whose sequence number lies below `last`.
proof fn lemma_lost_from_contains(bits: Seq<bool>, ack: u16, last: u16, j: int, i: int)
    requires
        0 <= j <= i < bits.len(),
        i < 65536,
        !bits[i],
        ack + 2 + i < last,
    ensures
        sack_lost_from(bits, ack, last, j).contains((ack + 2 + i) as u16),
    decreases i - j,
{
    let v = (ack + 2 + i) as u16;
    let rest = sack_lost_from(bits, ack, last, j + 1);
    if j == i {
        let all = seq![v] + rest;
        assert(all[0] == v);
    } else {
        lemma_lost_from_contains(bits, ack, last, j + 1, i);
        if !bits[j] {
            let w = ack + 2 + (j % 65536);
            assert(w < last);
            let all = seq![w as u16] + rest;
            let k = choose|k: int| 0 <= k < rest.len() && rest[k] == v;
            assert(all[k + 1] == v);
        }
    }
}

/// Every number that the scan from position `j` names lost stands for an unset position at or
/// after `j`, and lies below `last`.
proof fn lemma_lost_from_named(bits: Seq<bool>, ack: u16, last: u16, j: int, v: u16)
    requires
        0 <= j,
        sack_lost_from(bits, ack, last, j).contains(v),
    ensures
        v < last,
    decreases bits.len() - j,
{
    if j < bits.len() {
        if bits[j] {
            lemma_lost_from_named(bits, ack, last, j + 1, v);
        } else {
            let rest = sack_lost_from(bits, ack, last, j + 1);
            let w = ack + 2 + (j % 65536);
            if w < last {
                let all = seq![w as u16] + rest;
                let k = choose|k: int| 0 <= k < all.len() && all[k] == v;
                if k > 0 {
                    assert(rest[k - 1] == v);
                    lemma_lost_from_named(bits, ack, last, j + 1, v);
                }
            }
        }
    }
}

/// Loss recovery across both sides: on the selective acknowledgement that the receiver built of
/// its incoming buffer `s`, both sides taking `ack` as the last acknowledged packet, the sender
/// with the send window `sw` resends exactly `ack + 1`, where the acknowledgement reports three
/// or more packets, and every packet after it that the receiver does not hold, below the last
/// one sent and within the reach of the acknowledgement.
pub proof fn law_sack_resends_exactly_missing(
    sw: Seq<Packet>,
    s: Seq<Packet>,
    ack: u16,
    e: ExtensionModel,
    v: u16,
)
    requires
        e.ty == ExtensionType::SelectiveAck,
        sack_reports(s, ack, s.len() as int, e.data),
        sw.len() > 0,
        sack_resend_ok(sw, e, ack),
    ensures
        sack_resend_list(sw, e, ack).contains(v) <==> {
            ||| ones(e.data) >= 3 && v == ack + 1
            ||| {
                &&& ack + 2 <= v < seq_of(sw.last())
                &&& v < ack + 2 + e.data.len() * 8
                &&& forall|k: int| 0 <= k < s.len() ==> seq_of(#[trigger] s[k]) != v
            }
        },
{
    let bits = bits_of(e.data);
    let last = seq_of(sw.last());
    let first = if ones(e.data) >= 3 {
        seq![(ack + 1) as u16]
    } else {
        Seq::<u16>::empty()
    };
    let rest = sack_lost_from(bits, ack, last, 0);
    let list = sack_resend_list(sw, e, ack);
    assert(list == first + rest);
    lemma_sack_len_bound(s, ack, s.len() as int);
    let missing = ack + 2 <= v < last && v < ack + 2 + e.data.len() * 8 && forall|k: int|
        0 <= k < s.len() ==> seq_of(#[trigger] s[k]) != v;
    if list.contains(v) {
        let k = choose|k: int| 0 <= k < list.len() && list[k] == v;
        if k >= first.len() {
            assert(rest[k - first.len()] == v);
            assert(rest.contains(v));
            lemma_lost_from_named(bits, ack, last, 0, v);
            lemma_sack_lost_from_unset(bits, ack, last, 0, v);
            law_sack_spares_held_packets(s, ack, e.data, last, v);
            let i = choose|i: int| 0 <= i < bits.len() && !bits[i] && v == ack + 2 + (i % 65536);
            assert(i < 65536);
            assert(i % 65536 == i);
        }
    }
    if missing {
        let i = v - ack - 2;
        assert(0 <= i < e.data.len() * 8);
        assert(i < 65536);
        assert(!bits[i]) by {
            if bit_at(e.data, i) {
                assert(sack_marked(s, ack, s.len() as int, i));
                let k = choose|k: int| 0 <= k < s.len() && is_stashed(s, ack, k) && stash_index(s, ack, k) == i;
                assert(seq_of(s[k]) == v);
            }
        }
        lemma_lost_from_contains(bits, ack, last, 0, i);
        assert(rest.contains(v));
        let k = choose|k: int| 0 <= k < rest.len() && rest[k] == v;
        assert(list[first.len() + k] == v);
    }
    if ones(e.data) >= 3 && v == ack + 1 {
        assert(list[0] == v);
    }
}

/// The packets of `src`, which follow `a`, that the sequence numbers `vs` stand for.
pub open spec fn resent_of(src: Seq<Packet>, a: u16, vs: Seq<u16>) -> Seq<Packet> {
    vs.map_values(|v: u16| src[v - a - 1])
}

/// Reliable delivery over a lossy, reordering, duplicating network, across both sides: the
/// sender has sent the packets `src` that follow `a`, the last acknowledged one; the receiver
/// got `held`, any of them in any order and any number of times, the last one among them, and
/// answers with the selective acknowledgement `sack` of its incoming buffer; the sender resends
/// what that acknowledgement names lost, and those packets arrive too. Where the acknowledgement
/// reports three or more packets, or the first packet got through, every packet is then at the
/// receiver: any run of reads that empties its buffer and its partially read data returns the
/// payloads of `src` in order.
pub proof fn law_recovery_round<A>(
    src: Seq<Packet>,
    held: Seq<Packet>,
    sack: Seq<u8>,
    received: Seq<Packet>,
    states: Seq<SocketCore<A>>,
    maxes: Seq<usize>,
    outs: Seq<Seq<u8>>,
)
    requires
        src.len() > 0,
        follows(src, states[0].ack_nr),
        forall|i: int| 0 <= i < held.len() ==> src.contains(#[trigger] held[i]),
        held.contains(src.last()),
        sack_reports(
            accept_all(Seq::empty(), states[0].ack_nr, held),
            states[0].ack_nr,
            accept_all(Seq::empty(), states[0].ack_nr, held).len() as int,
            sack,
        ),
        sack_resend_ok(src, ExtensionModel { ty: ExtensionType::SelectiveAck, data: sack }, states[0].ack_nr),
        ones(sack) >= 3 || held.contains(src[0]),
        received == held + resent_of(
            src,
            states[0].ack_nr,
            sack_resend_list(src, ExtensionModel { ty: ExtensionType::SelectiveAck, data: sack }, states[0].ack_nr),
        ),
        states.len() == outs.len() + 1,
        maxes.len() == outs.len(),
        states[0].pending_data@.len() == 0,
        states[0].incoming_buffer@ == accept_all(Seq::empty(), states[0].ack_nr, received),
        forall|i: int| 0 <= i < outs.len() ==> #[trigger] states[i + 1].flush_step(states[i], maxes[i], outs[i]),
        states.last().incoming_buffer@.len() == 0,
        states.last().pending_data@.len() == 0,
    ensures
        joined(outs) == payloads(src),
{
    let a = states[0].ack_nr;
    let k = src.len() as int;
    let e = ExtensionModel { ty: ExtensionType::SelectiveAck, data: sack };
    let list = sack_resend_list(src, e, a);
    let resent = resent_of(src, a, list);
    let b = accept_all(Seq::empty(), a, held);
    lemma_accept_all(src, a, held);
    assert(src.last() == src[k - 1]);
    // Every packet sent gets through, at first or when resent.
    assert forall|j: int| 0 <= j < k implies received.contains(#[trigger] src[j]) by {
        assert(seq_of(src[j]) == a + 1 + j);
        if held.contains(src[j]) {
            let x = choose|x: int| 0 <= x < held.len() && held[x] == src[j];
            assert(received[x] == src[j]);
        } else {
            let v = seq_of(src[j]);
            // No buffered packet has its number: it would be `src[j]`, which did not arrive.
            assert forall|x: int| 0 <= x < b.len() implies seq_of(#[trigger] b[x]) != v by {
                if seq_of(b[x]) == v {
                    assert(seq_numbers(b).contains(v));
                    assert(seq_numbers(held).contains(v));
                    let y = choose|y: int| 0 <= y < held.len() && seq_of(#[trigger] held[y]) == v;
                    assert(src.contains(held[y]));
                    let m = choose|m: int| 0 <= m < k && src[m] == held[y];
                    assert(seq_of(src[m]) == a + 1 + m);
                    assert(held[y] == src[j]);
                }
            }
            law_sack_resends_exactly_missing(src, b, a, e, v);
            if j > 0 {
                // The last packet lies in the buffer, so the acknowledgement reaches past `v`.
                assert(j < k - 1);
                let xl = choose|x: int| 0 <= x < held.len() && held[x] == src[k - 1];
                assert(seq_of(src[k - 1]) == a + k);
                assert(seq_numbers(held).contains(seq_of(src[k - 1])));
                assert(seq_numbers(b).contains(seq_of(src[k - 1])));
                let z = choose|z: int| 0 <= z < b.len() && seq_of(#[trigger] b[z]) == seq_of(src[k - 1]);
                assert(is_stashed(b, a, z));
                assert(sack_marked(b, a, b.len() as int, k - 2));
                assert(k - 2 < sack.len() * 8);
                assert(seq_of(src.last()) == a + k);
            }
            assert(list.contains(v));
            let m = choose|m: int| 0 <= m < list.len() && list[m] == v;
            assert(resent[m] == src[j]);
            assert(received[held.len() + m] == src[j]);
        }
    }
    // Every packet received is one of those sent.
    assert forall|i: int| 0 <= i < received.len() implies src.contains(#[trigger] received[i]) by {
        if i >= held.len() {
            let m = i - held.len();
            assert(received[i] == resent[m]);
            let v = list[m];
            assert(list.contains(v));
            law_sack_resends_exactly_missing(src, b, a, e, v);
            assert(seq_of(src.last()) == a + k);
            let j = v - a - 1;
            assert(0 <= j < k);
            assert(resent[m] == src[j]);
        } else {
            assert(received[i] == held[i]);
        }
    }
    law_ordered_delivery(src, received, states, maxes, outs);
}

} // verus!
