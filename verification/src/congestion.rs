//! What a socket learns from the acknowledgements it receives: the delay samples of LEDBAT, the
//! round-trip estimate behind the congestion timeout, the congestion window's bounds, and the
//! packets to resend after a loss.
use crate::bit_iterator::{bits_of, count_true, law_ones_are_set_bits, ones};
use crate::packet::{extension_models, packet_len, ExtensionModel, ExtensionType, Extension, Packet, PacketModel};
use crate::socket::{
    seq_of, window_bytes, DelayDifferenceSample, SocketCore, BASE_HISTORY, MAX_BASE_DELAY_AGE,
    MAX_CONGESTION_TIMEOUT, MIN_CONGESTION_TIMEOUT, MIN_CWND, MSS, ALLOWED_INCREASE,
};
use vstd::prelude::*;

verus! {

/// The signed time from `earlier` to `later`, in microseconds.
pub open spec fn delay_between(later: u32, earlier: u32) -> int {
    later - earlier
}

/// Whether a base delay sample taken at `now` opens a new minute of history: there is no history
/// yet, or the last one opened more than `MAX_BASE_DELAY_AGE` ago.
pub open spec fn rollover_due(base: Seq<i64>, last_rollover: u32, now: u32) -> bool {
    base.len() == 0 || delay_between(now, last_rollover) > MAX_BASE_DELAY_AGE
}

/// The base delay history after the sample `d` taken at `now`: a new minute drops the oldest
/// sample of a full history and appends `d`; otherwise `d` replaces the current minute's sample
/// when it is lower.
pub open spec fn base_delays_after(base: Seq<i64>, last_rollover: u32, d: i64, now: u32) -> Seq<i64> {
    if rollover_due(base, last_rollover, now) {
        if base.len() == BASE_HISTORY {
            base.drop_first().push(d)
        } else {
            base.push(d)
        }
    } else if d < base.last() {
        base.update(base.len() - 1, d)
    } else {
        base
    }
}

/// The current delay samples that remain at `now` once those received more than `rtt`
/// microseconds earlier are dropped from the front.
pub open spec fn stale_dropped(s: Seq<DelayDifferenceSample>, now: u32, rtt: int) -> Seq<DelayDifferenceSample>
    decreases s.len(),
{
    if s.len() > 0 && delay_between(now, s[0].received_at) > rtt {
        stale_dropped(s.drop_first(), now, rtt)
    } else {
        s
    }
}

/// The least of a sequence of delays, or 0 for none.
pub open spec fn least_delay(s: Seq<i64>) -> i64
    decreases s.len(),
{
    if s.len() == 0 {
        0
    } else if s.len() == 1 {
        s[0]
    } else {
        let m = least_delay(s.drop_last());
        if s.last() < m {
            s.last()
        } else {
            m
        }
    }
}

/// Integer division rounded toward zero, as the machine divides signed numbers.
pub open spec fn div_toward_zero(a: int, d: int) -> int {
    if a >= 0 {
        a / d
    } else {
        -((-a) / d)
    }
}

/// The absolute value of an integer.
pub open spec fn abs_int(a: int) -> int {
    if a >= 0 {
        a
    } else {
        -a
    }
}

/// The round-trip variance after a sample of `current` milliseconds, with the previous estimate
/// `rtt` and variance `var`.
pub open spec fn next_rtt_variance(rtt: int, var: int, current: int) -> int {
    var + div_toward_zero(abs_int(rtt - current) - var, 4)
}

/// The round-trip estimate after a sample of `current` milliseconds.
pub open spec fn next_rtt(rtt: int, current: int) -> int {
    rtt + div_toward_zero(current - rtt, 8)
}

/// The congestion timeout for a round-trip estimate and variance: the estimate plus four
/// variances, kept between `MIN_CONGESTION_TIMEOUT` and `MAX_CONGESTION_TIMEOUT`.
pub open spec fn timeout_for(rtt: int, var: int) -> int {
    let t = rtt + 4 * var;
    if t < MIN_CONGESTION_TIMEOUT {
        MIN_CONGESTION_TIMEOUT as int
    } else if t > MAX_CONGESTION_TIMEOUT {
        MAX_CONGESTION_TIMEOUT as int
    } else {
        t
    }
}

/// Divides by a positive divisor, rounding toward zero.
fn div_i32_toward_zero(a: i32, d: i32) -> (q: i32)
    requires
        d > 0,
        a > i32::MIN,
    ensures
        q == div_toward_zero(a as int, d as int),
{
    if a >= 0 {
        a / d
    } else {
        let n: i32 = -a;
        -(n / d)
    }
}

impl<A> SocketCore<A> {
    /// Inserts a new sample in the base delay list.
    ///
    /// The base delay list contains at most `BASE_HISTORY` samples, each sample is the minimum
    /// measured over a period of a minute (`MAX_BASE_DELAY_AGE`).
    pub fn update_base_delay(&mut self, base_delay: i64, now: u32)
        requires
            old(self).wf(),
        ensures
            final(self).wf(),
            final(self).base_delays@ == base_delays_after(old(self).base_delays@, old(self).last_rollover, base_delay, now),
            old(self).base_delays@.len() == BASE_HISTORY && now - old(self).last_rollover > MAX_BASE_DELAY_AGE
                ==> final(self).base_delays@ == old(self).base_delays@.subrange(1, BASE_HISTORY as int).push(base_delay),
            final(self).last_rollover == if rollover_due(old(self).base_delays@, old(self).last_rollover, now) {
                now
            } else {
                old(self).last_rollover
            },
            *final(self) == (SocketCore {
                base_delays: final(self).base_delays,
                last_rollover: final(self).last_rollover,
                ..*old(self)
            }),
    {
        let age: i64 = now as i64 - self.last_rollover as i64;
        if self.base_delays.len() == 0 || age > MAX_BASE_DELAY_AGE {
            // Update last rollover
            self.last_rollover = now;

            // Drop the oldest sample, if need be
            if self.base_delays.len() == BASE_HISTORY {
                self.base_delays.pop_front();
            }

            // Insert new sample
            self.base_delays.push_back(base_delay);
            proof {
                assert(self.base_delays@ =~= base_delays_after(old(self).base_delays@, old(self).last_rollover, base_delay, now));
            }
        } else {
            // Replace sample for the current minute if the delay is lower
            let last_idx = self.base_delays.len() - 1;
            if base_delay < self.base_delays[last_idx] {
                self.base_delays.pop_back();
                self.base_delays.push_back(base_delay);
                proof {
                    assert(self.base_delays@ =~= old(self).base_delays@.update(last_idx as int, base_delay));
                }
            }
        }
    }

    /// Inserts a new sample in the current delay list after removing samples older than one RTT,
    /// as specified in RFC6817.
    pub fn update_current_delay(&mut self, v: i64, now: u32)
        requires
            old(self).wf(),
        ensures
            final(self).wf(),
            final(self).current_delays@ == stale_dropped(old(self).current_delays@, now, old(self).rtt * 100).push(
                DelayDifferenceSample { received_at: now, difference: v },
            ),
            *final(self) == (SocketCore { current_delays: final(self).current_delays, ..*old(self) }),
    {
        // Remove samples more than one RTT old
        let rtt: i64 = self.rtt as i64 * 100;
        while self.current_delays.len() > 0 && now as i64 - self.current_delays[0].received_at as i64 > rtt
            invariant
                rtt == old(self).rtt * 100,
                stale_dropped(self.current_delays@, now, rtt as int) == stale_dropped(old(self).current_delays@, now, rtt as int),
                *self == (SocketCore { current_delays: self.current_delays, ..*old(self) }),
            decreases self.current_delays@.len(),
        {
            let ghost before = self.current_delays@;
            self.current_delays.remove(0);
            proof {
                assert(self.current_delays@ =~= before.drop_first());
            }
        }

        // Insert new measurement
        self.current_delays.push(DelayDifferenceSample { received_at: now, difference: v });
    }

    /// Updates the round-trip estimate and its variance with a sample of `current_delay`
    /// milliseconds, and derives the congestion timeout from them.
    pub fn update_congestion_timeout(&mut self, current_delay: i32)
        requires
            old(self).wf(),
            0 <= current_delay <= 4_294_967,
        ensures
            final(self).wf(),
            final(self).rtt_variance == next_rtt_variance(old(self).rtt as int, old(self).rtt_variance as int, current_delay as int),
            final(self).rtt == next_rtt(old(self).rtt as int, current_delay as int),
            final(self).congestion_timeout == timeout_for(final(self).rtt as int, final(self).rtt_variance as int),
            MIN_CONGESTION_TIMEOUT <= final(self).rtt + 4 * final(self).rtt_variance <= MAX_CONGESTION_TIMEOUT
                ==> final(self).congestion_timeout == final(self).rtt + 4 * final(self).rtt_variance,
            *final(self) == (SocketCore {
                rtt: final(self).rtt,
                rtt_variance: final(self).rtt_variance,
                congestion_timeout: final(self).congestion_timeout,
                ..*old(self)
            }),
    {
        let delta: i32 = self.rtt - current_delay;
        let abs_delta: i32 = if delta >= 0 { delta } else { -delta };
        self.rtt_variance = self.rtt_variance + div_i32_toward_zero(abs_delta - self.rtt_variance, 4);
        self.rtt = self.rtt + div_i32_toward_zero(current_delay - self.rtt, 8);
        let t: u64 = (self.rtt + self.rtt_variance * 4) as u64;
        let t: u64 = if t >= MIN_CONGESTION_TIMEOUT { t } else { MIN_CONGESTION_TIMEOUT };
        self.congestion_timeout = if t <= MAX_CONGESTION_TIMEOUT { t } else { MAX_CONGESTION_TIMEOUT };
    }

    /// Calculates the lowest base delay in the current window, 0 when there is none.
    pub fn min_base_delay(&self) -> (m: i64)
        ensures
            m == least_delay(self.base_delays@),
    {
        let n = self.base_delays.len();
        if n == 0 {
            return 0;
        }
        let mut m: i64 = self.base_delays[0];
        let mut i: usize = 1;
        while i < n
            invariant
                n == self.base_delays@.len(),
                1 <= i <= n,
                m == least_delay(self.base_delays@.subrange(0, i as int)),
            decreases n - i,
        {
            proof {
                let s = self.base_delays@.subrange(0, i as int + 1);
                assert(s.drop_last() =~= self.base_delays@.subrange(0, i as int));
            }
            if self.base_delays[i] < m {
                m = self.base_delays[i];
            }
            i = i + 1;
        }
        proof {
            assert(self.base_delays@.subrange(0, n as int) =~= self.base_delays@);
        }
        m
    }
}

/// What an acknowledgement tells of the path: the bytes it acknowledged and the delay of the
/// packet it names.
#[derive(Copy, Clone, Debug)]
pub struct AckSample {
    /// The bytes of every packet that the acknowledgement acknowledged, implicitly or explicitly.
    pub bytes_newly_acked: u32,
    /// The time from the sending of the acknowledged packet to the acknowledgement, in
    /// microseconds.
    pub our_delay: i64,
}

/// The position of the first packet of `s` whose sequence number is `x`, or -1 when none is.
pub open spec fn first_index(s: Seq<Packet>, x: u16) -> int
    decreases s.len(),
{
    if s.len() == 0 {
        -1
    } else if seq_of(s[0]) == x {
        0
    } else {
        let r = first_index(s.drop_first(), x);
        if r < 0 {
            -1
        } else {
            r + 1
        }
    }
}

/// The bytes that the first `n` packets of `s` take on the wire.
pub open spec fn prefix_bytes(s: Seq<Packet>, n: int) -> nat
    decreases n,
{
    if n <= 0 || n > s.len() {
        0
    } else {
        prefix_bytes(s, n - 1) + packet_len(s[n - 1]@)
    }
}

/// The sequence numbers that a selective acknowledgement reports lost, scanning its bits from
/// position `i`: each bit that is unset stands for the packet `ack + 2 + i`, up to the first
/// such number that is not below `last`.
pub open spec fn sack_lost_from(bits: Seq<bool>, ack: u16, last: u16, i: int) -> Seq<u16>
    decreases bits.len() - i,
{
    if i < 0 || i >= bits.len() {
        Seq::empty()
    } else if bits[i] {
        sack_lost_from(bits, ack, last, i + 1)
    } else {
        let v = ack + 2 + (i % 65536);
        if v < last {
            seq![v as u16] + sack_lost_from(bits, ack, last, i + 1)
        } else {
            Seq::empty()
        }
    }
}

/// Whether no sequence number computed while scanning the bits from position `i` overflows.
pub open spec fn sack_scan_ok(bits: Seq<bool>, ack: u16, last: u16, i: int) -> bool
    decreases bits.len() - i,
{
    if i < 0 || i >= bits.len() {
        true
    } else if bits[i] {
        sack_scan_ok(bits, ack, last, i + 1)
    } else {
        let v = ack + 2 + (i % 65536);
        v <= u16::MAX && (v < last ==> sack_scan_ok(bits, ack, last, i + 1))
    }
}

/// The packets to resend on receipt of extension `e` of an acknowledgement of `ack`, with the
/// send window `sw`: a selective acknowledgement that reports three or more packets received
/// past the missing one asks for `ack + 1`, and then for every packet it reports lost that
/// precedes the last one sent. Other extensions ask for nothing.
pub open spec fn sack_resend_list(sw: Seq<Packet>, e: ExtensionModel, ack: u16) -> Seq<u16> {
    if e.ty != ExtensionType::SelectiveAck {
        Seq::empty()
    } else {
        let first = if ones(e.data) >= 3 {
            seq![(ack + 1) as u16]
        } else {
            Seq::empty()
        };
        let rest = if sw.len() > 0 {
            sack_lost_from(bits_of(e.data), ack, seq_of(sw.last()), 0)
        } else {
            Seq::empty()
        };
        first + rest
    }
}

/// Whether an extension `e` of an acknowledgement of `ack` can be scanned without overflow.
pub open spec fn sack_resend_ok(sw: Seq<Packet>, e: ExtensionModel, ack: u16) -> bool {
    e.ty == ExtensionType::SelectiveAck ==> {
        &&& e.data.len() * 8 <= usize::MAX
        &&& ones(e.data) <= u32::MAX
        &&& ones(e.data) >= 3 ==> ack < u16::MAX
        &&& sw.len() > 0 ==> sack_scan_ok(bits_of(e.data), ack, seq_of(sw.last()), 0)
    }
}

/// Whether a packet carries a selective acknowledgement.
pub open spec fn has_sack(p: PacketModel) -> bool {
    exists|i: int| 0 <= i < p.extensions.len() && (#[trigger] p.extensions[i]).ty == ExtensionType::SelectiveAck
}

impl<A> SocketCore<A> {
    /// Counts an acknowledgement of `packet` received at `now`: a repeated one counts as a
    /// duplicate, a new one becomes the last acknowledged and resets the count to one.
    pub fn register_ack(&mut self, packet: &Packet, now: u32)
        requires
            packet@.header.ack_nr == old(self).last_acked ==> old(self).duplicate_ack_count < u32::MAX,
        ensures
            packet@.header.ack_nr == old(self).last_acked ==> *final(self) == (SocketCore {
                duplicate_ack_count: (old(self).duplicate_ack_count + 1) as u32,
                ..*old(self)
            }),
            packet@.header.ack_nr != old(self).last_acked ==> *final(self) == (SocketCore {
                last_acked: packet@.header.ack_nr,
                last_acked_timestamp: now,
                duplicate_ack_count: 1,
                ..*old(self)
            }),
    {
        if packet.ack_nr() == self.last_acked {
            self.duplicate_ack_count = self.duplicate_ack_count + 1;
        } else {
            self.last_acked = packet.ack_nr();
            self.last_acked_timestamp = now;
            self.duplicate_ack_count = 1;
        }
    }

    /// Finds the first packet of the send window with sequence number `seq_nr`.
    fn position_in_send_window(&self, seq_nr: u16) -> (r: Option<usize>)
        ensures
            first_index(self.send_window@, seq_nr) < self.send_window@.len(),
            first_index(self.send_window@, seq_nr) < 0 ==> r is None,
            first_index(self.send_window@, seq_nr) >= 0 ==> (r matches Some(k) && k == first_index(self.send_window@, seq_nr)),
    {
        proof {
            lemma_first_index(self.send_window@, seq_nr);
        }
        let mut i: usize = 0;
        while i < self.send_window.len()
            invariant
                i <= self.send_window@.len(),
                forall|j: int| 0 <= j < i ==> seq_of(#[trigger] self.send_window@[j]) != seq_nr,
            decreases self.send_window@.len() - i,
        {
            if self.send_window[i].seq_nr() == seq_nr {
                proof {
                    lemma_first_index(self.send_window@, seq_nr);
                    let f = first_index(self.send_window@, seq_nr);
                    if 0 <= f < i {
                        assert(seq_of(self.send_window@[f]) != seq_nr);
                    }
                    assert(seq_of(self.send_window@[i as int]) == seq_nr);
                }
                return Some(i);
            }
            i = i + 1;
        }
        None
    }

    /// The sample that an acknowledgement of `packet` received at `now` gives, when it names a
    /// packet of the send window: the bytes of that packet and of every one before it, and its
    /// delay, which joins the base and current delay samples.
    pub fn ack_sample(&mut self, packet: &Packet, now: u32) -> (r: Option<AckSample>)
        requires
            old(self).wf(),
        ensures
            final(self).wf(),
            ({
                let sw = old(self).send_window@;
                let i = first_index(sw, packet@.header.ack_nr);
                let d = delay_between(now, sw[i]@.header.timestamp_microseconds);
                &&& i < 0 ==> r is None && *final(self) == *old(self)
                &&& i >= 0 ==> {
                    &&& r == Some(AckSample { bytes_newly_acked: prefix_bytes(sw, i + 1) as u32, our_delay: d as i64 })
                    &&& final(self).base_delays@ == base_delays_after(old(self).base_delays@, old(self).last_rollover, d as i64, now)
                    &&& final(self).last_rollover == if rollover_due(old(self).base_delays@, old(self).last_rollover, now) {
                        now
                    } else {
                        old(self).last_rollover
                    }
                    &&& final(self).current_delays@ == stale_dropped(old(self).current_delays@, now, old(self).rtt * 100).push(
                        DelayDifferenceSample { received_at: now, difference: d as i64 },
                    )
                    &&& *final(self) == (SocketCore {
                        base_delays: final(self).base_delays,
                        last_rollover: final(self).last_rollover,
                        current_delays: final(self).current_delays,
                        ..*old(self)
                    })
                }
            }),
    {
        let index = match self.position_in_send_window(packet.ack_nr()) {
            None => return None,
            Some(index) => index,
        };
        let ghost sw = self.send_window@;
        // Calculate the sum of the size of every packet implicitly and explicitly acknowledged
        // by the inbound packet (i.e., every packet whose sequence number precedes the inbound
        // packet's acknowledgement number, plus the packet whose sequence number matches)
        let n: usize = self.send_window.len();
        let mut bytes_newly_acked: u32 = 0;
        let mut j: usize = 0;
        while j <= index
            invariant
                n == sw.len(),
                index < n,
                sw == self.send_window@,
                self.wf(),
                j <= index + 1,
                bytes_newly_acked == prefix_bytes(sw, j as int),
            decreases index + 1 - j,
        {
            proof {
                lemma_prefix_window(sw, j as int + 1);
            }
            let len = self.send_window[j].len();
            bytes_newly_acked = bytes_newly_acked + len as u32;
            j = j + 1;
        }

        // Update base and current delay
        let our_delay: i64 = now as i64 - self.send_window[index].timestamp_microseconds() as i64;
        self.update_base_delay(our_delay, now);
        self.update_current_delay(our_delay, now);
        Some(AckSample { bytes_newly_acked, our_delay })
    }

    /// The packets to resend on receipt of the extension `ext` of an acknowledgement of
    /// `ack_nr`, in the order in which to resend them; a loss is detected exactly when there is
    /// one.
    pub fn sack_resends(&self, ext: &Extension, ack_nr: u16) -> (r: Vec<u16>)
        requires
            sack_resend_ok(self.send_window@, ext@, ack_nr),
        ensures
            r@ == sack_resend_list(self.send_window@, ext@, ack_nr),
    {
        let mut out: Vec<u16> = Vec::new();
        if ext.get_type() != ExtensionType::SelectiveAck {
            return out;
        }
        // If three or more packets are acknowledged past the implicit missing one, assume it
        // was lost.
        let counter = ext.iter();
        if counter.count_ones() >= 3 {
            out.push(ack_nr + 1);
        }
        let ghost first = out@;
        let n = self.send_window.len();
        if n == 0 {
            proof {
                assert(out@ =~= sack_resend_list(self.send_window@, ext@, ack_nr));
            }
            return out;
        }
        let last_seq_nr = self.send_window[n - 1].seq_nr();
        let ghost bits = bits_of(ext@.data);
        let ghost total = sack_lost_from(bits, ack_nr, last_seq_nr, 0);
        let mut it = ext.iter();
        let mut idx: usize = 0;
        let mut done = false;
        proof {
            assert(bits.subrange(0, bits.len() as int) =~= bits);
            assert(out@ + total == first + total);
        }
        while !done
            invariant
                !done ==> it.remaining() == bits.subrange(idx as int, bits.len() as int),
                bits == bits_of(ext@.data),
                bits.len() <= usize::MAX,
                idx <= bits.len(),
                !done ==> sack_scan_ok(bits, ack_nr, last_seq_nr, idx as int),
                !done ==> out@ + sack_lost_from(bits, ack_nr, last_seq_nr, idx as int) == first + total,
                done ==> out@ == first + total,
            decreases 2 * (bits.len() - idx) + if done { 0int } else { 1int },
        {
            match it.next() {
                None => {
                    proof {
                        assert(out@ =~= first + total);
                    }
                    done = true;
                },
                Some(received) => {
                    assert(received == bits[idx as int]);
                    if !received {
                        let seq_nr: u16 = ack_nr + 2 + (idx % 65536) as u16;
                        if seq_nr < last_seq_nr {
                            let ghost before = out@;
                            out.push(seq_nr);
                            proof {
                                assert(out@ + sack_lost_from(bits, ack_nr, last_seq_nr, idx as int + 1) =~= before
                                    + sack_lost_from(bits, ack_nr, last_seq_nr, idx as int));
                            }
                        } else {
                            proof {
                                assert(out@ =~= first + total);
                            }
                            done = true;
                        }
                    }
                    if !done {
                        idx = idx + 1;
                        proof {
                            assert(it.remaining() =~= bits.subrange(idx as int, bits.len() as int));
                        }
                    }
                },
            }
        }
        out
    }

    /// Tells whether the packets to resend on receipt of `ext` in an acknowledgement of
    /// `ack_nr` can be gathered without overflow.
    pub fn sack_resends_ok(&self, ext: &Extension, ack_nr: u16) -> (b: bool)
        ensures
            b == sack_resend_ok(self.send_window@, ext@, ack_nr),
    {
        if ext.get_type() != ExtensionType::SelectiveAck {
            return true;
        }
        let n = ext.len();
        if n > usize::MAX / 8 {
            return false;
        }
        let ghost data = ext@.data;
        let ghost bits = bits_of(data);
        // Count the ones, bit by bit
        let mut counter = ext.iter();
        let mut acc: u64 = 0;
        let mut j: usize = 0;
        loop
            invariant
                counter.remaining() == bits.subrange(j as int, bits.len() as int),
                bits == bits_of(ext@.data),
                data == ext@.data,
                bits.len() <= usize::MAX,
                j <= bits.len(),
                acc == count_true(bits.subrange(0, j as int)),
                acc <= j,
            ensures
                acc == count_true(bits),
            decreases bits.len() - j,
        {
            match counter.next() {
                None => {
                    assert(bits.subrange(0, j as int) =~= bits);
                    break;
                },
                Some(b) => {
                    assert(b == bits[j as int]);
                    assert(bits.subrange(0, j as int + 1).drop_last() =~= bits.subrange(0, j as int));
                    if b {
                        acc = acc + 1;
                    }
                    j = j + 1;
                    assert(counter.remaining() =~= bits.subrange(j as int, bits.len() as int));
                },
            }
        }
        proof {
            law_ones_are_set_bits(data);
        }
        if acc > u32::MAX as u64 {
            return false;
        }
        if acc >= 3 && ack_nr == u16::MAX {
            return false;
        }
        let m = self.send_window.len();
        if m == 0 {
            return true;
        }
        let last = self.send_window[m - 1].seq_nr();
        let mut it = ext.iter();
        let mut idx: usize = 0;
        loop
            invariant
                it.remaining() == bits.subrange(idx as int, bits.len() as int),
                bits == bits_of(ext@.data),
                bits.len() <= usize::MAX,
                idx <= bits.len(),
                sack_scan_ok(bits, ack_nr, last, 0) == sack_scan_ok(bits, ack_nr, last, idx as int),
                last == seq_of(self.send_window@.last()),
                acc <= u32::MAX,
                acc == ones(data),
                !(acc >= 3 && ack_nr == u16::MAX),
                m == self.send_window@.len(),
                m > 0,
                data == ext@.data,
                ext@.ty == ExtensionType::SelectiveAck,
                ext@.data.len() * 8 <= usize::MAX,
            decreases bits.len() - idx,
        {
            match it.next() {
                None => {
                    return true;
                },
                Some(received) => {
                    assert(received == bits[idx as int]);
                    if !received {
                        let v: u64 = ack_nr as u64 + 2 + (idx % 65536) as u64;
                        if v > u16::MAX as u64 {
                            return false;
                        }
                        if v >= last as u64 {
                            return true;
                        }
                    }
                    idx = idx + 1;
                    assert(it.remaining() =~= bits.subrange(idx as int, bits.len() as int));
                },
            }
        }
    }

    /// A copy of the first packet of the send window with sequence number `seq_nr`, to resend
    /// it.
    pub fn lost_packet(&self, seq_nr: u16) -> (r: Option<Packet>)
        ensures
            first_index(self.send_window@, seq_nr) < 0 ==> r is None,
            first_index(self.send_window@, seq_nr) >= 0 ==> (r matches Some(p) && p@
                == self.send_window@[first_index(self.send_window@, seq_nr)]@),
    {
        match self.position_in_send_window(seq_nr) {
            None => None,
            Some(position) => {
                let p = self.send_window[position].clone();
                assert(p@ == self.send_window@[position as int]@);
                Some(p)
            },
        }
    }

    /// Whether the acknowledgements just counted tell of a lost packet by themselves: there are
    /// packets in flight and the same packet was acknowledged three times.
    pub fn duplicate_loss(&self) -> (b: bool)
        ensures
            b == (self.send_window@.len() > 0 && self.duplicate_ack_count == 3),
    {
        self.send_window.len() != 0 && self.duplicate_ack_count == 3
    }

    /// Whether three duplicate acknowledgements call for resending the first unacknowledged
    /// packet: there are packets in flight and the acknowledgement carries no selective
    /// acknowledgement, which would have named the lost packets already.
    pub fn fast_resend_due(&self, packet: &Packet) -> (b: bool)
        ensures
            b == (self.send_window@.len() > 0 && self.duplicate_ack_count == 3 && !has_sack(packet@)),
    {
        if self.send_window.len() == 0 || self.duplicate_ack_count != 3 {
            return false;
        }
        let exts = packet.extensions();
        let mut i: usize = 0;
        while i < exts.len()
            invariant
                i <= exts@.len(),
                extension_models(exts@) == packet@.extensions,
                forall|j: int| 0 <= j < i ==> (#[trigger] packet@.extensions[j]).ty != ExtensionType::SelectiveAck,
            decreases exts@.len() - i,
        {
            assert(packet@.extensions[i as int] == exts@[i as int]@);
            if exts[i].get_type() == ExtensionType::SelectiveAck {
                return false;
            }
            i = i + 1;
        }
        true
    }

    /// Forgets the sent packets that the remote peer acknowledged: those up to the first one
    /// whose sequence number is the last acknowledged. Where no packet has that number, which
    /// wrapping sequence numbers allow, none is forgotten.
    pub fn advance_send_window(&mut self)
        requires
            old(self).wf(),
        ensures
            final(self).wf(),
            ({
                let sw = old(self).send_window@;
                let i = first_index(sw, old(self).last_acked);
                &&& i < 0 ==> *final(self) == *old(self)
                &&& i >= 0 ==> final(self).send_window@ == sw.skip(i + 1)
                    && final(self).curr_window == old(self).curr_window - prefix_bytes(sw, i + 1)
            }),
            *final(self) == (SocketCore {
                send_window: final(self).send_window,
                curr_window: final(self).curr_window,
                ..*old(self)
            }),
    {
        let position = match self.position_in_send_window(self.last_acked) {
            None => return,
            Some(position) => position,
        };
        let ghost sw = self.send_window@;
        let n: usize = self.send_window.len();
        let mut j: usize = 0;
        while j <= position
            invariant
                n == sw.len(),
                position < n,
                j <= position + 1,
                self.send_window@ == sw.skip(j as int),
                self.curr_window == window_bytes(sw, j as int),
                *self == (SocketCore {
                    send_window: self.send_window,
                    curr_window: self.curr_window,
                    ..*old(self)
                }),
            decreases position + 1 - j,
        {
            proof {
                assert(sw.skip(j as int)[0] == sw[j as int]);
            }
            let packet = self.send_window.remove(0);
            proof {
                assert(self.send_window@ =~= sw.skip(j as int + 1));
                assert(packet_len(packet@) <= window_bytes(sw, j as int));
            }
            let len = packet.len();
            self.curr_window = self.curr_window - len as u32;
            j = j + 1;
        }
        proof {
            lemma_window_skip(sw, position as int + 1, 0);
            lemma_prefix_window(sw, position as int + 1);
        }
    }

    /// Bounds the congestion window that the LEDBAT controller proposes, `proposed`: at most
    /// `ALLOWED_INCREASE` segments above the bytes in flight, and at least `MIN_CWND` segments.
    pub fn clamp_congestion_window(&mut self, proposed: u32)
        requires
            old(self).curr_window + ALLOWED_INCREASE * MSS <= u32::MAX,
        ensures
            ({
                let max_allowed = old(self).curr_window + ALLOWED_INCREASE * MSS;
                let capped = if proposed <= max_allowed { proposed as int } else { max_allowed };
                final(self).cwnd == if capped >= MIN_CWND * MSS { capped } else { (MIN_CWND * MSS) as int }
            }),
            *final(self) == (SocketCore { cwnd: final(self).cwnd, ..*old(self) }),
    {
        let max_allowed_cwnd = self.curr_window + ALLOWED_INCREASE * MSS;
        let cwnd = if proposed <= max_allowed_cwnd { proposed } else { max_allowed_cwnd };
        self.cwnd = if cwnd >= MIN_CWND * MSS { cwnd } else { MIN_CWND * MSS };
    }

    /// Halves the congestion window after a packet loss, down to `MIN_CWND` segments.
    pub fn halve_congestion_window(&mut self)
        ensures
            final(self).cwnd == if old(self).cwnd / 2 >= MIN_CWND * MSS { (old(self).cwnd / 2) as int } else { (MIN_CWND * MSS) as int },
            *final(self) == (SocketCore { cwnd: final(self).cwnd, ..*old(self) }),
    {
        let half = self.cwnd / 2;
        self.cwnd = if half >= MIN_CWND * MSS { half } else { MIN_CWND * MSS };
    }
}

/// Every `n` with `first_index` characterised: -1 exactly when no packet has sequence number
/// `x`, else the position of the first that has.
proof fn lemma_first_index(s: Seq<Packet>, x: u16)
    ensures
        -1 <= first_index(s, x) < s.len(),
        first_index(s, x) < 0 <==> forall|j: int| 0 <= j < s.len() ==> seq_of(#[trigger] s[j]) != x,
        first_index(s, x) >= 0 ==> seq_of(s[first_index(s, x)]) == x,
        forall|j: int| 0 <= j < first_index(s, x) ==> seq_of(#[trigger] s[j]) != x,
    decreases s.len(),
{
    if s.len() > 0 && seq_of(s[0]) != x {
        let t = s.drop_first();
        lemma_first_index(t, x);
        assert forall|j: int| 0 < j < s.len() implies s[j] == #[trigger] t[j - 1] by {}
        if first_index(t, x) < 0 {
            assert forall|j: int| 0 <= j < s.len() implies seq_of(#[trigger] s[j]) != x by {
                if j > 0 {
                    assert(s[j] == t[j - 1]);
                }
            }
        } else {
            assert forall|j: int| 0 <= j < first_index(s, x) implies seq_of(#[trigger] s[j]) != x by {
                if j > 0 {
                    assert(s[j] == t[j - 1]);
                }
            }
            assert(s[first_index(s, x)] == t[first_index(t, x)]);
        }
    }
}

/// The bytes of the first `n` packets and those of the rest make up the whole window.
proof fn lemma_prefix_window(s: Seq<Packet>, n: int)
    requires
        0 <= n <= s.len(),
    ensures
        prefix_bytes(s, n) + window_bytes(s, n) == window_bytes(s, 0),
    decreases n,
{
    if n > 0 {
        lemma_prefix_window(s, n - 1);
    }
}

/// The window bytes of a suffix are those of the window from the suffix's start.
proof fn lemma_window_skip(s: Seq<Packet>, k: int, i: int)
    requires
        0 <= k <= s.len(),
        0 <= i,
    ensures
        window_bytes(s.skip(k), i) == window_bytes(s, k + i),
    decreases s.len() - k - i,
{
    if k + i < s.len() {
        lemma_window_skip(s, k, i + 1);
        assert(s.skip(k)[i] == s[k + i]);
    }
}

/// Where the handling of the losses that an acknowledgement reveals stands.
pub enum AckPhase {
    /// Reading the extensions, from the one at this index.
    Extensions(usize),
    /// Resending the packets that the extension at the first index names lost, from the one at
    /// the second index of the list.
    Resending(usize, Vec<u16>, usize),
    /// Checking whether three duplicate acknowledgements call for a resend.
    FastResend,
    /// Halving the congestion window where a loss was seen, and advancing the send window.
    Finish,
    /// Nothing is left to do.
    Done,
}

/// The progress of the handling of an acknowledgement's losses: the phase, and whether a loss
/// was seen so far.
pub struct AckProgress {
    pub phase: AckPhase,
    pub loss: bool,
}

/// What the socket asks for after a step of the handling of an acknowledgement's losses.
#[derive(PartialEq, Eq, Debug, Clone, Copy, Structural)]
pub enum AckAction {
    /// Resend the packet with this sequence number, then take the next step.
    Resend(u16),
    /// Take the next step.
    Continue,
    /// A sequence number overflows: the handling cannot go on.
    Overflow,
    /// The handling is done.
    Finished,
}

/// Whether the progress fits the acknowledgement `p`: a list being resent belongs to one of its
/// extensions.
pub open spec fn ack_progress_ok(progress: AckProgress, p: PacketModel) -> bool {
    match progress.phase {
        AckPhase::Resending(e, _, _) => e < p.extensions.len(),
        _ => true,
    }
}

impl<A> SocketCore<A> {
    /// Starts handling the losses that an acknowledgement reveals, once the acknowledgement was
    /// counted: a loss is seen where packets are in flight and the same packet was acknowledged
    /// three times.
    pub fn begin_ack_losses(&self) -> (p: AckProgress)
        ensures
            p.phase == AckPhase::Extensions(0),
            p.loss == (self.send_window@.len() > 0 && self.duplicate_ack_count == 3),
    {
        AckProgress { phase: AckPhase::Extensions(0), loss: self.duplicate_loss() }
    }

    /// Takes one step of the handling of the losses that `packet`, an acknowledgement, reveals:
    /// each selective acknowledgement names the packets to resend, one at a time, and any it
    /// names is a loss; then three duplicate acknowledgements ask for the packet after the one
    /// acknowledged; at last the congestion window is halved where a loss was seen, and the
    /// send window advances.
    pub fn ack_loss_step(&mut self, packet: &Packet, progress: AckProgress) -> (r: (AckProgress, AckAction))
        requires
            old(self).wf(),
            ack_progress_ok(progress, packet@),
        ensures
            final(self).wf(),
            ack_progress_ok(r.0, packet@),
            ({
                let s0 = *old(self);
                let exts = packet@.extensions;
                let ack = packet@.header.ack_nr;
                match progress.phase {
                    AckPhase::Extensions(i) => {
                        &&& *final(self) == s0
                        &&& if i >= exts.len() {
                            r.0.phase == AckPhase::FastResend && r.0.loss == progress.loss && r.1 == AckAction::Continue
                        } else if exts[i as int].ty != ExtensionType::SelectiveAck {
                            r.0.phase == AckPhase::Extensions((i + 1) as usize) && r.0.loss == progress.loss
                                && r.1 == AckAction::Continue
                        } else if !sack_resend_ok(s0.send_window@, exts[i as int], ack) {
                            r.1 == AckAction::Overflow
                        } else {
                            let lost = sack_resend_list(s0.send_window@, exts[i as int], ack);
                            &&& r.0.phase matches AckPhase::Resending(e, l, j) && e == i && l@ == lost && j == 0
                            &&& r.0.loss == (progress.loss || lost.len() > 0)
                            &&& r.1 == AckAction::Continue
                        }
                    },
                    AckPhase::Resending(e, lost, j) => {
                        &&& *final(self) == s0
                        &&& r.0.loss == progress.loss
                        &&& if j < lost@.len() {
                            &&& r.0.phase matches AckPhase::Resending(e2, l2, j2) && e2 == e && l2@ == lost@ && j2 == j + 1
                            &&& r.1 == AckAction::Resend(lost@[j as int])
                        } else {
                            r.0.phase == AckPhase::Extensions((e + 1) as usize) && r.1 == AckAction::Continue
                        }
                    },
                    AckPhase::FastResend => {
                        &&& *final(self) == s0
                        &&& r.0.loss == progress.loss
                        &&& r.0.phase == AckPhase::Finish
                        &&& if !(s0.send_window@.len() > 0 && s0.duplicate_ack_count == 3 && !has_sack(packet@)) {
                            r.1 == AckAction::Continue
                        } else if ack == u16::MAX {
                            r.1 == AckAction::Overflow
                        } else {
                            r.1 == AckAction::Resend((ack + 1) as u16)
                        }
                    },
                    AckPhase::Finish => {
                        let halved = if progress.loss {
                            SocketCore {
                                cwnd: (if s0.cwnd / 2 >= MIN_CWND * MSS { (s0.cwnd / 2) as int } else { (MIN_CWND * MSS) as int }) as u32,
                                ..s0
                            }
                        } else {
                            s0
                        };
                        let sw = halved.send_window@;
                        let k = first_index(sw, halved.last_acked);
                        &&& r.0.phase == AckPhase::Done
                        &&& r.1 == AckAction::Finished
                        &&& k < 0 ==> *final(self) == halved
                        &&& k >= 0 ==> *final(self) == (SocketCore {
                            send_window: final(self).send_window,
                            curr_window: (halved.curr_window - prefix_bytes(sw, k + 1)) as u32,
                            ..halved
                        }) && final(self).send_window@ == sw.skip(k + 1)
                    },
                    AckPhase::Done => {
                        &&& *final(self) == s0
                        &&& r.0.phase == AckPhase::Done
                        &&& r.1 == AckAction::Finished
                    },
                }
            }),
    {
        let loss = progress.loss;
        match progress.phase {
            AckPhase::Extensions(i) => {
                let exts = packet.extensions();
                proof {
                    assert(extension_models(exts@) == packet@.extensions);
                }
                if i >= exts.len() {
                    (AckProgress { phase: AckPhase::FastResend, loss }, AckAction::Continue)
                } else if exts[i].get_type() != ExtensionType::SelectiveAck {
                    (AckProgress { phase: AckPhase::Extensions(i + 1), loss }, AckAction::Continue)
                } else if !self.sack_resends_ok(&exts[i], packet.ack_nr()) {
                    (AckProgress { phase: AckPhase::Extensions(i), loss }, AckAction::Overflow)
                } else {
                    let lost = self.sack_resends(&exts[i], packet.ack_nr());
                    let seen = loss || lost.len() > 0;
                    (AckProgress { phase: AckPhase::Resending(i, lost, 0), loss: seen }, AckAction::Continue)
                }
            },
            AckPhase::Resending(e, lost, j) => {
                if j < lost.len() {
                    let v = lost[j];
                    (AckProgress { phase: AckPhase::Resending(e, lost, j + 1), loss }, AckAction::Resend(v))
                } else {
                    let exts = packet.extensions();
                    let n = exts.len();
                    proof {
                        assert(extension_models(exts@).len() == exts@.len());
                        assert(e < n);
                    }
                    (AckProgress { phase: AckPhase::Extensions(e + 1), loss }, AckAction::Continue)
                }
            },
            AckPhase::FastResend => {
                if !self.fast_resend_due(packet) {
                    (AckProgress { phase: AckPhase::Finish, loss }, AckAction::Continue)
                } else if packet.ack_nr() == u16::MAX {
                    (AckProgress { phase: AckPhase::Finish, loss }, AckAction::Overflow)
                } else {
                    (AckProgress { phase: AckPhase::Finish, loss }, AckAction::Resend(packet.ack_nr() + 1))
                }
            },
            AckPhase::Finish => {
                if loss {
                    self.halve_congestion_window();
                }
                self.advance_send_window();
                (AckProgress { phase: AckPhase::Done, loss }, AckAction::Finished)
            },
            AckPhase::Done => (AckProgress { phase: AckPhase::Done, loss }, AckAction::Finished),
        }
    }
}

} // verus!
