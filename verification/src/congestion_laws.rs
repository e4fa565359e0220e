//! What the congestion control keeps: the timeout follows the round-trip estimate plus four
//! variances, the window grows with each acknowledged segment while no queue builds up, the base
//! delay history keeps the last minutes only, and delay samples older than two minutes go.
use crate::basic_socket::wrap_sub32;
use crate::congestion::{base_delays_after, least_delay, next_rtt, next_rtt_variance, stale_dropped, timeout_for};
use crate::packet::{PacketModel, PacketType};
use crate::sack_socket::{fresh_samples, least_pair, next_cwnd, SAMPLE_AGE};
use crate::socket::{
    DelayDifferenceSample, Response, SocketCore, SocketState, BASE_HISTORY, MAX_BASE_DELAY_AGE, MAX_CONGESTION_TIMEOUT,
    MIN_CONGESTION_TIMEOUT,
};
use crate::error::SocketError;
use vstd::prelude::*;

verus! {

/// The congestion timeout is the round-trip estimate plus four times its variance, clamped to
/// `MIN_CONGESTION_TIMEOUT ..= MAX_CONGESTION_TIMEOUT`; so it grows with the variance, strictly
/// while it stays within its bounds.
pub proof fn law_timeout_is_rtt_plus_four_variances(rtt: int, var: int)
    ensures
        500 <= rtt + 4 * var <= 60_000 ==> timeout_for(rtt, var) == rtt + 4 * var,
        rtt + 4 * var < 500 ==> timeout_for(rtt, var) == 500,
        rtt + 4 * var > 60_000 ==> timeout_for(rtt, var) == 60_000,
        timeout_for(rtt, var) <= timeout_for(rtt, var + 1),
        500 <= rtt + 4 * var && rtt + 4 * (var + 1) <= 60_000 ==> timeout_for(rtt, var) < timeout_for(
            rtt,
            var + 1,
        ),
{
    assert(MIN_CONGESTION_TIMEOUT == 500 && MAX_CONGESTION_TIMEOUT == 60_000);
}

/// While no queue builds up (the filtered delay equals the base delay), each acknowledgement of
/// `bytes` bytes grows the congestion window by `bytes * MSS / cwnd`, as long as that stays
/// within one segment of the bytes in flight; the window then strictly grows once a whole
/// window's worth of segments is acknowledged.
pub proof fn law_window_grows_without_queuing(cwnd: u64, flight: u64, bytes: u64, delay: u32)
    requires
        cwnd >= 2800,
        bytes * 1400 <= u64::MAX,
        flight + 1400 <= u64::MAX,
        cwnd + bytes * 1400 / (cwnd as int) <= flight + 1400,
    ensures
        next_cwnd(cwnd, flight, bytes, delay, delay) == cwnd + bytes * 1400 / (cwnd as int),
        bytes * 1400 >= cwnd ==> next_cwnd(cwnd, flight, bytes, delay, delay) > cwnd,
{
    assert(wrap_sub32(delay, delay) == 0);
    assert(wrap_sub32(100_000, 0) == 100_000);
    let prod: int = bytes * 1400;
    assert((1 * bytes) % 0x1_0000_0000_0000_0000 == bytes);
    assert(prod % 0x1_0000_0000_0000_0000 == prod);
    let inc: int = prod / (cwnd as int);
    assert(0 <= inc <= prod) by (nonlinear_arith)
        requires
            prod >= 0,
            cwnd >= 2800,
            inc == prod / (cwnd as int),
    ;
    assert((cwnd + inc) % 0x1_0000_0000_0000_0000 == cwnd + inc);
    assert((flight + 1400) % 0x1_0000_0000_0000_0000 == flight + 1400);
    if prod >= cwnd {
        assert(inc >= 1) by (nonlinear_arith)
            requires
                prod >= cwnd,
                cwnd >= 2800,
                inc == prod / (cwnd as int),
        ;
    }
}

/// A new minute of base delay history drops the oldest minute of a full history and appends
/// the new sample, so no more than `BASE_HISTORY` minutes are kept and the oldest goes first;
/// within a minute, the current minute's sample becomes the lower of it and the new one.
pub proof fn law_base_history_keeps_last_minutes(base: Seq<i64>, last_rollover: u32, d: i64, now: u32)
    requires
        base.len() <= BASE_HISTORY,
    ensures
        ({
            let r = base_delays_after(base, last_rollover, d, now);
            let new_minute = base.len() == 0 || now - last_rollover > MAX_BASE_DELAY_AGE;
            &&& r.len() <= BASE_HISTORY
            &&& new_minute && base.len() == BASE_HISTORY ==> r == base.subrange(1, 10).push(d)
            &&& new_minute && base.len() < BASE_HISTORY ==> r == base.push(d)
            &&& !new_minute ==> {
                &&& r.len() == base.len()
                &&& r.subrange(0, r.len() - 1) == base.subrange(0, base.len() - 1)
                &&& r.last() == if d < base.last() { d } else { base.last() }
            }
        }),
{
    let r = base_delays_after(base, last_rollover, d, now);
    assert(BASE_HISTORY == 10 && MAX_BASE_DELAY_AGE == 60_000_000);
    if base.len() > 0 && !(now - last_rollover > MAX_BASE_DELAY_AGE) {
        assert(r.subrange(0, r.len() - 1) =~= base.subrange(0, base.len() - 1));
    }
    if base.len() == BASE_HISTORY {
        assert(base.drop_first() =~= base.subrange(1, 10));
    }
}

/// Whether a delay sample taken at `at` is more than two minutes old at `now`.
pub open spec fn stale(at: u32, now: u32) -> bool {
    (if now >= at { now - at } else { now - at + 0x1_0000_0000 }) > 120_000_000
}

/// Dropping the samples more than two minutes old keeps a suffix of them: every sample dropped
/// is stale, and the first sample kept, if any, is not.
pub proof fn law_stale_samples_dropped(s: Seq<(u32, u32)>, now: u32)
    ensures
        ({
            let r = fresh_samples(s, now);
            let n = s.len() - r.len();
            &&& r.len() <= s.len()
            &&& r == s.subrange(n, s.len() as int)
            &&& forall|i: int| 0 <= i < n ==> stale(#[trigger] s[i].0, now)
            &&& r.len() > 0 ==> !stale(r[0].0, now)
        }),
    decreases s.len(),
{
    assert(SAMPLE_AGE == 120_000_000);
    let r = fresh_samples(s, now);
    if s.len() > 0 && wrap_sub32(now, s[0].0) > SAMPLE_AGE {
        let t = s.drop_first();
        law_stale_samples_dropped(t, now);
        let n = s.len() - r.len();
        assert(r == fresh_samples(t, now));
        assert(t.subrange(t.len() - r.len(), t.len() as int) =~= s.subrange(n, s.len() as int));
        assert forall|i: int| 0 <= i < n implies stale(#[trigger] s[i].0, now) by {
            if i > 0 {
                assert(s[i] == t[i - 1]);
                assert(stale(t[i - 1].0, now));
            }
        }
    } else {
        assert(r =~= s.subrange(0, s.len() as int));
    }
}

/// A FIN from the peer, on an established or closing connection and with the connection's
/// identifier, closes the socket, which answers with a State packet acknowledging the FIN where
/// it follows the last packet received.
pub proof fn law_fin_closes_connection<A>(
    s: SocketCore<A>,
    new: SocketCore<A>,
    p: PacketModel,
    src: A,
    now: u32,
    fresh: u16,
    r: Result<Response, SocketError>,
)
    requires
        s.handles(new, p, src, now, fresh, r),
        s.state == SocketState::Connected || s.state == SocketState::FinSent,
        p.header.ty == PacketType::Fin,
        p.header.connection_id == s.sender_connection_id || p.header.connection_id
            == s.receiver_connection_id,
    ensures
        new.state == SocketState::Closed,
        r matches Ok(Response::Send(q)) && q@.header.ty == PacketType::State,
        p.header.seq_nr == s.ack_nr + 1 ==> (r matches Ok(Response::Send(q)) && q@.header.ack_nr
            == p.header.seq_nr),
{
}

/// The round-trip estimate moves an eighth of the way toward each sample, and its variance a
/// quarter of the way toward the sample's distance from the estimate, both rounded toward the
/// old value: neither overshoots, and a sample equal to the estimate leaves it unchanged.
pub proof fn law_rtt_estimate_moves_toward_samples(rtt: int, var: int, current: int)
    ensures
        ({
            let r = next_rtt(rtt, current);
            let dist = if rtt >= current { rtt - current } else { current - rtt };
            let v = next_rtt_variance(rtt, var, current);
            &&& rtt <= current ==> rtt <= r <= current
            &&& current <= rtt ==> current <= r <= rtt
            &&& -8 < 8 * (r - rtt) - (current - rtt) < 8
            &&& current == rtt ==> r == rtt
            &&& var <= dist ==> var <= v <= dist
            &&& dist <= var ==> dist <= v <= var
            &&& -4 < 4 * (v - var) - (dist - var) < 4
        }),
{
    let d = current - rtt;
    let q8 = if d >= 0 { d / 8 } else { -((-d) / 8) };
    assert(next_rtt(rtt, current) == rtt + q8);
    if d >= 0 {
        assert(0 <= d - 8 * (d / 8) < 8) by (nonlinear_arith)
            requires
                d >= 0,
        ;
    } else {
        assert(0 <= (-d) - 8 * ((-d) / 8) < 8) by (nonlinear_arith)
            requires
                -d > 0,
        ;
    }
    let dist = if rtt >= current { rtt - current } else { current - rtt };
    let e = dist - var;
    let q4 = if e >= 0 { e / 4 } else { -((-e) / 4) };
    assert(next_rtt_variance(rtt, var, current) == var + q4);
    if e >= 0 {
        assert(0 <= e - 4 * (e / 4) < 4) by (nonlinear_arith)
            requires
                e >= 0,
        ;
    } else {
        assert(0 <= (-e) - 4 * ((-e) / 4) < 4) by (nonlinear_arith)
            requires
                -e > 0,
        ;
    }
}

/// The least base delay is a delay of the history and no delay of it is lower.
pub proof fn law_least_delay_is_minimum(s: Seq<i64>)
    requires
        s.len() > 0,
    ensures
        s.contains(least_delay(s)),
        forall|i: int| 0 <= i < s.len() ==> least_delay(s) <= #[trigger] s[i],
    decreases s.len(),
{
    if s.len() > 1 {
        let t = s.drop_last();
        law_least_delay_is_minimum(t);
        assert forall|i: int| 0 <= i < s.len() implies least_delay(s) <= #[trigger] s[i] by {
            if i < s.len() - 1 {
                assert(s[i] == t[i]);
            }
        }
        if s.last() < least_delay(t) {
            assert(s[s.len() - 1] == least_delay(s));
        } else {
            let k = choose|k: int| 0 <= k < t.len() && t[k] == least_delay(t);
            assert(s[k] == least_delay(s));
        }
    } else {
        assert(s[0] == least_delay(s));
    }
}

/// The least delay sample of the selective-acknowledgement socket is one of its samples, and
/// no sample comes before it in the order of time, then of delay.
pub proof fn law_least_pair_is_minimum(s: Seq<(u32, u32)>)
    requires
        s.len() > 0,
    ensures
        s.contains(least_pair(s)),
        forall|i: int| 0 <= i < s.len() ==> {
            let m = least_pair(s);
            m.0 < s[i].0 || (m.0 == s[i].0 && m.1 <= (#[trigger] s[i]).1)
        },
    decreases s.len(),
{
    if s.len() > 1 {
        let t = s.drop_last();
        law_least_pair_is_minimum(t);
        assert forall|i: int| 0 <= i < s.len() implies ({
            let m = least_pair(s);
            m.0 < s[i].0 || (m.0 == s[i].0 && m.1 <= (#[trigger] s[i]).1)
        }) by {
            if i < s.len() - 1 {
                assert(s[i] == t[i]);
            }
        }
        let m = least_pair(s);
        if m == s.last() {
            assert(s[s.len() - 1] == m);
        } else {
            let k = choose|k: int| 0 <= k < t.len() && t[k] == least_pair(t);
            assert(s[k] == m);
        }
    } else {
        assert(s[0] == least_pair(s));
    }
}

/// Dropping the current delay samples older than the round-trip time keeps a suffix of them:
/// every sample dropped was received more than `rtt` microseconds before `now`, and the first
/// sample kept, if any, was not.
pub proof fn law_old_delays_dropped(s: Seq<DelayDifferenceSample>, now: u32, rtt: int)
    ensures
        ({
            let r = stale_dropped(s, now, rtt);
            let n = s.len() - r.len();
            &&& r.len() <= s.len()
            &&& r == s.subrange(n, s.len() as int)
            &&& forall|i: int| 0 <= i < n ==> now - (#[trigger] s[i]).received_at > rtt
            &&& r.len() > 0 ==> now - r[0].received_at <= rtt
        }),
    decreases s.len(),
{
    let r = stale_dropped(s, now, rtt);
    if s.len() > 0 && now - s[0].received_at > rtt {
        let t = s.drop_first();
        law_old_delays_dropped(t, now, rtt);
        let n = s.len() - r.len();
        assert(t.subrange(t.len() - r.len(), t.len() as int) =~= s.subrange(n, s.len() as int));
        assert forall|i: int| 0 <= i < n implies now - (#[trigger] s[i]).received_at > rtt by {
            if i > 0 {
                assert(s[i] == t[i - 1]);
            }
        }
    } else {
        assert(r =~= s.subrange(0, s.len() as int));
    }
}

} // verus!
