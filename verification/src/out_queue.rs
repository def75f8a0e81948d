//! Queue of outgoing packets, with congestion/receive-window accounting,
//! the smoothed round-trip-time estimator, and the transmit decision.

use vstd::prelude::*;

use crate::clock::{as_micros, as_ms};
use crate::packet::{Packet, PacketType, HEADER_LEN};
use crate::MAX_WINDOW_SIZE;

verus! {

/// An entry counts against the in-flight window once it has been handed to
/// the wire and until cumulative pruning retires it.
pub open spec fn in_flight_entry(e: Entry) -> bool {
    e.last_sent_at is Some && !e.acked
}

/// How many queued entries are in flight.
pub open spec fn in_flight_count(entries: Seq<Entry>) -> int
    decreases entries.len(),
{
    if entries.len() == 0 {
        0
    } else {
        in_flight_count(entries.drop_last()) + if in_flight_entry(entries.last()) {
            1int
        } else {
            0int
        }
    }
}

/// Payload bytes held across all queued entries, sent or not.
pub open spec fn buffered_bytes(entries: Seq<Entry>) -> int
    decreases entries.len(),
{
    if entries.len() == 0 {
        0
    } else {
        buffered_bytes(entries.drop_last()) + entries.last().packet.payload@.len()
    }
}

/// Extending a prefix by one element extends the counts by that element.
proof fn lemma_prefix_step(entries: Seq<Entry>, i: int)
    requires
        0 <= i < entries.len(),
    ensures
        in_flight_count(entries.take(i + 1)) == in_flight_count(entries.take(i)) + if in_flight_entry(entries[i]) {
            1int
        } else {
            0int
        },
        buffered_bytes(entries.take(i + 1)) == buffered_bytes(entries.take(i))
            + entries[i].packet.payload@.len(),
{
    assert(entries.take(i + 1).drop_last() =~= entries.take(i));
    assert(entries.take(i + 1).last() == entries[i]);
}

/// Whether `seq` lies in the acknowledged range `(lower, ack_nr]`, evaluated
/// with 16-bit wraparound: when the range wraps past the top of the sequence
/// space, membership is on either side of the seam.
pub open spec fn ack_covers_from(lower: u16, ack_nr: u16, seq: u16) -> bool {
    if lower < ack_nr {
        lower < seq && seq <= ack_nr
    } else {
        seq > lower || seq <= ack_nr
    }
}

/// The wraparound range membership test, executable form.
pub fn in_ack_range(lower: u16, ack_nr: u16, seq: u16) -> (r: bool)
    ensures
        r == ack_covers_from(lower, ack_nr, seq),
{
    if lower < ack_nr {
        seq > lower && seq <= ack_nr
    } else {
        seq > lower || seq <= ack_nr
    }
}

/// Length of the longest prefix of the queue that `ack_nr` retires. The
/// lower bound of the acknowledged range is pinned at zero — the window
/// floor never slides.
pub open spec fn covered_prefix_len(entries: Seq<Entry>, ack_nr: u16) -> int
    decreases entries.len(),
{
    if entries.len() > 0 && ack_covers_from(0, ack_nr, entries[0].packet.seq_nr) {
        1 + covered_prefix_len(entries.subrange(1, entries.len() as int), ack_nr)
    } else {
        0
    }
}

pub proof fn lemma_covered_prefix_len_bounds(entries: Seq<Entry>, ack_nr: u16)
    ensures
        0 <= covered_prefix_len(entries, ack_nr) <= entries.len(),
    decreases entries.len(),
{
    if entries.len() > 0 && ack_covers_from(0, ack_nr, entries[0].packet.seq_nr) {
        lemma_covered_prefix_len_bounds(entries.subrange(1, entries.len() as int), ack_nr);
    }
}

/// An acknowledgement that does not cover the oldest outstanding entry
/// retires nothing: pruning is purely cumulative.
pub proof fn lemma_uncovered_front_removes_nothing(entries: Seq<Entry>, ack_nr: u16)
    requires
        entries.len() > 0,
        !ack_covers_from(0, ack_nr, entries[0].packet.seq_nr),
    ensures
        covered_prefix_len(entries, ack_nr) == 0,
{
}

/// How many of the first `k` entries had been sent exactly once when they
/// were retired — the only ones the round-trip estimator may learn from.
pub open spec fn once_sent_count(entries: Seq<Entry>, k: int) -> int
    decreases k,
{
    if k <= 0 {
        0
    } else {
        once_sent_count(entries, k - 1) + if entries[k - 1].num_sends == 1 {
            1int
        } else {
            0int
        }
    }
}

/// One update of the round-trip estimator by a clamped sample: the deviation
/// moves a quarter of the way toward the sample's distance from the mean,
/// then the mean an eighth of the way toward the sample.
pub open spec fn rtt_step(rtt: int, var: int, sample: int) -> (int, int) {
    let delta = if rtt >= sample {
        rtt - sample
    } else {
        sample - rtt
    };
    let var2 = if delta >= var {
        var + (delta - var) / 4
    } else {
        var - (var - delta) / 4
    };
    let rtt2 = if rtt >= sample {
        rtt - (rtt - sample) / 8
    } else {
        rtt + (sample - rtt) / 8
    };
    (rtt2, var2)
}

/// The estimator folded over a sequence of samples, oldest first.
pub open spec fn rtt_fold(rtt: int, var: int, samples: Seq<u64>) -> (int, int)
    decreases samples.len(),
{
    if samples.len() == 0 {
        (rtt, var)
    } else {
        let m = rtt_step(rtt, var, samples[0] as int);
        rtt_fold(m.0, m.1, samples.subrange(1, samples.len() as int))
    }
}

proof fn lemma_rtt_fold_push(rtt: int, var: int, samples: Seq<u64>, x: u64)
    ensures
        rtt_fold(rtt, var, samples.push(x)) == rtt_step(
            rtt_fold(rtt, var, samples).0,
            rtt_fold(rtt, var, samples).1,
            x as int,
        ),
    decreases samples.len(),
{
    if samples.len() == 0 {
        let m = rtt_step(rtt, var, x as int);
        assert(samples.push(x).len() == 1);
        assert(samples.push(x)[0] == x);
        assert(samples.push(x).subrange(1, 1) =~= Seq::<u64>::empty());
        assert(rtt_fold(rtt, var, samples.push(x)) == rtt_fold(m.0, m.1, Seq::<u64>::empty()));
        assert(rtt_fold(rtt, var, samples) == (rtt, var));
    } else {
        let tail = samples.subrange(1, samples.len() as int);
        assert(samples.push(x)[0] == samples[0]);
        assert(samples.push(x).subrange(1, samples.len() as int + 1) =~= tail.push(x));
        let m = rtt_step(rtt, var, samples[0] as int);
        lemma_rtt_fold_push(m.0, m.1, tail, x);
        assert(rtt_fold(rtt, var, samples.push(x)) == rtt_fold(m.0, m.1, tail.push(x)));
        assert(rtt_fold(rtt, var, samples) == rtt_fold(m.0, m.1, tail));
    }
}

/// Some queued entry has never been handed to the wire.
pub open spec fn has_unsent(entries: Seq<Entry>) -> bool {
    exists|i: int| 0 <= i < entries.len() && (#[trigger] entries[i]).last_sent_at is None
}

/// `i` is the oldest queued entry never yet sent.
pub open spec fn is_first_unsent(entries: Seq<Entry>, i: int) -> bool {
    &&& 0 <= i < entries.len()
    &&& entries[i].last_sent_at is None
    &&& forall|j: int| 0 <= j < i ==> (#[trigger] entries[j]).last_sent_at is Some
}

/// The acknowledgement number stamped on outgoing packets: the highest
/// locally acknowledged sequence number, or zero before any data arrived.
pub open spec fn ack_to_send(s: State) -> u16 {
    match s.local_ack {
        Some(a) => a,
        None => 0,
    }
}

/// An acknowledgement is owed when the receive side advanced `local_ack`
/// and no send has carried it to the peer yet.
pub open spec fn ack_owed(s: State) -> bool {
    s.local_ack != s.last_ack
}

/// A packet as it looks after the transmit decision stamps it with the
/// current timestamp, delay echo, acknowledgement and advertised window.
pub open spec fn stamped(p: Packet, ts: u32, diff: u32, ack: u16, wnd: u32) -> Packet {
    Packet { timestamp: ts, timestamp_diff: diff, ack_nr: ack, wnd_size: wnd, ..p }
}

/// What the transmit cursor points at: a queued entry, by position, or a
/// synthesized bare acknowledgement that was never enqueued.
pub enum Item {
    Entry(usize),
    State(Packet),
}

/// The transmit cursor: the decision "send this next", decoupled from the
/// commitment `sent`, so a failed datagram send leaves every piece of
/// bookkeeping untouched and the decision reproducible.
pub struct Next {
    pub item: Item,
}

/// An entry cursor is valid while it points at an unsent entry of the
/// queue; a synthesized-acknowledgement cursor carries its packet itself.
pub open spec fn cursor_valid(item: Item, q: OutQueue) -> bool {
    match item {
        Item::Entry(i) => i < q.packets@.len() && q.packets@[i as int].last_sent_at is None,
        Item::State(_) => true,
    }
}

/// Everything `next_at` does, as a relation between the queue before and
/// after, the returned cursor, and the timestamp used for stamping.
pub open spec fn next_post(pre: OutQueue, post: OutQueue, r: Option<Next>, ts: u32) -> bool {
    match r {
        Option::None => {
            &&& !has_unsent(pre.packets@)
            &&& !ack_owed(pre.state)
            &&& post == pre
        },
        Option::Some(n) => match n.item {
            Item::Entry(i) => {
                &&& is_first_unsent(pre.packets@, i as int)
                &&& post.packets@ == pre.packets@.update(
                    i as int,
                    Entry {
                        packet: stamped(
                            pre.packets@[i as int].packet,
                            ts,
                            pre.state.their_delay,
                            ack_to_send(pre.state),
                            pre.state.local_window,
                        ),
                        ..pre.packets@[i as int]
                    },
                )
                &&& post.state == pre.state
                &&& post.rtt == pre.rtt
                &&& post.rtt_variance == pre.rtt_variance
                &&& post.max_window == pre.max_window
            },
            Item::State(p) => {
                &&& !has_unsent(pre.packets@)
                &&& ack_owed(pre.state)
                &&& p.ty == PacketType::State
                &&& p.connection_id == pre.state.connection_id
                &&& p.seq_nr == pre.state.seq_nr
                &&& p.ack_nr == ack_to_send(pre.state)
                &&& p.timestamp == ts
                &&& p.timestamp_diff == pre.state.their_delay
                &&& p.wnd_size == pre.state.local_window
                &&& p.payload@.len() == 0
                &&& post == pre
            },
        },
    }
}

/// Everything `sent` does: the owed acknowledgement is considered carried,
/// and a queued entry gets its send count and timestamp; a synthesized
/// acknowledgement was never enqueued, so it leaves the queue alone.
pub open spec fn sent_post(pre: OutQueue, post: OutQueue, item: Item) -> bool {
    &&& post.state == (State { last_ack: pre.state.local_ack, ..pre.state })
    &&& post.rtt == pre.rtt
    &&& post.rtt_variance == pre.rtt_variance
    &&& post.max_window == pre.max_window
    &&& match item {
        Item::Entry(i) => {
            &&& post.packets@.len() == pre.packets@.len()
            &&& forall|j: int|
                0 <= j < pre.packets@.len() && j != i ==> post.packets@[j] == pre.packets@[j]
            &&& post.packets@[i as int].packet == pre.packets@[i as int].packet
            &&& post.packets@[i as int].num_sends == pre.packets@[i as int].num_sends + 1
            &&& post.packets@[i as int].last_sent_at is Some
            &&& post.packets@[i as int].acked == pre.packets@[i as int].acked
        },
        Item::State(_) => post.packets@ == pre.packets@,
    }
}

/// `write` refuses payload when the queue would not accept it: the
/// application must retry after window-advancing feedback.
#[derive(Clone, Copy, Debug, PartialEq, Eq, Structural)]
pub enum WriteError {
    /// No congestion/peer window budget remains right now.
    WouldBlock,
}

/// Bytes `write` may spend: the tighter of our congestion window and the
/// peer's advertisement.
pub open spec fn send_window(q: OutQueue) -> int {
    if q.max_window <= q.state.peer_window {
        q.max_window as int
    } else {
        q.state.peer_window as int
    }
}

/// The payload size of the next fragment `write` cuts: the largest that the
/// maximum payload size, the remaining input and the remaining budget (less
/// the header charge) all allow.
pub open spec fn chunk_len(src_len: int, budget: int) -> int {
    let c = if src_len <= budget - HEADER_LEN {
        src_len
    } else {
        budget - HEADER_LEN
    };
    if c <= MAX_DATA_SIZE as int {
        c
    } else {
        MAX_DATA_SIZE as int
    }
}

/// The payload size of the `t`-th fragment `write` cuts, counted from zero,
/// as the budget and the remaining input stand once the fragments before it
/// are taken.
pub open spec fn chunk_len_at(src_len: int, budget: int, t: int) -> int
    decreases budget,
{
    if budget > HEADER_LEN {
        let c = chunk_len(src_len, budget);
        if c <= 0 {
            0
        } else if t <= 0 {
            c
        } else {
            chunk_len_at(src_len - c, budget - c - HEADER_LEN, t - 1)
        }
    } else {
        0
    }
}

/// How many input bytes `write` consumes and how many packets it cuts them
/// into, given the input length and the window budget.
pub open spec fn write_result(src_len: int, budget: int) -> (int, int)
    decreases budget,
{
    if budget > HEADER_LEN {
        let c = chunk_len(src_len, budget);
        if c <= 0 {
            (0, 0)
        } else {
            let rest = write_result(src_len - c, budget - c - HEADER_LEN);
            (c + rest.0, 1 + rest.1)
        }
    } else {
        (0, 0)
    }
}

pub proof fn lemma_write_result_bounds(src_len: int, budget: int)
    requires
        src_len >= 0,
    ensures
        0 <= write_result(src_len, budget).0 <= src_len,
        0 <= write_result(src_len, budget).1,
    decreases budget,
{
    if budget > HEADER_LEN {
        let c = chunk_len(src_len, budget);
        if c > 0 {
            lemma_write_result_bounds(src_len - c, budget - c - HEADER_LEN);
        }
    }
}

/// Backpressure is never silent starvation: with any budget past the header
/// charge and any input at all, `write` consumes at least one byte. Once
/// window-advancing acknowledgements restore budget, a retried write
/// therefore makes progress.
pub proof fn lemma_write_makes_progress(src_len: int, budget: int)
    requires
        src_len > 0,
        budget > HEADER_LEN,
    ensures
        write_result(src_len, budget).0 > 0,
{
    lemma_write_result_bounds(src_len - chunk_len(src_len, budget), budget - chunk_len(src_len, budget) - HEADER_LEN);
}

/// The payload bytes of all entries from position `from` on, concatenated
/// in queue order.
pub open spec fn payload_bytes(entries: Seq<Entry>, from: int) -> Seq<u8>
    decreases entries.len() - from,
        when from <= entries.len()
{
    if 0 <= from < entries.len() {
        entries[from].packet.payload@ + payload_bytes(entries, from + 1)
    } else {
        Seq::empty()
    }
}

proof fn lemma_payload_bytes_push(entries: Seq<Entry>, e: Entry, from: int)
    requires
        0 <= from <= entries.len(),
    ensures
        payload_bytes(entries.push(e), from) == payload_bytes(entries, from) + e.packet.payload@,
    decreases entries.len() - from,
{
    if from < entries.len() {
        assert(entries.push(e)[from] == entries[from]);
        lemma_payload_bytes_push(entries, e, from + 1);
        assert(payload_bytes(entries.push(e), from) == payload_bytes(entries, from)
            + e.packet.payload@) by {
            assert(entries[from].packet.payload@ + (payload_bytes(entries, from + 1)
                + e.packet.payload@) =~= (entries[from].packet.payload@ + payload_bytes(
                entries,
                from + 1,
            )) + e.packet.payload@);
        }
    } else {
        assert(entries.push(e)[from] == e);
        assert(payload_bytes(entries.push(e), from + 1) =~= Seq::<u8>::empty());
        assert(payload_bytes(entries, from) =~= Seq::<u8>::empty());
        assert(payload_bytes(entries.push(e), from) =~= e.packet.payload@);
    }
}

/// The sequence number `k` enqueues after `s`, in the wrapping space.
pub open spec fn seq_plus(s: u16, k: int) -> u16 {
    ((s + k) % 0x10000) as u16
}

/// Stepping the wrapping counter once more lands where one long stride
/// lands: assigned sequence numbers are strictly sequential modulo 2^16,
/// wrapping from 65535 to 0.
pub proof fn lemma_seq_nrs_strictly_sequential(s: u16, k: int)
    requires
        k >= 0,
    ensures
        seq_plus(s, k).wrapping_add(1) == seq_plus(s, k + 1),
        seq_plus(s, 0) == s,
{
    let m = 0x10000int;
    let a = (s + k) % m;
    vstd::arithmetic::div_mod::lemma_mod_division_less_than_divisor(s + k, m);
    vstd::arithmetic::div_mod::lemma_add_mod_noop(s + k, 1, m);
    vstd::arithmetic::div_mod::lemma_small_mod(1nat, m as nat);
    if a + 1 < m {
        vstd::arithmetic::div_mod::lemma_small_mod((a + 1) as nat, m as nat);
    } else {
        vstd::arithmetic::div_mod::lemma_mod_self_0(m);
    }
    vstd::arithmetic::div_mod::lemma_small_mod(s as nat, m as nat);
}

/// One entry `write` appended: never sent, payload-bearing, stamped with
/// the connection id and the `t`-th sequence number past the pre-state's.
pub open spec fn data_entry(e: Entry, pre: OutQueue, t: int) -> bool {
    &&& e.num_sends == 0
    &&& e.last_sent_at is None
    &&& e.acked == false
    &&& e.packet.ty == PacketType::Data
    &&& e.packet.connection_id == pre.state.connection_id
    &&& e.packet.seq_nr == seq_plus(pre.state.seq_nr, t)
    &&& e.packet.ack_nr == 0
    &&& e.packet.timestamp == 0
    &&& e.packet.timestamp_diff == 0
    &&& e.packet.wnd_size == 0
}

/// Everything `write` does, as a relation between the queue before and
/// after, the input bytes, and the outcome.
pub open spec fn write_post(
    pre: OutQueue,
    post: OutQueue,
    src: Seq<u8>,
    r: Result<usize, WriteError>,
) -> bool {
    if src.len() == 0 {
        &&& r == Ok::<usize, WriteError>(0usize)
        &&& post == pre
    } else if send_window(pre) - in_flight_count(pre.packets@) <= HEADER_LEN {
        // The remaining budget cannot carry a non-empty payload past the
        // header charge: backpressure.
        &&& r == Err::<usize, WriteError>(WriteError::WouldBlock)
        &&& post == pre
    } else {
        let budget = send_window(pre) - in_flight_count(pre.packets@);
        let consumed = write_result(src.len() as int, budget).0;
        let count = write_result(src.len() as int, budget).1;
        &&& r == Ok::<usize, WriteError>(consumed as usize)
        &&& consumed >= 1
        &&& post.packets@.len() == pre.packets@.len() + count
        &&& forall|j: int| 0 <= j < pre.packets@.len() ==> post.packets@[j] == pre.packets@[j]
        &&& forall|t: int|
            0 <= t < count ==> #[trigger] data_entry(
                post.packets@[pre.packets@.len() + t],
                pre,
                t,
            )
        &&& forall|t: int|
            0 <= t < count ==> post.packets@[pre.packets@.len() + t].packet.payload@.len()
                == #[trigger] chunk_len_at(src.len() as int, budget, t)
        &&& payload_bytes(post.packets@, pre.packets@.len() as int) == src.take(consumed)
        &&& post.state == (State { seq_nr: seq_plus(pre.state.seq_nr, count), ..pre.state })
        &&& post.rtt == pre.rtt
        &&& post.rtt_variance == pre.rtt_variance
        &&& post.max_window == pre.max_window
    }
}

/// A prefix never buffers more than the whole queue.
proof fn lemma_buffered_take_le(entries: Seq<Entry>, i: int)
    requires
        0 <= i <= entries.len(),
    ensures
        buffered_bytes(entries.take(i)) <= buffered_bytes(entries),
    decreases entries.len(),
{
    if i == entries.len() {
        assert(entries.take(i) =~= entries);
    } else {
        assert(entries.drop_last().take(i) =~= entries.take(i));
        lemma_buffered_take_le(entries.drop_last(), i);
    }
}

/// Largest datagram this implementation emits; also the initial congestion
/// window, so one maximum-sized packet may be in flight at the start.
pub const MAX_PACKET_SIZE: usize = 1_400;

/// Smallest datagram worth emitting.
pub const MIN_PACKET_SIZE: usize = 150;

/// Most payload bytes one packet carries: the largest datagram less its
/// header. `write` cuts its fragments at this size.
pub const MAX_DATA_SIZE: usize = MAX_PACKET_SIZE - HEADER_LEN;

/// Round-trip samples are clamped here (milliseconds) so one pathological
/// stall cannot poison the estimator.
pub const MAX_RTT_SAMPLE_MS: u64 = 30_000;

/// Per-connection scalar state, owned by the queue and mutated only through
/// its methods.
pub struct State {
    /// Identifier stamped into every outgoing packet but the connection
    /// request, which already carries its own.
    pub connection_id: u16,
    /// Sequence number the next enqueued packet is assigned.
    pub seq_nr: u16,
    /// Highest sequence number the receive side has handed us to
    /// acknowledge, if any data arrived yet.
    pub local_ack: Option<u16>,
    /// The value of `local_ack` at the last committed send; a difference
    /// between the two means an acknowledgement is owed.
    pub last_ack: Option<u16>,
    /// Bytes the peer advertises room for.
    pub peer_window: u32,
    /// Bytes our receive side advertises room for.
    pub local_window: u32,
    /// Reference instant for the 32-bit relative microsecond timestamps.
    pub created_at: std::time::Instant,
    /// Wrapping difference between our clock and the peer's last embedded
    /// timestamp, echoed back on every outgoing packet.
    pub their_delay: u32,
}

/// One queued packet together with its send bookkeeping.
pub struct Entry {
    pub packet: Packet,
    /// How many times the packet has been handed to the wire.
    pub num_sends: u32,
    /// When it last was, if ever.
    pub last_sent_at: Option<std::time::Instant>,
    /// Reserved for selective acknowledgement; pruning is cumulative and
    /// never sets it.
    pub acked: bool,
}

/// The outbound queue: ordered packets awaiting acknowledgement, plus the
/// connection scalars and the round-trip estimator that governs how much of
/// it may be in flight.
pub struct OutQueue {
    /// Queued packets, oldest first; enqueue order is sequence-number order.
    pub packets: Vec<Entry>,
    pub state: State,
    /// Smoothed round-trip time, milliseconds.
    pub rtt: u64,
    /// Smoothed absolute deviation of the round-trip samples.
    pub rtt_variance: i64,
    /// Congestion window: bytes we allow ourselves in flight regardless of
    /// the peer's advertisement. This core never grows or shrinks it.
    pub max_window: u32,
}

/// An entry never sent has no send timestamp, and one sent at least once has
/// one; this is what lets the estimator trust `num_sends == 1`.
pub open spec fn wf_entry(e: Entry) -> bool {
    e.num_sends == 0 <==> e.last_sent_at is None
}

impl OutQueue {
    /// Round-trip bookkeeping stays inside the band the sample clamp allows,
    /// which keeps every timeout computation free of overflow.
    pub open spec fn wf_rtt(self) -> bool {
        &&& self.rtt <= MAX_RTT_SAMPLE_MS
        &&& 0 <= self.rtt_variance <= MAX_RTT_SAMPLE_MS
    }

    /// Well-formedness: every entry's bookkeeping is consistent and the
    /// estimator is in range. Constructors establish it, methods keep it.
    pub open spec fn wf(self) -> bool {
        &&& self.wf_rtt()
        &&& forall|i: int| 0 <= i < self.packets@.len() ==> wf_entry(#[trigger] self.packets@[i])
    }

    /// A fresh queue for a connection: empty, peer window wide open, and the
    /// congestion window at a single maximum-sized packet.
    pub fn new(connection_id: u16, seq_nr: u16, local_ack: Option<u16>) -> (q: OutQueue)
        ensures
            q.wf(),
            q.packets@.len() == 0,
            q.state.connection_id == connection_id,
            q.state.seq_nr == seq_nr,
            q.state.local_ack == local_ack,
            q.state.last_ack is None,
            q.state.peer_window == MAX_WINDOW_SIZE as u32,
            q.state.local_window == 0,
            q.state.their_delay == 0,
            q.rtt == 0,
            q.rtt_variance == 0,
            q.max_window == MAX_PACKET_SIZE as u32,
    {
        OutQueue {
            packets: Vec::new(),
            state: State {
                connection_id,
                seq_nr,
                local_ack,
                last_ack: None,
                peer_window: MAX_WINDOW_SIZE as u32,
                local_window: 0,
                created_at: std::time::Instant::now(),
                their_delay: 0,
            },
            rtt: 0,
            rtt_variance: 0,
            max_window: MAX_PACKET_SIZE as u32,
        }
    }

    /// True when everything enqueued has been acknowledged and pruned.
    pub fn is_empty(&self) -> (r: bool)
        ensures
            r == (self.packets@.len() == 0),
    {
        self.packets.len() == 0
    }

    /// Records the receive side's current capacity, to be advertised on
    /// outgoing packets. A value that a 32-bit field cannot carry is a
    /// caller bug.
    pub fn set_local_window(&mut self, val: usize)
        requires
            val <= u32::MAX,
        ensures
            final(self).state == (State { local_window: val as u32, ..old(self).state }),
            final(self).packets@ == old(self).packets@,
            final(self).rtt == old(self).rtt,
            final(self).rtt_variance == old(self).rtt_variance,
            final(self).max_window == old(self).max_window,
    {
        self.state.local_window = val as u32;
    }

    /// Records that data up to `val` is ready to be acknowledged; sending
    /// the acknowledgement is `next`'s business.
    pub fn set_local_ack(&mut self, val: u16)
        ensures
            final(self).state == (State { local_ack: Some(val), ..old(self).state }),
            final(self).packets@ == old(self).packets@,
            final(self).rtt == old(self).rtt,
            final(self).rtt_variance == old(self).rtt_variance,
            final(self).max_window == old(self).max_window,
    {
        self.state.local_ack = Some(val);
    }

    /// Retransmission timeout in milliseconds: the estimator's current guess
    /// with a 500 ms floor, so a fresh or under-sampled connection never
    /// fires aggressively.
    pub fn socket_timeout(&self) -> (r: u64)
        requires
            self.wf_rtt(),
        ensures
            r == if self.rtt + self.rtt_variance > 500 {
                self.rtt + self.rtt_variance
            } else {
                500
            },
            r >= 500,
    {
        let timeout: u64 = self.rtt + (self.rtt_variance as u64);
        if timeout > 500 {
            timeout
        } else {
            500
        }
    }

    /// Entries sent at least once and not yet retired; this is what `write`
    /// charges against the window.
    pub fn in_flight(&self) -> (r: usize)
        ensures
            r == in_flight_count(self.packets@),
    {
        let mut count: usize = 0;
        let mut i: usize = 0;
        while i < self.packets.len()
            invariant
                i <= self.packets@.len(),
                count <= i,
                count == in_flight_count(self.packets@.take(i as int)),
            decreases self.packets@.len() - i,
        {
            let e = &self.packets[i];
            proof {
                lemma_prefix_step(self.packets@, i as int);
            }
            if e.last_sent_at.is_some() && !e.acked {
                count = count + 1;
            }
            i = i + 1;
        }
        proof {
            assert(self.packets@.take(self.packets@.len() as int) =~= self.packets@);
        }
        count
    }

    /// Payload bytes currently queued, whatever their send state.
    pub fn buffered(&self) -> (r: usize)
        requires
            buffered_bytes(self.packets@) <= usize::MAX,
        ensures
            r == buffered_bytes(self.packets@),
    {
        let mut total: usize = 0;
        let mut i: usize = 0;
        while i < self.packets.len()
            invariant
                i <= self.packets@.len(),
                buffered_bytes(self.packets@) <= usize::MAX,
                total == buffered_bytes(self.packets@.take(i as int)),
            decreases self.packets@.len() - i,
        {
            proof {
                lemma_prefix_step(self.packets@, i as int);
                lemma_buffered_take_le(self.packets@, i + 1);
            }
            total = total + self.packets[i].packet.payload.len();
            i = i + 1;
        }
        proof {
            assert(self.packets@.take(self.packets@.len() as int) =~= self.packets@);
        }
        total
    }

    /// Whether the application should be allowed to queue more data.
    pub fn is_writable(&self) -> (r: bool)
        requires
            buffered_bytes(self.packets@) <= usize::MAX,
        ensures
            r == (buffered_bytes(self.packets@) < MAX_WINDOW_SIZE),
    {
        self.buffered() < MAX_WINDOW_SIZE
    }

    /// Enqueues an outbound packet, assigning it the next sequence number
    /// and stamping the connection identifier — except on a connection
    /// request, whose identifier the handshake already chose. A bare
    /// acknowledgement must never come through here; `next` synthesizes
    /// those on its own.
    pub fn push(&mut self, packet: Packet)
        requires
            old(self).wf(),
            packet.ty != PacketType::State,
        ensures
            final(self).wf(),
            final(self).packets@.len() == old(self).packets@.len() + 1,
            forall|i: int|
                0 <= i < old(self).packets@.len() ==> final(self).packets@[i] == old(
                    self,
                ).packets@[i],
            ({
                let e = final(self).packets@.last();
                &&& e.num_sends == 0
                &&& e.last_sent_at is None
                &&& e.acked == false
                &&& e.packet == (Packet {
                    connection_id: if packet.ty == PacketType::Syn {
                        packet.connection_id
                    } else {
                        old(self).state.connection_id
                    },
                    seq_nr: old(self).state.seq_nr,
                    ..packet
                })
            }),
            final(self).state == (State {
                seq_nr: old(self).state.seq_nr.wrapping_add(1),
                ..old(self).state
            }),
            final(self).rtt == old(self).rtt,
            final(self).rtt_variance == old(self).rtt_variance,
            final(self).max_window == old(self).max_window,
    {
        let mut packet = packet;
        if packet.ty() != PacketType::Syn {
            packet.set_connection_id(self.state.connection_id);
        }
        packet.set_seq_nr(self.state.seq_nr);
        self.state.seq_nr = self.state.seq_nr.wrapping_add(1);
        self.packets.push(Entry { packet, num_sends: 0, last_sent_at: None, acked: false });
    }

    /// One round-trip sample, already clamped, folded into the estimator.
    fn apply_rtt_sample(&mut self, sample: u64)
        requires
            old(self).wf_rtt(),
            sample <= MAX_RTT_SAMPLE_MS,
        ensures
            final(self).wf_rtt(),
            (final(self).rtt as int, final(self).rtt_variance as int) == rtt_step(
                old(self).rtt as int,
                old(self).rtt_variance as int,
                sample as int,
            ),
            final(self).packets@ == old(self).packets@,
            final(self).state == old(self).state,
            final(self).max_window == old(self).max_window,
    {
        let delta: u64 = if self.rtt >= sample {
            self.rtt - sample
        } else {
            sample - self.rtt
        };
        let var: u64 = self.rtt_variance as u64;
        if delta >= var {
            self.rtt_variance = self.rtt_variance + (((delta - var) / 4) as i64);
        } else {
            self.rtt_variance = self.rtt_variance - (((var - delta) / 4) as i64);
        }
        if self.rtt >= sample {
            self.rtt = self.rtt - (self.rtt - sample) / 8;
        } else {
            self.rtt = self.rtt + (sample - self.rtt) / 8;
        }
    }

    /// Processes a cumulative acknowledgement: retires, oldest first, every
    /// entry at the front of the queue whose sequence number the
    /// acknowledged range covers, and stops at the first it does not. Each
    /// retired entry that had been sent exactly once contributes its elapsed
    /// time as a round-trip sample; a retransmitted entry contributes
    /// nothing, since the acknowledgement's matching send is ambiguous.
    pub fn set_their_ack(&mut self, ack_nr: u16)
        requires
            old(self).wf(),
        ensures
            final(self).wf(),
            final(self).packets@ == old(self).packets@.subrange(
                covered_prefix_len(old(self).packets@, ack_nr),
                old(self).packets@.len() as int,
            ),
            final(self).state == old(self).state,
            final(self).max_window == old(self).max_window,
            (forall|j: int|
                0 <= j < covered_prefix_len(old(self).packets@, ack_nr)
                    ==> (#[trigger] old(self).packets@[j]).num_sends != 1)
                ==> (final(self).rtt == old(self).rtt
                    && final(self).rtt_variance == old(self).rtt_variance),
            exists|samples: Seq<u64>|
                #![trigger rtt_fold(old(self).rtt as int, old(self).rtt_variance as int, samples)]
                samples.len() == once_sent_count(
                    old(self).packets@,
                    covered_prefix_len(old(self).packets@, ack_nr),
                ) && (forall|i: int| 0 <= i < samples.len() ==> samples[i] <= MAX_RTT_SAMPLE_MS) && (
                final(self).rtt as int,
                final(self).rtt_variance as int,
                ) == rtt_fold(old(self).rtt as int, old(self).rtt_variance as int, samples),
    {
        let now = std::time::Instant::now();
        let ghost orig = *old(self);
        let ghost mut samples: Seq<u64> = Seq::empty();
        let ghost mut k: int = 0;
        proof {
            lemma_covered_prefix_len_bounds(orig.packets@, ack_nr);
            assert(self.packets@ =~= orig.packets@.subrange(0, orig.packets@.len() as int));
        }
        loop
            invariant
                self.wf(),
                0 <= k <= orig.packets@.len(),
                self.packets@ == orig.packets@.subrange(k, orig.packets@.len() as int),
                covered_prefix_len(orig.packets@, ack_nr) == k + covered_prefix_len(
                    self.packets@,
                    ack_nr,
                ),
                self.state == orig.state,
                self.max_window == orig.max_window,
                samples.len() == once_sent_count(orig.packets@, k),
                forall|i: int| 0 <= i < samples.len() ==> samples[i] <= MAX_RTT_SAMPLE_MS,
                (self.rtt as int, self.rtt_variance as int) == rtt_fold(
                    orig.rtt as int,
                    orig.rtt_variance as int,
                    samples,
                ),
                (forall|j: int| 0 <= j < k ==> (#[trigger] orig.packets@[j]).num_sends != 1) ==> (
                self.rtt == orig.rtt && self.rtt_variance == orig.rtt_variance),
            ensures
                covered_prefix_len(self.packets@, ack_nr) == 0,
            decreases self.packets@.len(),
        {
            if self.packets.len() == 0 {
                break ;
            }
            // The acknowledged range's lower bound is fixed at zero: the
            // window floor never slides, so anything numbered in
            // `(0, ack_nr]` — and everything, when `ack_nr` is zero — is
            // eligible.
            if !in_ack_range(0, ack_nr, self.packets[0].packet.seq_nr) {
                break ;
            }
            proof {
                lemma_covered_prefix_len_bounds(
                    self.packets@.subrange(1, self.packets@.len() as int),
                    ack_nr,
                );
            }
            let p = self.packets.remove(0);
            proof {
                assert(orig.packets@.subrange(k, orig.packets@.len() as int).subrange(
                    1,
                    orig.packets@.len() - k,
                ) =~= orig.packets@.subrange(k + 1, orig.packets@.len() as int));
                assert(self.packets@ =~= orig.packets@.subrange(k + 1, orig.packets@.len() as int));
            }
            if p.num_sends == 1 {
                let sent_at = p.last_sent_at.unwrap();
                let d = now.duration_since(sent_at);
                let sample = as_ms(d.as_secs(), d.subsec_nanos());
                proof {
                    lemma_rtt_fold_push(orig.rtt as int, orig.rtt_variance as int, samples, sample);
                }
                self.apply_rtt_sample(sample);
                proof {
                    samples = samples.push(sample);
                }
            }
            proof {
                k = k + 1;
            }
        }
        proof {
            assert(covered_prefix_len(orig.packets@, ack_nr) == k);
        }
    }

    /// The current relative timestamp: microseconds since the queue was
    /// created, modulo 2^32.
    fn timestamp(&self) -> u32 {
        let now = std::time::Instant::now();
        let d = now.duration_since(self.state.created_at);
        as_micros(d.as_secs(), d.subsec_nanos())
    }

    /// Takes application bytes into the queue: cuts as much of `src` as the
    /// current window budget allows into payload-bearing packets, enqueues
    /// them, and returns how many bytes it consumed — possibly fewer than
    /// offered, which is the normal partial-write case. With no budget for
    /// even one packet it signals would-block instead; that is
    /// backpressure, not failure.
    pub fn write(&mut self, src: &[u8]) -> (r: Result<usize, WriteError>)
        requires
            old(self).wf(),
        ensures
            final(self).wf(),
            write_post(*old(self), *final(self), src@, r),
    {
        if src.len() == 0 {
            return Ok(0);
        }
        let cur_window = self.in_flight();
        let max_u32: u32 = if self.max_window <= self.state.peer_window {
            self.max_window
        } else {
            self.state.peer_window
        };
        let max = max_u32 as usize;
        if cur_window >= max {
            return Err(WriteError::WouldBlock);
        }
        // A budget that cannot carry a non-empty payload past the header
        // charge is backpressure too.
        if max - cur_window <= HEADER_LEN {
            return Err(WriteError::WouldBlock);
        }
        let ghost budget0 = (max - cur_window) as int;
        let ghost total = write_result(src@.len() as int, budget0);
        let mut rem: usize = max - cur_window;
        let mut len: usize = 0;
        let ghost mut pushed: int = 0;
        proof {
            lemma_write_result_bounds(src@.len() as int, budget0);
            lemma_write_makes_progress(src@.len() as int, budget0);
            assert(payload_bytes(self.packets@, old(self).packets@.len() as int) =~= Seq::<
                u8,
            >::empty());
            assert(src@.take(0) =~= Seq::<u8>::empty());
            lemma_seq_nrs_strictly_sequential(old(self).state.seq_nr, 0);
        }
        while rem > HEADER_LEN
            invariant
                self.wf(),
                len <= src@.len(),
                0 <= pushed,
                self.packets@.len() == old(self).packets@.len() + pushed,
                forall|j: int|
                    0 <= j < old(self).packets@.len() ==> self.packets@[j] == old(self).packets@[j],
                forall|t: int|
                    0 <= t < pushed ==> #[trigger] data_entry(
                        self.packets@[old(self).packets@.len() + t],
                        *old(self),
                        t,
                    ),
                payload_bytes(self.packets@, old(self).packets@.len() as int) == src@.take(
                    len as int,
                ),
                self.state == (State {
                    seq_nr: seq_plus(old(self).state.seq_nr, pushed),
                    ..old(self).state
                }),
                self.rtt == old(self).rtt,
                self.rtt_variance == old(self).rtt_variance,
                self.max_window == old(self).max_window,
                total == write_result(src@.len() as int, budget0),
                total.0 == len + write_result(src@.len() - len, rem as int).0,
                total.1 == pushed + write_result(src@.len() - len, rem as int).1,
                forall|t: int|
                    0 <= t < pushed ==> self.packets@[old(self).packets@.len()
                        + t].packet.payload@.len() == #[trigger] chunk_len_at(
                        src@.len() as int,
                        budget0,
                        t,
                    ),
                forall|t: int|
                    t >= 0 ==> #[trigger] chunk_len_at(src@.len() - len, rem as int, t)
                        == chunk_len_at(src@.len() as int, budget0, pushed + t),
            ensures
                write_result(src@.len() - len, rem as int) == (0int, 0int),
            decreases rem,
        {
            let ghost sl0 = src@.len() - len;
            let ghost rem0 = rem as int;
            let ghost pushed0 = pushed;
            let remaining = src.len() - len;
            let budget = rem - HEADER_LEN;
            let mut packet_len = remaining;
            if budget < packet_len {
                packet_len = budget;
            }
            if MAX_DATA_SIZE < packet_len {
                packet_len = MAX_DATA_SIZE;
            }
            if packet_len == 0 {
                proof {
                    assert(chunk_len(src@.len() - len, rem as int) == 0);
                }
                break ;
            }
            proof {
                assert(chunk_len(src@.len() - len, rem as int) == packet_len);
            }
            let payload = crate::packet::copy_bytes(src, len, len + packet_len);
            let packet = Packet::data_from(payload);
            let ghost prev = self.packets@;
            self.push(packet);
            proof {
                let e = self.packets@.last();
                assert(self.packets@ =~= prev.push(e));
                lemma_payload_bytes_push(prev, e, old(self).packets@.len() as int);
                assert(src@.take(len as int) + src@.subrange(
                    len as int,
                    len + packet_len,
                ) =~= src@.take(len + packet_len));
                lemma_seq_nrs_strictly_sequential(old(self).state.seq_nr, pushed);
                pushed = pushed + 1;
            }
            len = len + packet_len;
            rem = rem - (packet_len + HEADER_LEN);
            proof {
                let total_len = src@.len() as int;
                let c = packet_len as int;
                assert(chunk_len(sl0, rem0) == c);
                assert(chunk_len_at(sl0, rem0, 0) == c);
                assert(self.packets@[old(self).packets@.len() + pushed0].packet.payload@.len()
                    == chunk_len_at(total_len, budget0, pushed0));
                assert forall|t: int| t >= 0 implies #[trigger] chunk_len_at(
                    src@.len() - len,
                    rem as int,
                    t,
                ) == chunk_len_at(total_len, budget0, pushed + t) by {
                    assert(chunk_len_at(sl0, rem0, t + 1) == chunk_len_at(
                        total_len,
                        budget0,
                        pushed0 + (t + 1),
                    ));
                    assert(chunk_len_at(sl0, rem0, t + 1) == chunk_len_at(
                        sl0 - c,
                        rem0 - c - HEADER_LEN,
                        t,
                    ));
                }
            }
        }
        Ok(len)
    }

    /// The transmit decision against a given stamping timestamp: the oldest
    /// never-sent entry, freshly stamped; failing that, a synthesized bare
    /// acknowledgement if one is owed; failing that, nothing. Nothing here
    /// commits any send bookkeeping — that is the cursor's `sent`.
    pub fn next_at(&mut self, ts: u32) -> (r: Option<Next>)
        requires
            old(self).wf(),
        ensures
            final(self).wf(),
            next_post(*old(self), *final(self), r, ts),
            match r {
                Some(n) => cursor_valid(n.item, *final(self)),
                None => true,
            },
    {
        let diff = self.state.their_delay;
        let ack = match self.state.local_ack {
            Some(a) => a,
            None => 0,
        };
        let wnd = self.state.local_window;
        let n = self.packets.len();
        let mut i: usize = 0;
        while i < n
            invariant
                old(self).wf(),
                i <= n,
                n == self.packets@.len(),
                *self == *old(self),
                diff == old(self).state.their_delay,
                ack == ack_to_send(old(self).state),
                wnd == old(self).state.local_window,
                forall|j: int| 0 <= j < i ==> (#[trigger] self.packets@[j]).last_sent_at is Some,
            decreases n - i,
        {
            if self.packets[i].last_sent_at.is_none() {
                let mut e = self.packets.remove(i);
                e.packet.set_timestamp(ts);
                e.packet.set_timestamp_diff(diff);
                e.packet.set_ack_nr(ack);
                e.packet.set_wnd_size(wnd);
                self.packets.insert(i, e);
                proof {
                    assert(self.packets@ =~= old(self).packets@.update(
                        i as int,
                        Entry {
                            packet: stamped(
                                old(self).packets@[i as int].packet,
                                ts,
                                old(self).state.their_delay,
                                ack_to_send(old(self).state),
                                old(self).state.local_window,
                            ),
                            ..old(self).packets@[i as int]
                        },
                    ));
                }
                return Some(Next { item: Item::Entry(i) });
            }
            i = i + 1;
        }
        let owed = match (self.state.local_ack, self.state.last_ack) {
            (Some(a), Some(b)) => a != b,
            (None, None) => false,
            _ => true,
        };
        if owed {
            let mut packet = Packet::state();
            packet.set_connection_id(self.state.connection_id);
            packet.set_seq_nr(self.state.seq_nr);
            packet.set_timestamp(ts);
            packet.set_timestamp_diff(diff);
            packet.set_ack_nr(ack);
            packet.set_wnd_size(wnd);
            return Some(Next { item: Item::State(packet) });
        }
        None
    }

    /// The transmit decision against the clock's current reading.
    pub fn next(&mut self) -> (r: Option<Next>)
        requires
            old(self).wf(),
        ensures
            final(self).wf(),
            exists|ts: u32| #[trigger] next_post(*old(self), *final(self), r, ts),
            match r {
                Some(n) => cursor_valid(n.item, *final(self)),
                None => true,
            },
    {
        let ts = self.timestamp();
        let r = self.next_at(ts);
        proof {
            assert(next_post(*old(self), *self, r, ts));
        }
        r
    }

    /// Records the peer's one-way-delay sample against a given local
    /// timestamp: the wrapping difference between the two, echoed back to
    /// the peer on every outgoing packet.
    pub fn set_their_delay_at(&mut self, their_timestamp: u32, our_timestamp: u32)
        ensures
            final(self).state == (State {
                their_delay: our_timestamp.wrapping_sub(their_timestamp),
                ..old(self).state
            }),
            final(self).packets@ == old(self).packets@,
            final(self).rtt == old(self).rtt,
            final(self).rtt_variance == old(self).rtt_variance,
            final(self).max_window == old(self).max_window,
    {
        self.state.their_delay = our_timestamp.wrapping_sub(their_timestamp);
    }

    /// Records the peer's one-way-delay sample against the clock's current
    /// reading.
    pub fn set_their_delay(&mut self, their_timestamp: u32)
        ensures
            exists|our: u32|
                final(self).state.their_delay == #[trigger] our.wrapping_sub(their_timestamp),
            final(self).state == (State {
                their_delay: final(self).state.their_delay,
                ..old(self).state
            }),
            final(self).packets@ == old(self).packets@,
            final(self).rtt == old(self).rtt,
            final(self).rtt_variance == old(self).rtt_variance,
            final(self).max_window == old(self).max_window,
    {
        let our_timestamp = self.timestamp();
        self.set_their_delay_at(their_timestamp, our_timestamp);
        proof {
            assert(self.state.their_delay == our_timestamp.wrapping_sub(their_timestamp));
        }
    }
}

impl Next {
    /// The packet this cursor has decided to send, for the driver to put on
    /// the wire.
    pub fn packet<'a>(&'a self, q: &'a OutQueue) -> (r: &'a Packet)
        requires
            cursor_valid(self.item, *q),
        ensures
            match self.item {
                Item::Entry(i) => *r == q.packets@[i as int].packet,
                Item::State(p) => *r == p,
            },
    {
        match &self.item {
            Item::Entry(i) => &q.packets[*i].packet,
            Item::State(p) => p,
        }
    }

    /// Commits the send this cursor stood for, once the datagram has really
    /// been handed to the network layer. If the send failed, simply drop
    /// the cursor instead: nothing has changed, and the next decision will
    /// reproduce it.
    pub fn sent(self, q: &mut OutQueue)
        requires
            old(q).wf(),
            cursor_valid(self.item, *old(q)),
        ensures
            final(q).wf(),
            sent_post(*old(q), *final(q), self.item),
    {
        match self.item {
            Item::Entry(i) => {
                let mut e = q.packets.remove(i);
                e.num_sends = e.num_sends + 1;
                e.last_sent_at = Some(std::time::Instant::now());
                q.packets.insert(i, e);
            },
            Item::State(_) => {},
        }
        q.state.last_ack = q.state.local_ack;
    }
}

/// Successive partial writes neither drop nor duplicate bytes: consuming
/// the first `n` bytes, and then `m` bytes of what remained, is consuming
/// exactly the first `n + m` bytes once each. Together with `write_post`,
/// which says a successful write consumes exactly the next prefix of its
/// input, retried writes reassemble the data.
pub proof fn lemma_partial_writes_cover(data: Seq<u8>, n: int, m: int)
    requires
        0 <= n <= data.len(),
        0 <= m <= data.len() - n,
    ensures
        data.take(n) + data.skip(n).take(m) == data.take(n + m),
{
    assert(data.take(n) + data.skip(n).take(m) =~= data.take(n + m));
}

/// Until a cursor is committed, the transmit decision is stable: a second
/// decision taken after the first, at any timestamp, lands on the same
/// queued entry, or on a synthesized acknowledgement identical but for its
/// timestamp, or again on nothing.
pub proof fn lemma_next_decision_stable(
    pre: OutQueue,
    mid: OutQueue,
    r1: Option<Next>,
    ts1: u32,
    post: OutQueue,
    r2: Option<Next>,
    ts2: u32,
)
    requires
        next_post(pre, mid, r1, ts1),
        next_post(mid, post, r2, ts2),
    ensures
        match (r1, r2) {
            (Option::None, _) => r2 is None,
            (Option::Some(n1), Option::Some(n2)) => match (n1.item, n2.item) {
                (Item::Entry(i1), Item::Entry(i2)) => i1 == i2,
                (Item::State(p1), Item::State(p2)) => {
                    &&& p2.ty == p1.ty
                    &&& p2.connection_id == p1.connection_id
                    &&& p2.seq_nr == p1.seq_nr
                    &&& p2.ack_nr == p1.ack_nr
                    &&& p2.timestamp_diff == p1.timestamp_diff
                    &&& p2.wnd_size == p1.wnd_size
                    &&& p2.payload@ == p1.payload@
                    &&& p2.timestamp == ts2
                },
                _ => false,
            },
            (Option::Some(_), Option::None) => false,
        },
{
    match r1 {
        Option::None => {
            match r2 {
                Option::None => {},
                Option::Some(n2) => {
                    match n2.item {
                        Item::Entry(i2) => {
                            assert(has_unsent(mid.packets@));
                        },
                        Item::State(_) => {},
                    }
                },
            }
        },
        Option::Some(n1) => {
            match n1.item {
                Item::Entry(i1) => {
                    assert(forall|j: int|
                        0 <= j < mid.packets@.len() ==> (#[trigger] mid.packets@[j]).last_sent_at
                            == pre.packets@[j].last_sent_at);
                    assert(mid.packets@[i1 as int].last_sent_at is None);
                    assert(has_unsent(mid.packets@));
                    match r2 {
                        Option::None => {},
                        Option::Some(n2) => {
                            match n2.item {
                                Item::Entry(i2) => {
                                    if i2 < i1 as int {
                                        assert(mid.packets@[i2 as int].last_sent_at is Some);
                                    }
                                    if i1 < i2 as int {
                                        assert(mid.packets@[i1 as int].last_sent_at is Some);
                                    }
                                },
                                Item::State(_) => {},
                            }
                        },
                    }
                },
                Item::State(p1) => {
                    match r2 {
                        Option::None => {},
                        Option::Some(n2) => {
                            match n2.item {
                                Item::Entry(_) => {},
                                Item::State(p2) => {
                                    assert(p2.payload@ =~= p1.payload@);
                                },
                            }
                        },
                    }
                },
            }
        },
    }
}

/// Committing an entry cursor advances the decision: the committed entry
/// and everything before it counts as sent afterwards, so no later
/// decision can land on that entry again.
pub proof fn lemma_sent_advances(pre: OutQueue, post: OutQueue, item: Item, i: usize)
    requires
        sent_post(pre, post, item),
        item == Item::Entry(i),
        is_first_unsent(pre.packets@, i as int),
    ensures
        forall|j: int| 0 <= j <= i ==> (#[trigger] post.packets@[j]).last_sent_at is Some,
        !is_first_unsent(post.packets@, i as int),
{
    assert forall|j: int| 0 <= j <= i implies (#[trigger] post.packets@[j]).last_sent_at
        is Some by {
        if j < i {
            assert(post.packets@[j] == pre.packets@[j]);
        }
    }
}

/// Committing any cursor records the acknowledgement as carried: none is
/// owed immediately afterwards.
pub proof fn lemma_sent_clears_ack_debt(pre: OutQueue, post: OutQueue, item: Item)
    requires
        sent_post(pre, post, item),
    ensures
        !ack_owed(post.state),
{
}

} // verus!
