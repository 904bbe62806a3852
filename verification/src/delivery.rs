//! What a lane delivers over time: in which order, how late, and that nothing
//! is lost or doubled.
use crate::addr::SocketAddr;
use crate::lane;
use crate::lane::LaneState;
use crate::limiter;
use crate::limiter::RateLimiter;
use crate::packet;
use crate::packet::{
    ClientPacket, PacketJob, Receipt, ScheduledPacket, FIRST_PACKET_ID, NANOS_PER_MS,
};
use crate::queue;
use crate::rounding;
use crate::types::{PacketDirection, ProxySettings};
use vstd::prelude::*;

verus! {

/// What a lane meets: a packet, with all that was drawn for it, or a timer.
pub enum Input {
    Packet { job: PacketJob, admitted: bool, lost: bool, jitter: i64 },
    Timer { now: u128 },
}

/// The lane after an input.
pub open spec fn state_after(state: LaneState, input: Input) -> LaneState {
    match input {
        Input::Packet { job, admitted, lost, jitter } => lane::with_packet(
            state,
            job,
            admitted,
            lost,
            jitter,
        ),
        Input::Timer { now } => lane::without_due(state, now),
    }
}

/// What leaves at an input.
pub open spec fn sent_at(state: LaneState, input: Input) -> Seq<PacketJob> {
    match input {
        Input::Packet { .. } => Seq::empty(),
        Input::Timer { now } => lane::due_jobs(state, now),
    }
}

/// The lane after all inputs.
pub open spec fn final_state(start: LaneState, inputs: Seq<Input>) -> LaneState
    decreases inputs.len(),
{
    if inputs.len() == 0 {
        start
    } else {
        state_after(final_state(start, inputs.drop_last()), inputs.last())
    }
}

/// What has left after all inputs, in order.
pub open spec fn sent(start: LaneState, inputs: Seq<Input>) -> Seq<PacketJob>
    decreases inputs.len(),
{
    if inputs.len() == 0 {
        Seq::empty()
    } else {
        sent(start, inputs.drop_last()) + sent_at(
            final_state(start, inputs.drop_last()),
            inputs.last(),
        )
    }
}

/// The packet of an input, where there is one and it passes.
pub open spec fn passing(input: Input) -> Seq<PacketJob> {
    match input {
        Input::Packet { job, admitted, lost, .. } => if lane::passes(job.settings, admitted, lost) {
            seq![job]
        } else {
            Seq::empty()
        },
        Input::Timer { .. } => Seq::empty(),
    }
}

/// The packets that pass, as they came in.
pub open spec fn arrived(inputs: Seq<Input>) -> Seq<PacketJob>
    decreases inputs.len(),
{
    if inputs.len() == 0 {
        Seq::empty()
    } else {
        arrived(inputs.drop_last()) + passing(inputs.last())
    }
}

/// The jobs of the packets that wait.
pub open spec fn waiting(state: LaneState) -> Seq<PacketJob> {
    state.queue.map_values(|packet: ScheduledPacket| packet.job)
}

/// A lane before its first packet.
pub open spec fn fresh(deadline: u128) -> LaneState {
    LaneState { deadline, queue: Seq::empty() }
}

/// An input that a lane can meet: the jitter is one that may be drawn.
pub open spec fn possible(input: Input) -> bool {
    input matches Input::Packet { job, jitter, .. } ==> {
        &&& job.arrival <= limiter::MAX_NANOS
        &&& lane::is_jitter(job.settings, jitter)
    }
}

/// The shortest time that a packet is held.
pub open spec fn least_delay(settings: ProxySettings) -> nat {
    let least = lane::base_latency(settings) - lane::jitter_bound(settings);
    if least < 0 {
        0
    } else {
        least as nat
    }
}

/// What holds of every lane: the packets wait in order, none later than the
/// latest departure, and none leaves sooner than its settings allow.
pub open spec fn consistent(state: LaneState) -> bool {
    &&& queue::sorted(state.queue)
    &&& forall|i: int|
        0 <= i < state.queue.len() ==> {
            let packet = #[trigger] state.queue[i];
            &&& packet.send_at <= state.deadline
            &&& packet.seq == packet.job.id
            &&& packet.send_at >= packet.job.arrival + least_delay(packet.job.settings)
                * NANOS_PER_MS
        }
}

/// The departure that is computed fits the clock.
proof fn lemma_departure(job: PacketJob, jitter: i64, deadline: u128)
    requires
        job.arrival <= limiter::MAX_NANOS,
        lane::is_jitter(job.settings, jitter),
    ensures
        lane::departure(job, jitter, deadline) <= u128::MAX,
        lane::departure(job, jitter, deadline) >= job.arrival + least_delay(job.settings)
            * NANOS_PER_MS,
{
    let delay = lane::delay_ms(job.settings, jitter);
    let least = least_delay(job.settings);
    assert(least <= delay <= 0x1_0000_0000_0000_0000);
    assert(least * NANOS_PER_MS <= delay * NANOS_PER_MS <= 0x1_0000_0000_0000_0000
        * NANOS_PER_MS) by (nonlinear_arith)
        requires
            least <= delay <= 0x1_0000_0000_0000_0000,
            NANOS_PER_MS == 1_000_000,
    ;
}

/// Every input keeps a lane consistent.
pub proof fn law_lanes_stay_consistent(state: LaneState, input: Input)
    requires
        consistent(state),
        possible(input),
    ensures
        consistent(state_after(state, input)),
        state_after(state, input).deadline >= state.deadline,
{
    match input {
        Input::Packet { job, admitted, lost, jitter } => {
            if lane::passes(job.settings, admitted, lost) {
                let packet = lane::scheduled(job, jitter, state.deadline);
                lemma_departure(job, jitter, state.deadline);
                queue::lemma_insert_sorted(state.queue, packet);
                let p = queue::place_of(state.queue, packet) as int;
                let after = state_after(state, input);
                assert forall|i: int| 0 <= i < after.queue.len() implies {
                    let q = #[trigger] after.queue[i];
                    &&& q.send_at <= after.deadline
                    &&& q.seq == q.job.id
                    &&& q.send_at >= q.job.arrival + least_delay(q.job.settings) * NANOS_PER_MS
                } by {
                    if i < p {
                        assert(after.queue[i] == state.queue[i]);
                    } else if i > p {
                        assert(after.queue[i] == state.queue[i - 1]);
                    } else {
                        assert(after.queue[i] == packet);
                    }
                }
            }
        },
        Input::Timer { now } => {
            let n = queue::due_count(state.queue, now) as int;
            queue::lemma_due_count(state.queue, now);
            let after = state.queue.skip(n);
            assert(forall|i: int| 0 <= i < after.len() ==> #[trigger] after[i] == state.queue[i
                + n]);
        },
    }
}

/// A lane that started empty is consistent, whatever it has met.
pub proof fn law_runs_are_consistent(deadline: u128, inputs: Seq<Input>)
    requires
        forall|i: int| 0 <= i < inputs.len() ==> possible(#[trigger] inputs[i]),
    ensures
        consistent(final_state(fresh(deadline), inputs)),
    decreases inputs.len(),
{
    if inputs.len() > 0 {
        let before = inputs.drop_last();
        assert forall|i: int| 0 <= i < before.len() implies possible(#[trigger] before[i]) by {
            assert(before[i] == inputs[i]);
        }
        law_runs_are_consistent(deadline, before);
        law_lanes_stay_consistent(final_state(fresh(deadline), before), inputs.last());
    }
}

/// No packet leaves before its time: what a timer lets go at `now` came in
/// before, by the shortest delay of its settings at least.
pub proof fn law_no_packet_is_early(state: LaneState, now: u128, i: int)
    requires
        consistent(state),
        0 <= i < lane::due_jobs(state, now).len(),
    ensures
        ({
            let job = lane::due_jobs(state, now)[i];
            job.arrival + least_delay(job.settings) * NANOS_PER_MS <= now
        }),
{
    queue::lemma_due_count(state.queue, now);
    assert(state.queue[i].send_at <= now);
}

/// After a timer no packet waits whose time has come.
pub proof fn law_no_packet_is_kept_back(state: LaneState, now: u128, i: int)
    requires
        consistent(state),
        0 <= i < lane::without_due(state, now).queue.len(),
    ensures
        lane::without_due(state, now).queue[i].send_at > now,
{
    queue::lemma_due_count(state.queue, now);
    let n = queue::due_count(state.queue, now) as int;
    assert(state.queue.skip(n)[i] == state.queue[i + n]);
}

/// Without jitter a packet leaves its latency after it came in, or with the
/// latest packet in front.
pub proof fn law_latency_is_exact(job: PacketJob, jitter: i64, deadline: u128)
    requires
        !lane::reorders(job.settings),
        lane::is_jitter(job.settings, jitter),
        job.settings.latency_ms <= i64::MAX,
    ensures
        ({
            let latency: nat = if job.settings.latency_enabled {
                job.settings.latency_ms as nat
            } else {
                0
            };
            let desired = job.arrival as nat + latency * NANOS_PER_MS as nat;
            lane::departure(job, jitter, deadline) == if desired < deadline {
                deadline as nat
            } else {
                desired
            }
        }),
{
}

/// With jitter a packet leaves as late as its latency says, give or take the
/// jitter, whatever is in front.
pub proof fn law_jitter_is_bounded(job: PacketJob, jitter: i64, deadline: u128)
    requires
        lane::reorders(job.settings),
        lane::is_jitter(job.settings, jitter),
    ensures
        ({
            let base = lane::base_latency(job.settings);
            let bound = lane::jitter_bound(job.settings);
            let held = lane::departure(job, jitter, deadline) - job.arrival;
            &&& held >= 0
            &&& held >= (base - bound) * NANOS_PER_MS
            &&& base + bound >= 0 ==> held <= (base + bound) * NANOS_PER_MS
        }),
{
    let base = lane::base_latency(job.settings);
    let bound = lane::jitter_bound(job.settings);
    let delay = lane::delay_ms(job.settings, jitter);
    assert(delay * NANOS_PER_MS >= (base - bound) * NANOS_PER_MS) by (nonlinear_arith)
        requires
            delay >= base - bound,
            NANOS_PER_MS == 1_000_000,
    ;
    if base + bound >= 0 {
        assert(delay * NANOS_PER_MS <= (base + bound) * NANOS_PER_MS) by (nonlinear_arith)
            requires
                delay <= base + bound,
                NANOS_PER_MS == 1_000_000,
        ;
    }
}

/// A packet beyond the rate is dropped, and so is one that is lost: the lane
/// is as if it had never come. No other packet is.
pub proof fn law_only_limit_and_loss_drop(
    state: LaneState,
    job: PacketJob,
    limiter: RateLimiter,
    now: u128,
    lost: bool,
    jitter: i64,
)
    ensures
        ({
            let settings = job.settings;
            let admitted = lane::within_rate(settings, job.size(), limiter, now);
            let after = lane::with_packet(state, job, admitted, lost, jitter);
            let rate = settings.rate_bytes_per_sec;
            if settings.rate_enabled && rate > 0 && job.size() > limiter.refilled(
                now,
                rate,
            ).tokens || settings.loss_enabled && lost {
                after == state
            } else {
                after.queue.len() == state.queue.len() + 1
            }
        }),
{
    let packet = lane::scheduled(job, jitter, state.deadline);
    queue::lemma_place_splits(state.queue, packet);
}

/// At one hundred percent every packet is dropped. At zero percent none is
/// lost: one that the rate limit lets through waits to leave.
pub proof fn law_loss_is_all_or_nothing_at_its_ends(
    state: LaneState,
    job: PacketJob,
    admitted: bool,
    lost: bool,
    jitter: i64,
)
    requires
        job.settings.loss_enabled,
        !job.settings.loss_percent.is_nan(),
        lane::is_draw(job.settings, lost),
    ensures
        ({
            let after = lane::with_packet(state, job, admitted, lost, jitter);
            let units = job.settings.loss_percent.units();
            &&& units == 100 * rounding::one() ==> after == state
            &&& units == 0 && admitted ==> waiting(after).to_multiset() == waiting(
                state,
            ).to_multiset().insert(job)
        }),
{
    let packet = lane::scheduled(job, jitter, state.deadline);
    queue::lemma_place_splits(state.queue, packet);
    if lane::passes(job.settings, admitted, lost) {
        let p = queue::place_of(state.queue, packet) as int;
        let after = lane::with_packet(state, job, admitted, lost, jitter);
        assert(waiting(after) =~= waiting(state).insert(p, job));
        lemma_insert_multiset(waiting(state), p, job);
    }
}

/// The loss is switched on at one hundred percent.
pub open spec fn loses_all(input: Input) -> bool {
    input matches Input::Packet { job, lost, .. } ==> {
        &&& job.settings.loss_enabled
        &&& !job.settings.loss_percent.is_nan()
        &&& job.settings.loss_percent.units() == 100 * rounding::one()
        &&& lane::is_draw(job.settings, lost)
    }
}

/// At one hundred percent nothing ever leaves, and nothing waits.
pub proof fn law_full_loss_delivers_nothing(deadline: u128, inputs: Seq<Input>)
    requires
        forall|i: int| 0 <= i < inputs.len() ==> loses_all(#[trigger] inputs[i]),
    ensures
        sent(fresh(deadline), inputs).len() == 0,
        final_state(fresh(deadline), inputs) == fresh(deadline),
    decreases inputs.len(),
{
    if inputs.len() > 0 {
        let before = inputs.drop_last();
        assert(forall|i: int| 0 <= i < before.len() ==> #[trigger] before[i] == inputs[i]);
        law_full_loss_delivers_nothing(deadline, before);
        let state = fresh(deadline);
        assert(loses_all(inputs[inputs.len() - 1]));
        match inputs.last() {
            Input::Packet { job, admitted, lost, jitter } => {
                law_loss_is_all_or_nothing_at_its_ends(state, job, admitted, lost, jitter);
            },
            Input::Timer { now } => {
                assert(state.queue.skip(0) =~= state.queue);
            },
        }
    }
}

/// With every setting switched off a packet passes, and leaves as it came in,
/// or with the latest packet in front.
pub proof fn law_nothing_switched_on_changes_nothing(
    job: PacketJob,
    limiter: RateLimiter,
    now: u128,
    lost: bool,
    jitter: i64,
    deadline: u128,
)
    requires
        !job.settings.latency_enabled,
        !job.settings.jitter_enabled,
        !job.settings.loss_enabled,
        !job.settings.rate_enabled,
        lane::is_jitter(job.settings, jitter),
    ensures
        lane::passes(
            job.settings,
            lane::within_rate(job.settings, job.size(), limiter, now),
            lost,
        ),
        lane::departure(job, jitter, deadline) == if job.arrival < deadline {
            deadline
        } else {
            job.arrival
        },
{
}

/// A packet that may not overtake others goes behind all that came before it.
pub proof fn law_packet_joins_at_the_end(
    state: LaneState,
    job: PacketJob,
    admitted: bool,
    lost: bool,
    jitter: i64,
)
    requires
        consistent(state),
        possible(Input::Packet { job, admitted, lost, jitter }),
        lane::passes(job.settings, admitted, lost),
        !lane::reorders(job.settings),
        forall|i: int| 0 <= i < state.queue.len() ==> (#[trigger] state.queue[i]).job.id < job.id,
    ensures
        waiting(lane::with_packet(state, job, admitted, lost, jitter)) == waiting(state).push(job),
{
    let packet = lane::scheduled(job, jitter, state.deadline);
    lemma_departure(job, jitter, state.deadline);
    assert forall|i: int| 0 <= i < state.queue.len() implies !packet.before(
        #[trigger] state.queue[i],
    ) by {
        assert(state.queue[i].send_at <= state.deadline);
    }
    queue::lemma_place_of(state.queue, packet, state.queue.len() as int);
    let after = lane::with_packet(state, job, admitted, lost, jitter);
    assert(after.queue =~= state.queue.push(packet));
    assert(waiting(after) =~= waiting(state).push(job));
}

/// The packets that pass come from the inputs.
proof fn lemma_arrived(inputs: Seq<Input>, k: int)
    requires
        0 <= k < arrived(inputs).len(),
    ensures
        exists|i: int|
            0 <= i < inputs.len() && (#[trigger] inputs[i] matches Input::Packet { job, .. } && job
                == arrived(inputs)[k]),
    decreases inputs.len(),
{
    if inputs.len() > 0 {
        let before = inputs.drop_last();
        if k < arrived(before).len() {
            lemma_arrived(before, k);
            let i = choose|i: int|
                0 <= i < before.len() && (#[trigger] before[i] matches Input::Packet { job, .. }
                    && job == arrived(before)[k]);
            assert(inputs[i] == before[i]);
            assert(arrived(inputs)[k] == arrived(before)[k]);
        } else {
            assert(inputs[inputs.len() - 1] == inputs.last());
            assert(arrived(inputs)[k] == passing(inputs.last())[k - arrived(before).len()]);
        }
    }
}

/// Of two packets the first has the smaller number.
pub open spec fn ascends(a: Input, b: Input) -> bool {
    match (a, b) {
        (Input::Packet { job: x, .. }, Input::Packet { job: y, .. }) => x.id < y.id,
        _ => true,
    }
}

/// Packets are numbered as they come in.
pub open spec fn numbered(inputs: Seq<Input>) -> bool {
    forall|i: int, j: int|
        0 <= i < j < inputs.len() ==> ascends(#[trigger] inputs[i], #[trigger] inputs[j])
}

/// No packet may overtake another.
pub open spec fn keeps_order(input: Input) -> bool {
    input matches Input::Packet { job, .. } ==> !lane::reorders(job.settings)
}

/// Without jitter the packets leave in the order in which they came in: what
/// has left, and what waits behind it, is what has passed so far.
pub proof fn law_order_is_preserved(deadline: u128, inputs: Seq<Input>)
    requires
        forall|i: int| 0 <= i < inputs.len() ==> possible(#[trigger] inputs[i]),
        forall|i: int| 0 <= i < inputs.len() ==> keeps_order(#[trigger] inputs[i]),
        numbered(inputs),
    ensures
        sent(fresh(deadline), inputs) + waiting(final_state(fresh(deadline), inputs)) == arrived(
            inputs,
        ),
    decreases inputs.len(),
{
    let start = fresh(deadline);
    if inputs.len() == 0 {
        assert(waiting(start) =~= Seq::<PacketJob>::empty());
        assert(sent(start, inputs) + waiting(start) =~= Seq::<PacketJob>::empty());
    } else {
        let before = inputs.drop_last();
        let last = inputs.last();
        assert(forall|i: int| 0 <= i < before.len() ==> #[trigger] before[i] == inputs[i]);
        law_order_is_preserved(deadline, before);
        law_runs_are_consistent(deadline, before);
        let state = final_state(start, before);
        let out = sent(start, before);
        assert(inputs[inputs.len() - 1] == last);
        match last {
            Input::Packet { job, admitted, lost, jitter } => {
                if lane::passes(job.settings, admitted, lost) {
                    assert forall|i: int| 0 <= i < state.queue.len() implies (
                    #[trigger] state.queue[i]).job.id < job.id by {
                        let k = out.len() + i;
                        assert((out + waiting(state))[k] == state.queue[i].job);
                        lemma_arrived(before, k);
                        let m = choose|m: int|
                            0 <= m < before.len() && (#[trigger] before[m] matches Input::Packet {
                                job,
                                ..
                            } && job == arrived(before)[k]);
                        assert(inputs[m] == before[m]);
                    }
                    law_packet_joins_at_the_end(state, job, admitted, lost, jitter);
                    assert(sent(start, inputs) =~= out);
                    assert(sent(start, inputs) + waiting(final_state(start, inputs)) =~= arrived(
                        before,
                    ).push(job));
                    assert(arrived(inputs) =~= arrived(before).push(job));
                } else {
                    assert(sent(start, inputs) =~= out);
                    assert(arrived(inputs) =~= arrived(before));
                }
            },
            Input::Timer { now } => {
                lemma_timer_splits(state, now);
                assert(arrived(inputs) =~= arrived(before));
                assert(sent(start, inputs) + waiting(final_state(start, inputs)) =~= out + (
                lane::due_jobs(state, now) + waiting(lane::without_due(state, now))));
            },
        }
    }
}

/// The packets of a lane's inputs are among `packets`, each in its place
/// `at`, and taken in in their order.
pub open spec fn takes_in(
    inputs: Seq<Input>,
    packets: Seq<ClientPacket>,
    at: Seq<int>,
    direction: PacketDirection,
    dest_addr: SocketAddr,
) -> bool {
    &&& at.len() == inputs.len()
    &&& forall|i: int|
        0 <= i < inputs.len() ==> (#[trigger] inputs[i] matches Input::Packet { job, .. } ==> 0
            <= at[i] < packets.len() && job == lane::job_of(packets[at[i]], direction, dest_addr))
    &&& forall|i: int, j: int|
        0 <= i < j < inputs.len() && inputs[i] is Packet && inputs[j] is Packet ==> #[trigger] at[i]
            < #[trigger] at[j]
}

/// A lane that takes in packets of the proxy in the order in which they were
/// received meets ascending numbers.
pub proof fn law_received_packets_are_numbered(
    receipts: Seq<Receipt>,
    inputs: Seq<Input>,
    at: Seq<int>,
    direction: PacketDirection,
    dest_addr: SocketAddr,
)
    requires
        FIRST_PACKET_ID + receipts.len() <= u64::MAX + 1,
        takes_in(
            inputs,
            packet::numbered_packets(FIRST_PACKET_ID, receipts),
            at,
            direction,
            dest_addr,
        ),
    ensures
        numbered(inputs),
{
    let packets = packet::numbered_packets(FIRST_PACKET_ID, receipts);
    assert forall|i: int, j: int| 0 <= i < j < inputs.len() implies ascends(
        #[trigger] inputs[i],
        #[trigger] inputs[j],
    ) by {
        if inputs[i] is Packet && inputs[j] is Packet {
            packet::law_packets_are_numbered_in_turn(FIRST_PACKET_ID, receipts);
            assert(at[i] < at[j]);
            packet::law_packet_numbers_ascend(receipts, at[i], at[j]);
        }
    }
}

/// Without jitter the packets that a lane takes in as they were received leave
/// in that order, whatever comes in on other lanes in between.
pub proof fn law_received_packets_leave_in_order(
    deadline: u128,
    receipts: Seq<Receipt>,
    inputs: Seq<Input>,
    at: Seq<int>,
    direction: PacketDirection,
    dest_addr: SocketAddr,
)
    requires
        FIRST_PACKET_ID + receipts.len() <= u64::MAX + 1,
        takes_in(
            inputs,
            packet::numbered_packets(FIRST_PACKET_ID, receipts),
            at,
            direction,
            dest_addr,
        ),
        forall|i: int| 0 <= i < inputs.len() ==> possible(#[trigger] inputs[i]),
        forall|i: int| 0 <= i < inputs.len() ==> keeps_order(#[trigger] inputs[i]),
    ensures
        sent(fresh(deadline), inputs) + waiting(final_state(fresh(deadline), inputs)) == arrived(
            inputs,
        ),
{
    law_received_packets_are_numbered(receipts, inputs, at, direction, dest_addr);
    law_order_is_preserved(deadline, inputs);
}

/// A timer takes the front of the queue, and leaves the rest.
proof fn lemma_timer_splits(state: LaneState, now: u128)
    ensures
        lane::due_jobs(state, now) + waiting(lane::without_due(state, now)) == waiting(state),
{
    queue::lemma_due_count(state.queue, now);
    assert(lane::due_jobs(state, now) + waiting(lane::without_due(state, now)) =~= waiting(state));
}

/// To insert a job somewhere is to add it.
proof fn lemma_insert_multiset(jobs: Seq<PacketJob>, p: int, job: PacketJob)
    requires
        0 <= p <= jobs.len(),
    ensures
        jobs.insert(p, job).to_multiset() =~= jobs.to_multiset().insert(job),
{
    broadcast use vstd::seq_lib::group_to_multiset_ensures;

    let after = jobs.insert(p, job);
    assert(after.remove(p) =~= jobs);
    assert(after[p] == job);
    assert(after.remove(p).to_multiset() =~= after.to_multiset().remove(job));
    assert(after.contains(job));
}

/// Nothing is lost on the way, and nothing doubled: with jitter or without,
/// what has left and what waits is what has passed, each packet as often.
pub proof fn law_every_packet_leaves_once(deadline: u128, inputs: Seq<Input>)
    ensures
        (sent(fresh(deadline), inputs) + waiting(
            final_state(fresh(deadline), inputs),
        )).to_multiset() == arrived(inputs).to_multiset(),
    decreases inputs.len(),
{
    let start = fresh(deadline);
    if inputs.len() == 0 {
        assert(sent(start, inputs) + waiting(start) =~= arrived(inputs));
    } else {
        let before = inputs.drop_last();
        law_every_packet_leaves_once(deadline, before);
        let state = final_state(start, before);
        let out = sent(start, before);
        match inputs.last() {
            Input::Packet { job, admitted, lost, jitter } => {
                assert(sent(start, inputs) =~= out);
                if lane::passes(job.settings, admitted, lost) {
                    let packet = lane::scheduled(job, jitter, state.deadline);
                    queue::lemma_place_splits(state.queue, packet);
                    let p = queue::place_of(state.queue, packet) as int;
                    let all = out + waiting(state);
                    assert(out + waiting(final_state(start, inputs)) =~= all.insert(
                        out.len() + p,
                        job,
                    ));
                    lemma_insert_multiset(all, out.len() + p, job);
                    assert(arrived(inputs) =~= arrived(before).insert(
                        arrived(before).len() as int,
                        job,
                    ));
                    lemma_insert_multiset(arrived(before), arrived(before).len() as int, job);
                } else {
                    assert(arrived(inputs) =~= arrived(before));
                }
            },
            Input::Timer { now } => {
                lemma_timer_splits(state, now);
                assert(arrived(inputs) =~= arrived(before));
                assert(sent(start, inputs) + waiting(final_state(start, inputs)) =~= out + (
                lane::due_jobs(state, now) + waiting(lane::without_due(state, now))));
            },
        }
    }
}

/// What has left, and what waits, has passed: it is the packet of an input.
proof fn lemma_out_of_inputs(deadline: u128, inputs: Seq<Input>, job: PacketJob)
    requires
        sent(fresh(deadline), inputs).contains(job) || waiting(
            final_state(fresh(deadline), inputs),
        ).contains(job),
    ensures
        exists|i: int|
            0 <= i < inputs.len() && (#[trigger] inputs[i] matches Input::Packet { job: x, .. } && x
                == job),
{
    broadcast use vstd::seq_lib::group_to_multiset_ensures;

    let out = sent(fresh(deadline), inputs);
    let rest = waiting(final_state(fresh(deadline), inputs));
    let all = out + rest;
    law_every_packet_leaves_once(deadline, inputs);
    if out.contains(job) {
        let k = choose|k: int| 0 <= k < out.len() && out[k] == job;
        assert(all[k] == job);
    } else {
        let k = choose|k: int| 0 <= k < rest.len() && rest[k] == job;
        assert(all[out.len() + k] == job);
    }
    assert(all.contains(job));
    assert(all.to_multiset().count(job) > 0);
    assert(arrived(inputs).contains(job));
    let k = choose|k: int| 0 <= k < arrived(inputs).len() && arrived(inputs)[k] == job;
    lemma_arrived(inputs, k);
}

/// Whatever leaves a lane, in either direction, goes to the address that the
/// lane was made with and the lane's way. It has the bytes, the sender, the
/// number, the times and the settings of a packet that was taken in.
pub proof fn law_packets_leave_as_they_came(
    deadline: u128,
    packets: Seq<ClientPacket>,
    inputs: Seq<Input>,
    at: Seq<int>,
    direction: PacketDirection,
    dest_addr: SocketAddr,
    k: int,
)
    requires
        takes_in(inputs, packets, at, direction, dest_addr),
        0 <= k < sent(fresh(deadline), inputs).len(),
    ensures
        ({
            let job = sent(fresh(deadline), inputs)[k];
            &&& job.dest_addr == dest_addr
            &&& job.direction == direction
            &&& exists|p: int|
                0 <= p < packets.len() && job.data == (#[trigger] packets[p]).data && job.src
                    == packets[p].src && job.id == packets[p].id && job.time_in_ms
                    == packets[p].time_in_ms && job.arrival == packets[p].arrival && job.settings
                    == packets[p].settings
        }),
{
    let job = sent(fresh(deadline), inputs)[k];
    assert(sent(fresh(deadline), inputs).contains(job));
    lemma_out_of_inputs(deadline, inputs, job);
    let i = choose|i: int|
        0 <= i < inputs.len() && (#[trigger] inputs[i] matches Input::Packet { job: x, .. } && x
            == job);
    let p = at[i];
    lane::law_jobs_go_the_way_of_their_lane(packets[p], direction, dest_addr);
    assert(job.data == packets[p].data);
}

/// With jitter a packet leaves exactly its arrival, its latency and the jitter
/// that was drawn later, or at once where they come to less than nothing.
pub proof fn law_jitter_is_exact(job: PacketJob, jitter: i64, deadline: u128)
    requires
        job.settings.jitter_enabled,
        0 < job.settings.jitter_ms <= i64::MAX,
        job.settings.latency_ms <= i64::MAX,
        -(job.settings.jitter_ms as int) <= jitter <= job.settings.jitter_ms,
    ensures
        lane::is_jitter(job.settings, jitter),
        lane::departure(job, jitter, deadline) == job.arrival + ({
            let latency: int = if job.settings.latency_enabled {
                job.settings.latency_ms as int
            } else {
                0
            };
            if latency + jitter > 0 {
                (latency + jitter) * 1_000_000
            } else {
                0
            }
        }),
{
}

} // verus!
