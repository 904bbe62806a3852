//! One way of a client's packets: when each of them leaves.
use crate::addr::SocketAddr;
use crate::limiter;
use crate::limiter::RateLimiter;
use crate::packet::{
    dropped_event, ClientPacket, PacketJob, ScheduledPacket, NANOS_PER_MS,
};
use crate::queue;
use crate::queue::SendQueue;
use crate::random::random_in;
use crate::rounding;
use crate::types::{PacketAction, PacketDirection, PacketEvent, ProxySettings};
use vstd::prelude::*;

verus! {

/// The signed number with the same 64 bits.
pub open spec fn signed(n: u64) -> int {
    if n > i64::MAX {
        n - 0x1_0000_0000_0000_0000
    } else {
        n as int
    }
}

/// The latency that every packet gets, in milliseconds.
pub open spec fn base_latency(settings: ProxySettings) -> int {
    if settings.latency_enabled {
        signed(settings.latency_ms)
    } else {
        0
    }
}

/// How far a latency may be off, in milliseconds, up and down.
pub open spec fn jitter_bound(settings: ProxySettings) -> int {
    if settings.jitter_enabled && signed(settings.jitter_ms) > 0 {
        signed(settings.jitter_ms)
    } else {
        0
    }
}

/// A jitter that may be drawn.
pub open spec fn is_jitter(settings: ProxySettings, jitter: i64) -> bool {
    -jitter_bound(settings) <= jitter <= jitter_bound(settings)
}

/// How long a packet is held, in milliseconds.
pub open spec fn delay_ms(settings: ProxySettings, jitter: i64) -> nat {
    if base_latency(settings) + jitter < 0 {
        0
    } else {
        (base_latency(settings) + jitter) as nat
    }
}

/// Packets may overtake each other.
pub open spec fn reorders(settings: ProxySettings) -> bool {
    settings.jitter_enabled && settings.jitter_ms > 0
}

/// When a packet leaves: after its delay, and where no packet may overtake
/// another not before the latest of those in front.
pub open spec fn departure(job: PacketJob, jitter: i64, last_deadline: u128) -> nat {
    let desired = job.arrival as nat + delay_ms(job.settings, jitter) * NANOS_PER_MS as nat;
    if !reorders(job.settings) && desired < last_deadline {
        last_deadline as nat
    } else {
        desired
    }
}

/// The packet is let through.
pub open spec fn passes(settings: ProxySettings, admitted: bool, lost: bool) -> bool {
    admitted && !(settings.loss_enabled && lost)
}

/// The draw of the loss may come out so: at zero percent no packet is lost, at
/// one hundred every one.
pub open spec fn is_draw(settings: ProxySettings, lost: bool) -> bool {
    &&& settings.loss_percent.units() == 0 ==> !lost
    &&& settings.loss_percent.units() == 100 * rounding::one() ==> lost
}

/// The event of a job that was dropped.
pub open spec fn drop_of(job: PacketJob) -> PacketEvent {
    PacketEvent {
        id: job.id,
        direction: job.direction,
        time_in_ms: job.time_in_ms,
        latency_ms: 0,
        time_out_ms: None,
        action: PacketAction::Dropped,
        size: job.size(),
        src: job.src,
    }
}

/// What a packet becomes at a given jitter, and the latest departure after it.
pub open spec fn is_placed(
    job: PacketJob,
    admitted: bool,
    lost: bool,
    jitter: i64,
    before: u128,
    result: Result<ScheduledPacket, PacketEvent>,
    after: u128,
) -> bool {
    if passes(job.settings, admitted, lost) {
        &&& result matches Ok(packet) && packet.job == job && packet.seq == job.id && packet.send_at
            == departure(job, jitter, before)
        &&& after == if departure(job, jitter, before) > before {
            departure(job, jitter, before)
        } else {
            before as nat
        }
    } else {
        &&& result == Err::<ScheduledPacket, PacketEvent>(drop_of(job))
        &&& after == before
    }
}

/// The rate limit lets a packet of `size` bytes through at the time `now`: it is
/// switched off, or there is a token for each byte.
pub open spec fn within_rate(
    settings: ProxySettings,
    size: usize,
    limiter: RateLimiter,
    now: u128,
) -> bool {
    settings.rate_enabled ==> limiter.admits(now, size, settings.rate_bytes_per_sec)
}

/// The rate limit after such a packet. One that is switched off is not asked.
pub open spec fn rate_after(
    settings: ProxySettings,
    size: usize,
    limiter: RateLimiter,
    now: u128,
) -> RateLimiter {
    if settings.rate_enabled {
        limiter.after(now, size, settings.rate_bytes_per_sec)
    } else {
        limiter
    }
}

/// Asks the rate limit, where it is switched on, whether a packet may pass.
pub fn rate_admits(
    settings: &ProxySettings,
    size: usize,
    limiter: &mut RateLimiter,
    now: u128,
) -> (admitted: bool)
    requires
        now <= limiter::MAX_NANOS,
    ensures
        admitted == within_rate(*settings, size, *old(limiter), now),
        *final(limiter) == rate_after(*settings, size, *old(limiter), now),
        old(limiter).wf() ==> final(limiter).wf(),
{
    if settings.rate_enabled {
        limiter.allow(now, size, settings.rate_bytes_per_sec)
    } else {
        true
    }
}

/// Whether the loss is drawn for a packet at the time `now`: where the loss is
/// switched on, unless the rate limit stops the packet first.
pub fn draws_loss(packet: &ClientPacket, limiter: &RateLimiter, now: u128) -> (drawn: bool)
    requires
        now <= limiter::MAX_NANOS,
    ensures
        drawn == (packet.settings.loss_enabled && within_rate(
            packet.settings,
            packet.data@.len() as usize,
            *limiter,
            now,
        )),
{
    let mut trial: RateLimiter = *limiter;
    packet.settings.loss_enabled && rate_admits(
        &packet.settings,
        packet.data.len(),
        &mut trial,
        now,
    )
}

/// The signed number with the same bits.
fn to_signed(n: u64) -> (signed_n: i128)
    ensures
        signed_n == signed(n),
{
    if n > i64::MAX as u64 {
        n as i128 - 0x1_0000_0000_0000_0000
    } else {
        n as i128
    }
}

/// The least and the greatest jitter that may be drawn.
pub fn jitter_range(settings: &ProxySettings) -> (range: (i64, i64))
    ensures
        range.0 == -jitter_bound(*settings),
        range.1 == jitter_bound(*settings),
{
    let bound: i128 = to_signed(settings.jitter_ms);
    if settings.jitter_enabled && bound > 0 {
        (-(bound as i64), bound as i64)
    } else {
        (0, 0)
    }
}

/// Draws a jitter from the range of [`jitter_range`]. Without jitter it is
/// zero; which one of a wider range comes is left to chance.
pub fn draw_jitter(settings: &ProxySettings) -> (jitter: i64)
    ensures
        is_jitter(*settings, jitter),
{
    let (low, high) = jitter_range(settings);
    if low < high {
        random_in(low, high)
    } else {
        0
    }
}

/// Decides what becomes of a packet, given the jitter that was drawn.
pub fn place_packet(
    job: PacketJob,
    admitted: bool,
    lost: bool,
    jitter: i64,
    last_deadline: &mut u128,
) -> (result: Result<ScheduledPacket, PacketEvent>)
    requires
        job.arrival <= limiter::MAX_NANOS,
        is_jitter(job.settings, jitter),
    ensures
        is_placed(job, admitted, lost, jitter, *old(last_deadline), result, *final(last_deadline)),
{
    if !admitted || (job.settings.loss_enabled && lost) {
        return Err(
            dropped_event(job.id, job.direction, job.time_in_ms, job.data.len(), job.src),
        );
    }
    let base: i128 = if job.settings.latency_enabled {
        to_signed(job.settings.latency_ms)
    } else {
        0
    };
    let held: i128 = base + jitter as i128;
    let delay: u128 = if held < 0 {
        0
    } else {
        held as u128
    };
    let desired: u128 = job.arrival + delay * NANOS_PER_MS;
    let reorder = job.settings.jitter_enabled && job.settings.jitter_ms > 0;
    let send_at: u128 = if !reorder && desired < *last_deadline {
        *last_deadline
    } else {
        desired
    };
    if send_at > *last_deadline {
        *last_deadline = send_at;
    }
    Ok(ScheduledPacket { send_at, seq: job.id, job })
}

/// Decides at the time `now` what becomes of a packet that the draw of the loss
/// would lose, or would not. The rate limit is asked, and the jitter is drawn.
pub fn schedule_packet(
    job: PacketJob,
    limiter: &mut RateLimiter,
    now: u128,
    lost: bool,
    last_deadline: &mut u128,
) -> (result: Result<ScheduledPacket, PacketEvent>)
    requires
        job.arrival <= limiter::MAX_NANOS,
        now <= limiter::MAX_NANOS,
    ensures
        *final(limiter) == rate_after(job.settings, job.size(), *old(limiter), now),
        old(limiter).wf() ==> final(limiter).wf(),
        exists|jitter: i64| #[trigger]
            is_jitter(job.settings, jitter) && is_placed(
                job,
                within_rate(job.settings, job.size(), *old(limiter), now),
                lost,
                jitter,
                *old(last_deadline),
                result,
                *final(last_deadline),
            ),
{
    let admitted = rate_admits(&job.settings, job.data.len(), limiter, now);
    let jitter: i64 = draw_jitter(&job.settings);
    place_packet(job, admitted, lost, jitter, last_deadline)
}

/// What a lane holds: the latest departure so far, and the packets that wait.
#[verifier::ext_equal]
pub struct LaneState {
    pub deadline: u128,
    pub queue: Seq<ScheduledPacket>,
}

/// A packet that passes, with its departure.
pub open spec fn scheduled(job: PacketJob, jitter: i64, last_deadline: u128) -> ScheduledPacket {
    ScheduledPacket { send_at: departure(job, jitter, last_deadline) as u128, seq: job.id, job }
}

/// A lane after a packet: one that passes waits in its place, and the latest
/// departure is kept.
pub open spec fn with_packet(
    state: LaneState,
    job: PacketJob,
    admitted: bool,
    lost: bool,
    jitter: i64,
) -> LaneState {
    if passes(job.settings, admitted, lost) {
        let packet = scheduled(job, jitter, state.deadline);
        LaneState {
            deadline: if packet.send_at > state.deadline {
                packet.send_at
            } else {
                state.deadline
            },
            queue: state.queue.insert(queue::place_of(state.queue, packet) as int, packet),
        }
    } else {
        state
    }
}

/// The jobs whose time has come, in the order in which they leave.
pub open spec fn due_jobs(state: LaneState, now: u128) -> Seq<PacketJob> {
    Seq::new(queue::due_count(state.queue, now), |i: int| state.queue[i].job)
}

/// A lane after they have left.
pub open spec fn without_due(state: LaneState, now: u128) -> LaneState {
    LaneState { queue: state.queue.skip(queue::due_count(state.queue, now) as int), ..state }
}

/// The job that a packet makes on a lane.
pub open spec fn job_of(
    packet: ClientPacket,
    direction: PacketDirection,
    dest_addr: SocketAddr,
) -> PacketJob {
    PacketJob {
        id: packet.id,
        data: packet.data,
        src: packet.src,
        dest_addr,
        time_in_ms: packet.time_in_ms,
        arrival: packet.arrival,
        settings: packet.settings,
        direction,
    }
}

/// What a lane is told.
pub enum LaneEvent {
    /// The signal to stop has changed, or its sender is gone.
    Signal { closed: bool, requested: bool },
    /// A packet is taken in at the time `now`. The draw of the loss would lose
    /// it or not.
    Packet { packet: ClientPacket, now: u128, lost: bool },
    /// No packet will come any more.
    SourceClosed,
    /// The next packet is due.
    TimerFired { now: u128 },
}

/// What is to be done for a lane.
pub enum LaneAction {
    /// Wait for the next event.
    Wait,
    /// End the lane.
    Stop,
    /// Keep an event, and wait.
    Log(PacketEvent),
    /// Send these packets one after the other, and wait.
    Send(Vec<PacketJob>),
}

/// A stop is asked for, or nobody is left to ask.
pub open spec fn stops(closed: bool, requested: bool) -> bool {
    closed || requested
}

/// One way of a client's packets.
pub struct Lane {
    pub direction: PacketDirection,
    pub dest_addr: SocketAddr,
    pub last_deadline: u128,
    pub queue: SendQueue,
}

impl Lane {
    pub open spec fn state(self) -> LaneState {
        LaneState { deadline: self.last_deadline, queue: self.queue@ }
    }

    pub open spec fn wf(self) -> bool {
        self.queue.wf()
    }

    /// Only what waits has changed.
    pub open spec fn same_way(self, other: Lane) -> bool {
        self.direction == other.direction && self.dest_addr == other.dest_addr
    }

    /// A lane without packets, at the time `now`.
    pub fn new(direction: PacketDirection, dest_addr: SocketAddr, now: u128) -> (lane: Lane)
        ensures
            lane.wf(),
            lane.direction == direction,
            lane.dest_addr == dest_addr,
            lane.state() == (LaneState { deadline: now, queue: Seq::empty() }),
    {
        Lane { direction, dest_addr, last_deadline: now, queue: SendQueue::new() }
    }

    /// How long to wait for the next packet that is due, in nanoseconds.
    pub fn wait_time(&self, now: u128) -> (wait: Option<u128>)
        ensures
            wait == if self.queue@.len() == 0 {
                None::<u128>
            } else if self.queue@[0].send_at <= now {
                Some(0u128)
            } else {
                Some((self.queue@[0].send_at - now) as u128)
            },
    {
        match self.queue.next_time() {
            None => None,
            Some(time) => if time <= now {
                Some(0)
            } else {
                Some(time - now)
            },
        }
    }

    /// Takes in a packet, given the jitter that was drawn for it. One that
    /// does not pass comes back as an event.
    pub fn accept_with(
        &mut self,
        packet: ClientPacket,
        admitted: bool,
        lost: bool,
        jitter: i64,
    ) -> (event: Option<PacketEvent>)
        requires
            old(self).wf(),
            packet.arrival <= limiter::MAX_NANOS,
            is_jitter(packet.settings, jitter),
        ensures
            final(self).wf(),
            final(self).same_way(*old(self)),
            ({
                let job = job_of(packet, old(self).direction, old(self).dest_addr);
                &&& final(self).state() == with_packet(
                    old(self).state(),
                    job,
                    admitted,
                    lost,
                    jitter,
                )
                &&& event == if passes(packet.settings, admitted, lost) {
                    None::<PacketEvent>
                } else {
                    Some(drop_of(job))
                }
            }),
    {
        let job = self.job_for(packet);
        let mut deadline: u128 = self.last_deadline;
        let result = place_packet(job, admitted, lost, jitter, &mut deadline);
        self.keep(result, deadline)
    }

    /// The job that a packet makes here.
    fn job_for(&self, packet: ClientPacket) -> (job: PacketJob)
        ensures
            job == job_of(packet, self.direction, self.dest_addr),
    {
        PacketJob {
            id: packet.id,
            data: packet.data,
            src: packet.src,
            dest_addr: self.dest_addr,
            time_in_ms: packet.time_in_ms,
            arrival: packet.arrival,
            settings: packet.settings,
            direction: self.direction,
        }
    }

    /// Keeps a packet that was scheduled, and hands on the event of one that was not.
    fn keep(&mut self, result: Result<ScheduledPacket, PacketEvent>, deadline: u128) -> (event:
        Option<PacketEvent>)
        requires
            old(self).wf(),
        ensures
            final(self).wf(),
            final(self).same_way(*old(self)),
            match result {
                Ok(packet) => {
                    &&& event is None
                    &&& final(self).last_deadline == deadline
                    &&& final(self).queue@ == old(self).queue@.insert(
                        queue::place_of(old(self).queue@, packet) as int,
                        packet,
                    )
                },
                Err(dropped) => event == Some(dropped) && final(self).state() == old(self).state(),
            },
    {
        match result {
            Ok(packet) => {
                self.last_deadline = deadline;
                self.queue.push(packet);
                None
            },
            Err(event) => Some(event),
        }
    }

    /// Takes in a packet at the time `now`. One that does not pass comes back
    /// as an event.
    pub fn accept(
        &mut self,
        packet: ClientPacket,
        limiter: &mut RateLimiter,
        now: u128,
        lost: bool,
    ) -> (event: Option<PacketEvent>)
        requires
            old(self).wf(),
            packet.arrival <= limiter::MAX_NANOS,
            now <= limiter::MAX_NANOS,
        ensures
            final(self).wf(),
            final(self).same_way(*old(self)),
            old(limiter).wf() ==> final(limiter).wf(),
            ({
                let job = job_of(packet, old(self).direction, old(self).dest_addr);
                let admitted = within_rate(packet.settings, job.size(), *old(limiter), now);
                &&& *final(limiter) == rate_after(packet.settings, job.size(), *old(limiter), now)
                &&& exists|jitter: i64| #[trigger]
                    is_jitter(packet.settings, jitter) && final(self).state() == with_packet(
                        old(self).state(),
                        job,
                        admitted,
                        lost,
                        jitter,
                    )
                &&& event == if passes(packet.settings, admitted, lost) {
                    None::<PacketEvent>
                } else {
                    Some(drop_of(job))
                }
            }),
    {
        let ghost admitted = within_rate(
            packet.settings,
            packet.data@.len() as usize,
            *limiter,
            now,
        );
        let job = self.job_for(packet);
        let mut deadline: u128 = self.last_deadline;
        let result = schedule_packet(job, limiter, now, lost, &mut deadline);
        let event = self.keep(result, deadline);
        proof {
            let jitter = choose|jitter: i64| #[trigger]
                is_jitter(job.settings, jitter) && is_placed(
                    job,
                    admitted,
                    lost,
                    jitter,
                    old(self).last_deadline,
                    result,
                    deadline,
                );
            assert(is_jitter(packet.settings, jitter));
            assert(self.state() == with_packet(old(self).state(), job, admitted, lost, jitter));
        }
        event
    }

    /// Takes out the packets whose time has come.
    pub fn send_due(&mut self, now: u128) -> (jobs: Vec<PacketJob>)
        requires
            old(self).wf(),
        ensures
            final(self).wf(),
            final(self).same_way(*old(self)),
            jobs@ == due_jobs(old(self).state(), now),
            final(self).state() == without_due(old(self).state(), now),
    {
        let mut jobs: Vec<PacketJob> = Vec::new();
        let ghost before = self.queue@;
        let ghost mut taken: int = 0;
        assert(before.skip(0) =~= before);
        loop
            invariant
                self.wf(),
                self.same_way(*old(self)),
                self.last_deadline == old(self).last_deadline,
                before == old(self).queue@,
                0 <= taken <= before.len(),
                taken == jobs@.len(),
                self.queue@ == before.skip(taken),
                queue::due_count(before, now) == taken + queue::due_count(self.queue@, now),
                forall|i: int| 0 <= i < taken ==> #[trigger] jobs@[i] == before[i].job,
            ensures
                self.wf(),
                self.same_way(*old(self)),
                self.last_deadline == old(self).last_deadline,
                taken == queue::due_count(before, now),
                self.queue@ == before.skip(taken),
                taken == jobs@.len(),
                forall|i: int| 0 <= i < taken ==> #[trigger] jobs@[i] == before[i].job,
            decreases self.queue@.len(),
        {
            match self.queue.next_time() {
                Some(time) if time <= now => {},
                _ => {
                    break ;
                },
            }
            proof {
                assert(self.queue@[0] == before[taken]);
                assert(before.skip(taken).drop_first() =~= before.skip(taken + 1));
            }
            if let Some(packet) = self.queue.pop() {
                jobs.push(packet.job);
                proof {
                    taken = taken + 1;
                }
            }
        }
        assert(jobs@ =~= due_jobs(old(self).state(), now));
        jobs
    }

    /// Tells the lane an event, and says what to do.
    pub fn step(&mut self, event: LaneEvent, limiter: &mut RateLimiter) -> (action: LaneAction)
        requires
            old(self).wf(),
            event matches LaneEvent::Packet { packet, now, .. } ==> packet.arrival
                <= limiter::MAX_NANOS && now <= limiter::MAX_NANOS,
        ensures
            final(self).wf(),
            final(self).same_way(*old(self)),
            old(limiter).wf() ==> final(limiter).wf(),
            event !is Packet ==> *final(limiter) == *old(limiter),
            match event {
                LaneEvent::Signal { closed, requested } => {
                    &&& final(self).state() == old(self).state()
                    &&& action == if stops(closed, requested) {
                        LaneAction::Stop
                    } else {
                        LaneAction::Wait
                    }
                },
                LaneEvent::SourceClosed => {
                    &&& final(self).state() == old(self).state()
                    &&& action == LaneAction::Stop
                },
                LaneEvent::Packet { packet, now, lost } => {
                    let job = job_of(packet, old(self).direction, old(self).dest_addr);
                    let admitted = within_rate(packet.settings, job.size(), *old(limiter), now);
                    &&& *final(limiter) == rate_after(
                        packet.settings,
                        job.size(),
                        *old(limiter),
                        now,
                    )
                    &&& exists|jitter: i64| #[trigger]
                        is_jitter(packet.settings, jitter) && final(self).state() == with_packet(
                            old(self).state(),
                            job,
                            admitted,
                            lost,
                            jitter,
                        )
                    &&& action == if passes(packet.settings, admitted, lost) {
                        LaneAction::Wait
                    } else {
                        LaneAction::Log(drop_of(job))
                    }
                },
                LaneEvent::TimerFired { now } => {
                    &&& final(self).state() == without_due(old(self).state(), now)
                    &&& action matches LaneAction::Send(jobs) && jobs@ == due_jobs(
                        old(self).state(),
                        now,
                    )
                },
            },
    {
        match event {
            LaneEvent::Signal { closed, requested } => if closed || requested {
                LaneAction::Stop
            } else {
                LaneAction::Wait
            },
            LaneEvent::SourceClosed => LaneAction::Stop,
            LaneEvent::Packet { packet, now, lost } => match self.accept(
                packet,
                limiter,
                now,
                lost,
            ) {
                None => LaneAction::Wait,
                Some(event) => LaneAction::Log(event),
            },
            LaneEvent::TimerFired { now } => LaneAction::Send(self.send_due(now)),
        }
    }
}

/// The jitter that may be drawn goes as far up as down, where it is switched on
/// and a signed number holds it; otherwise there is none.
pub proof fn law_jitter_has_its_range(
    settings: ProxySettings,
    jitter: i64,
    range: (i64, i64),
    drawn: i64,
)
    requires
        call_ensures(jitter_range, (&settings,), range),
        call_ensures(draw_jitter, (&settings,), drawn),
    ensures
        ({
            let bound: int = if settings.jitter_enabled && settings.jitter_ms
                < 0x8000_0000_0000_0000 {
                settings.jitter_ms as int
            } else {
                0
            };
            &&& is_jitter(settings, jitter) <==> -bound <= jitter <= bound
            &&& range.0 == -bound && range.1 == bound
            &&& -bound <= drawn <= bound
        }),
{
}

/// When a packet leaves, in integers: its arrival, and the milliseconds of its
/// latency and of the jitter that was drawn, but none below zero. Without
/// jitter it also waits for the latest packet in front.
pub proof fn law_departures_are_exact(job: PacketJob, jitter: i64, last_deadline: u128)
    ensures
        ({
            let s = job.settings;
            let latency: int = if !s.latency_enabled {
                0
            } else if s.latency_ms < 0x8000_0000_0000_0000 {
                s.latency_ms as int
            } else {
                s.latency_ms - 0x1_0000_0000_0000_0000
            };
            let held: int = if latency + jitter < 0 {
                0
            } else {
                latency + jitter
            };
            let desired = job.arrival + held * 1_000_000;
            departure(job, jitter, last_deadline) == if s.jitter_enabled && s.jitter_ms > 0 {
                desired
            } else if desired < last_deadline {
                last_deadline as int
            } else {
                desired
            }
        }),
{
}

/// What becomes of a packet, in integers. One that is not admitted, or is lost
/// where the loss is on, is told as dropped and changes nothing. Another
/// leaves after its latency and the jitter that was drawn, and without jitter
/// not before the latest in front; the latest departure is kept.
pub proof fn law_packets_are_placed_exactly(
    job: PacketJob,
    admitted: bool,
    lost: bool,
    jitter: i64,
    last_deadline: &mut u128,
    result: Result<ScheduledPacket, PacketEvent>,
)
    requires
        call_ensures(place_packet, (job, admitted, lost, jitter, last_deadline), result),
    ensures
        ({
            let s = job.settings;
            let latency: int = if !s.latency_enabled {
                0
            } else if s.latency_ms < 0x8000_0000_0000_0000 {
                s.latency_ms as int
            } else {
                s.latency_ms - 0x1_0000_0000_0000_0000
            };
            let held: int = if latency + jitter < 0 {
                0
            } else {
                latency + jitter
            };
            let desired = job.arrival + held * 1_000_000;
            let before = *old(last_deadline);
            let after = *final(last_deadline);
            match result {
                Ok(packet) => {
                    &&& admitted && !(s.loss_enabled && lost)
                    &&& packet.job == job
                    &&& packet.seq == job.id
                    &&& s.jitter_enabled && s.jitter_ms > 0 ==> packet.send_at == desired
                    &&& !(s.jitter_enabled && s.jitter_ms > 0) ==> packet.send_at == if desired
                        < before {
                        before as int
                    } else {
                        desired
                    }
                    &&& after == if packet.send_at > before {
                        packet.send_at
                    } else {
                        before
                    }
                },
                Err(event) => {
                    &&& !admitted || (s.loss_enabled && lost)
                    &&& after == before
                    &&& event.id == job.id
                    &&& event.direction == job.direction
                    &&& event.time_in_ms == job.time_in_ms
                    &&& event.latency_ms == 0
                    &&& event.time_out_ms is None
                    &&& event.action == PacketAction::Dropped
                    &&& event.size == job.data@.len() as usize
                    &&& event.src == job.src
                },
            }
        }),
{
}

/// The rate limit is asked where it is switched on, with the bytes of the
/// packet and the rate of its settings, and only then.
pub proof fn law_the_rate_limit_is_asked_where_it_is_on(
    settings: ProxySettings,
    size: usize,
    limiter: &mut RateLimiter,
    now: u128,
    admitted: bool,
)
    requires
        call_ensures(rate_admits, (&settings, size, limiter, now), admitted),
    ensures
        !settings.rate_enabled ==> admitted && *final(limiter) == *old(limiter),
        settings.rate_enabled ==> admitted == old(limiter).admits(
            now,
            size,
            settings.rate_bytes_per_sec,
        ),
        settings.rate_enabled ==> *final(limiter) == old(limiter).after(
            now,
            size,
            settings.rate_bytes_per_sec,
        ),
{
}

/// The loss is drawn where it is switched on, and the rate limit does not stop
/// the packet first.
pub proof fn law_the_loss_is_drawn_where_it_counts(
    packet: ClientPacket,
    limiter: RateLimiter,
    now: u128,
    drawn: bool,
)
    requires
        call_ensures(draws_loss, (&packet, &limiter, now), drawn),
    ensures
        ({
            let s = packet.settings;
            drawn == (s.loss_enabled && (s.rate_enabled ==> limiter.admits(
                now,
                packet.data@.len() as usize,
                s.rate_bytes_per_sec,
            )))
        }),
{
}

/// To schedule a packet is to ask the rate limit, to draw a jitter, and to
/// place the packet with both.
pub proof fn law_packets_are_scheduled_exactly(
    job: PacketJob,
    limiter: &mut RateLimiter,
    now: u128,
    lost: bool,
    last_deadline: &mut u128,
    result: Result<ScheduledPacket, PacketEvent>,
)
    requires
        call_ensures(schedule_packet, (job, limiter, now, lost, last_deadline), result),
    ensures
        ({
            let s = job.settings;
            let size = job.data@.len() as usize;
            let rate = s.rate_bytes_per_sec;
            &&& *final(limiter) == if s.rate_enabled {
                old(limiter).after(now, size, rate)
            } else {
                *old(limiter)
            }
            &&& result is Ok <==> (s.rate_enabled ==> old(limiter).admits(now, size, rate)) && !(
            s.loss_enabled && lost)
            &&& result is Err ==> *final(last_deadline) == *old(last_deadline)
            &&& result matches Err(event) ==> event.id == job.id && event.direction == job.direction
                && event.time_in_ms == job.time_in_ms && event.latency_ms == 0
                && event.time_out_ms is None && event.action == PacketAction::Dropped && event.size
                == size && event.src == job.src
            &&& result matches Ok(packet) ==> packet.job == job && packet.seq == job.id && (
            exists|jitter: i64| #[trigger]
                is_jitter(s, jitter) && packet.send_at == departure(
                    job,
                    jitter,
                    *old(last_deadline),
                )) && *final(last_deadline) == if packet.send_at > *old(last_deadline) {
                packet.send_at
            } else {
                *old(last_deadline)
            }
        }),
{
}

/// On a lane a packet keeps its number, its bytes, its sender, its times and
/// its settings, and goes the lane's way to the lane's end.
pub proof fn law_jobs_go_the_way_of_their_lane(
    packet: ClientPacket,
    direction: PacketDirection,
    dest_addr: SocketAddr,
)
    ensures
        ({
            let job = job_of(packet, direction, dest_addr);
            &&& job.dest_addr == dest_addr
            &&& job.direction == direction
            &&& job.id == packet.id
            &&& job.data == packet.data
            &&& job.src == packet.src
            &&& job.time_in_ms == packet.time_in_ms
            &&& job.arrival == packet.arrival
            &&& job.settings == packet.settings
        }),
{
}

/// A lane after a packet: one that passes stands behind all that leave no
/// later and before all that leave later, for the rest nothing has changed.
pub proof fn law_a_packet_joins_in_its_place(
    state: LaneState,
    job: PacketJob,
    admitted: bool,
    lost: bool,
    jitter: i64,
)
    requires
        queue::sorted(state.queue),
        departure(job, jitter, state.deadline) <= u128::MAX,
    ensures
        ({
            let after = with_packet(state, job, admitted, lost, jitter);
            let send_at = departure(job, jitter, state.deadline);
            if !admitted || (job.settings.loss_enabled && lost) {
                after == state
            } else {
                &&& after.deadline == if send_at > state.deadline {
                    send_at as u128
                } else {
                    state.deadline
                }
                &&& exists|k: int| #[trigger]
                    after.queue.remove(k) == state.queue && 0 <= k < after.queue.len()
                        && after.queue[k].job == job && after.queue[k].seq == job.id
                        && after.queue[k].send_at == send_at && (forall|i: int|
                        0 <= i < k ==> (#[trigger] after.queue[i]).send_at < send_at || (
                        after.queue[i].send_at == send_at && after.queue[i].seq <= job.id)) && (
                    forall|i: int|
                        k < i < after.queue.len() ==> (#[trigger] after.queue[i]).send_at > send_at
                            || (after.queue[i].send_at == send_at && after.queue[i].seq > job.id))
            }
        }),
{
    if passes(job.settings, admitted, lost) {
        let packet = scheduled(job, jitter, state.deadline);
        let after = with_packet(state, job, admitted, lost, jitter);
        let k = queue::place_of(state.queue, packet) as int;
        queue::lemma_place_splits(state.queue, packet);
        assert(after.queue.remove(k) =~= state.queue);
        assert(after.queue[k] == packet);
        assert forall|i: int| k < i < after.queue.len() implies (#[trigger] after.queue[i]).send_at
            > packet.send_at || (after.queue[i].send_at == packet.send_at && after.queue[i].seq
            > job.id) by {
            assert(after.queue[i] == state.queue[i - 1]);
            if i - 1 > k {
                assert(!state.queue[i - 1].before(state.queue[k]));
            }
        }
        assert forall|i: int| 0 <= i < k implies (#[trigger] after.queue[i]).send_at
            < packet.send_at || (after.queue[i].send_at == packet.send_at && after.queue[i].seq
            <= job.id) by {
            assert(after.queue[i] == state.queue[i]);
        }
    }
}

/// A lane takes in a packet, given the jitter that was drawn for it, as it
/// does any other: with its own way and end.
pub proof fn law_a_lane_takes_in_a_packet(
    lane: &mut Lane,
    packet: ClientPacket,
    admitted: bool,
    lost: bool,
    jitter: i64,
    event: Option<PacketEvent>,
)
    requires
        call_ensures(Lane::accept_with, (lane, packet, admitted, lost, jitter), event),
        old(lane).wf(),
        packet.arrival <= limiter::MAX_NANOS,
        is_jitter(packet.settings, jitter),
    ensures
        final(lane).direction == old(lane).direction,
        final(lane).dest_addr == old(lane).dest_addr,
        event is None <==> admitted && !(packet.settings.loss_enabled && lost),
        event matches Some(dropped) ==> final(lane).queue@ == old(lane).queue@
            && final(lane).last_deadline == old(lane).last_deadline && dropped.id == packet.id
            && dropped.direction == old(lane).direction && dropped.time_in_ms == packet.time_in_ms
            && dropped.latency_ms == 0 && dropped.time_out_ms is None && dropped.action
            == PacketAction::Dropped && dropped.size == packet.data@.len() as usize && dropped.src
            == packet.src,
        event is None ==> exists|k: int| #[trigger]
            final(lane).queue@.remove(k) == old(lane).queue@ && 0 <= k < final(lane).queue@.len() && ({
                let job = final(lane).queue@[k].job;
                &&& job.dest_addr == old(lane).dest_addr
                &&& job.direction == old(lane).direction
                &&& job.id == packet.id
                &&& job.data == packet.data
                &&& job.src == packet.src
                &&& job.settings == packet.settings
                &&& job.arrival == packet.arrival
                &&& job.time_in_ms == packet.time_in_ms
                &&& final(lane).queue@[k].seq == packet.id
                &&& final(lane).queue@[k].send_at == departure(
                    job,
                    jitter,
                    old(lane).last_deadline,
                )
                &&& final(lane).last_deadline == if final(lane).queue@[k].send_at > old(
                    lane).last_deadline {
                    final(lane).queue@[k].send_at
                } else {
                    old(lane).last_deadline
                }
            }),
{
    let job = job_of(packet, old(lane).direction, old(lane).dest_addr);
    let state = old(lane).state();
    if passes(packet.settings, admitted, lost) {
        let placed = scheduled(job, jitter, state.deadline);
        let k = queue::place_of(state.queue, placed) as int;
        queue::lemma_place_splits(state.queue, placed);
        assert(final(lane).state() == with_packet(state, job, admitted, lost, jitter));
        assert(final(lane).queue@ == state.queue.insert(k, placed));
        assert(final(lane).queue@.remove(k) =~= state.queue);
        assert(final(lane).queue@[k] == placed);
        assert(departure(job, jitter, state.deadline) <= u128::MAX);
    } else {
        assert(final(lane).state() == state);
    }
}

/// What leaves a lane at a time is the front of its queue, exactly the packets
/// whose time has come; the rest stays as it is.
pub proof fn law_the_due_packets_leave(lane: &mut Lane, now: u128, jobs: Vec<PacketJob>)
    requires
        call_ensures(Lane::send_due, (lane, now), jobs),
        old(lane).wf(),
    ensures
        final(lane).direction == old(lane).direction,
        final(lane).dest_addr == old(lane).dest_addr,
        final(lane).last_deadline == old(lane).last_deadline,
        jobs@.len() <= old(lane).queue@.len(),
        final(lane).queue@ == old(lane).queue@.skip(jobs@.len() as int),
        forall|i: int|
            0 <= i < jobs@.len() ==> #[trigger] jobs@[i] == old(lane).queue@[i].job && old(lane).queue@[i].send_at <= now,
        forall|i: int|
            0 <= i < final(lane).queue@.len() ==> (#[trigger] final(lane).queue@[i]).send_at > now,
{
    let state = old(lane).state();
    queue::lemma_due_count(state.queue, now);
    assert(final(lane).state() == without_due(state, now));
    let n = queue::due_count(state.queue, now) as int;
    assert forall|i: int| 0 <= i < final(lane).queue@.len() implies (
    #[trigger] final(lane).queue@[i]).send_at > now by {
        assert(final(lane).queue@[i] == state.queue[i + n]);
    }
    assert forall|i: int| 0 <= i < jobs@.len() implies #[trigger] jobs@[i] == old(lane).queue@[i].job && old(lane).queue@[i].send_at <= now by {
        assert(state.queue[i].send_at <= now);
    }
}

/// Who waits as long as a lane says waits until its first packet is due, and
/// no longer.
pub proof fn law_the_wait_ends_when_a_packet_is_due(lane: Lane, now: u128, wait: Option<u128>)
    requires
        call_ensures(Lane::wait_time, (&lane, now), wait),
    ensures
        wait is None <==> lane.queue@.len() == 0,
        wait matches Some(nanos) ==> now + nanos == if lane.queue@[0].send_at > now {
            lane.queue@[0].send_at
        } else {
            now
        },
{
}

/// A new lane goes the way it is told, and holds nothing.
pub proof fn law_new_lanes_are_empty(
    direction: PacketDirection,
    dest_addr: SocketAddr,
    now: u128,
    lane: Lane,
)
    requires
        call_ensures(Lane::new, (direction, dest_addr, now), lane),
    ensures
        lane.direction == direction,
        lane.dest_addr == dest_addr,
        lane.last_deadline == now,
        lane.queue@.len() == 0,
        lane.wf(),
{
    assert(lane.state().queue.len() == 0);
    assert(lane.state().deadline == now);
}

/// A lane stops exactly when a stop is asked for, nobody is left to ask, or no
/// packet will come any more. It sends exactly at a timer, what
/// [`Lane::send_due`] takes out, and nothing else touches its way.
pub proof fn law_a_lane_does_what_it_is_told(
    lane: &mut Lane,
    event: LaneEvent,
    limiter: &mut RateLimiter,
    action: LaneAction,
)
    requires
        call_ensures(Lane::step, (lane, event, limiter), action),
        old(lane).wf(),
    ensures
        final(lane).direction == old(lane).direction,
        final(lane).dest_addr == old(lane).dest_addr,
        action is Stop <==> (event is SourceClosed || (event matches LaneEvent::Signal {
            closed,
            requested,
        } && (closed || requested))),
        action is Send <==> event is TimerFired,
        action is Log ==> event is Packet,
        event !is Packet ==> *final(limiter) == *old(limiter),
        event !is Packet && event !is TimerFired ==> final(lane).queue@ == old(lane).queue@
            && final(lane).last_deadline == old(lane).last_deadline,
        event matches LaneEvent::TimerFired { now } ==> (action matches LaneAction::Send(jobs) && jobs@.len()
            <= old(lane).queue@.len() && final(lane).queue@ == old(lane).queue@.skip(
            jobs@.len() as int,
        ) && (forall|i: int|
            0 <= i < jobs@.len() ==> #[trigger] jobs@[i] == old(lane).queue@[i].job && old(lane).queue@[i].send_at <= now) && (forall|i: int|
            0 <= i < final(lane).queue@.len() ==> (#[trigger] final(lane).queue@[i]).send_at
                > now)),
{
    let state = old(lane).state();
    if let LaneEvent::TimerFired { now } = event {
        queue::lemma_due_count(state.queue, now);
        assert(final(lane).state() == without_due(state, now));
        let n = queue::due_count(state.queue, now) as int;
        assert forall|i: int| 0 <= i < final(lane).queue@.len() implies (
        #[trigger] final(lane).queue@[i]).send_at > now by {
            assert(final(lane).queue@[i] == state.queue[i + n]);
        }
        assert forall|i: int| 0 <= i < n implies state.queue[i].send_at <= now by {
            assert(state.queue[i].send_at <= now);
        }
    } else if event !is Packet {
        assert(final(lane).state() == state);
    }
}

/// A packet that a lane is told of asks the rate limit where it is on, and is
/// told as dropped exactly where it does not pass; otherwise it waits in the
/// lane, to leave to the lane's end with the bytes it came with.
pub proof fn law_a_lane_is_told_of_a_packet(
    lane: &mut Lane,
    packet: ClientPacket,
    now: u128,
    lost: bool,
    limiter: &mut RateLimiter,
    action: LaneAction,
)
    requires
        call_ensures(Lane::step, (lane, LaneEvent::Packet { packet, now, lost }, limiter), action),
        old(lane).wf(),
        packet.arrival <= limiter::MAX_NANOS,
    ensures
        ({
            let s = packet.settings;
            let size = packet.data@.len() as usize;
            let rate = s.rate_bytes_per_sec;
            let passed = (s.rate_enabled ==> old(limiter).admits(now, size, rate)) && !(
            s.loss_enabled && lost);
            &&& *final(limiter) == if s.rate_enabled {
                old(limiter).after(now, size, rate)
            } else {
                *old(limiter)
            }
            &&& passed <==> action is Wait
            &&& !passed <==> action is Log
            &&& action matches LaneAction::Log(event) ==> final(lane).queue@ == old(lane).queue@
                && final(lane).last_deadline == old(lane).last_deadline && event.id == packet.id
                && event.direction == old(lane).direction && event.time_in_ms == packet.time_in_ms
                && event.latency_ms == 0 && event.time_out_ms is None && event.action
                == PacketAction::Dropped && event.size == size && event.src == packet.src
            &&& passed ==> exists|k: int| #[trigger]
                final(lane).queue@.remove(k) == old(lane).queue@ && 0 <= k < final(lane).queue@.len() && ({
                    let job = final(lane).queue@[k].job;
                    &&& job.dest_addr == old(lane).dest_addr
                    &&& job.direction == old(lane).direction
                    &&& job.id == packet.id
                    &&& job.data == packet.data
                    &&& job.src == packet.src
                    &&& job.settings == packet.settings
                    &&& job.arrival == packet.arrival
                    &&& job.time_in_ms == packet.time_in_ms
                    &&& final(lane).queue@[k].seq == packet.id
                    &&& exists|jitter: i64| #[trigger]
                        is_jitter(s, jitter) && final(lane).queue@[k].send_at == departure(
                            job,
                            jitter,
                            old(lane).last_deadline,
                        )
                    &&& final(lane).last_deadline == if final(lane).queue@[k].send_at > old(
                        lane).last_deadline {
                        final(lane).queue@[k].send_at
                    } else {
                        old(lane).last_deadline
                    }
                })
        }),
{
    let s = packet.settings;
    let job = job_of(packet, old(lane).direction, old(lane).dest_addr);
    let state = old(lane).state();
    let admitted = within_rate(s, job.size(), *old(limiter), now);
    let jitter = choose|jitter: i64| #[trigger]
        is_jitter(s, jitter) && final(lane).state() == with_packet(
            state,
            job,
            admitted,
            lost,
            jitter,
        );
    assert(final(lane).state() == with_packet(state, job, admitted, lost, jitter));
    if passes(s, admitted, lost) {
        let placed = scheduled(job, jitter, state.deadline);
        let k = queue::place_of(state.queue, placed) as int;
        queue::lemma_place_splits(state.queue, placed);
        assert(final(lane).queue@ == state.queue.insert(k, placed));
        assert(final(lane).queue@.remove(k) =~= state.queue);
        assert(final(lane).queue@[k] == placed);
        assert(departure(job, jitter, state.deadline) <= u128::MAX);
    }
}

/// A lane that takes in a packet by itself does so as one that is told of it.
pub proof fn law_a_lane_accepts_a_packet(
    lane: &mut Lane,
    packet: ClientPacket,
    limiter: &mut RateLimiter,
    now: u128,
    lost: bool,
    event: Option<PacketEvent>,
)
    requires
        call_ensures(Lane::accept, (lane, packet, limiter, now, lost), event),
        old(lane).wf(),
        packet.arrival <= limiter::MAX_NANOS,
    ensures
        ({
            let s = packet.settings;
            let size = packet.data@.len() as usize;
            let rate = s.rate_bytes_per_sec;
            let passed = (s.rate_enabled ==> old(limiter).admits(now, size, rate)) && !(
            s.loss_enabled && lost);
            &&& final(lane).direction == old(lane).direction
            &&& final(lane).dest_addr == old(lane).dest_addr
            &&& *final(limiter) == if s.rate_enabled {
                old(limiter).after(now, size, rate)
            } else {
                *old(limiter)
            }
            &&& passed <==> event is None
            &&& event matches Some(dropped) ==> final(lane).queue@ == old(lane).queue@ && final(
                lane).last_deadline == old(lane).last_deadline && dropped.id == packet.id
                && dropped.direction == old(lane).direction && dropped.time_in_ms
                == packet.time_in_ms && dropped.latency_ms == 0 && dropped.time_out_ms is None
                && dropped.action == PacketAction::Dropped && dropped.size == size && dropped.src
                == packet.src
            &&& passed ==> exists|k: int| #[trigger]
                final(lane).queue@.remove(k) == old(lane).queue@ && 0 <= k < final(
                    lane).queue@.len() && ({
                    let job = final(lane).queue@[k].job;
                    &&& job.dest_addr == old(lane).dest_addr
                    &&& job.direction == old(lane).direction
                    &&& job.id == packet.id
                    &&& job.data == packet.data
                    &&& job.src == packet.src
                    &&& job.settings == packet.settings
                    &&& job.arrival == packet.arrival
                    &&& job.time_in_ms == packet.time_in_ms
                    &&& final(lane).queue@[k].seq == packet.id
                    &&& exists|jitter: i64| #[trigger]
                        is_jitter(s, jitter) && final(lane).queue@[k].send_at == departure(
                            job,
                            jitter,
                            old(lane).last_deadline,
                        )
                })
        }),
{
    let s = packet.settings;
    let job = job_of(packet, old(lane).direction, old(lane).dest_addr);
    let state = old(lane).state();
    let admitted = within_rate(s, job.size(), *old(limiter), now);
    let jitter = choose|jitter: i64| #[trigger]
        is_jitter(s, jitter) && final(lane).state() == with_packet(
            state,
            job,
            admitted,
            lost,
            jitter,
        );
    assert(final(lane).state() == with_packet(state, job, admitted, lost, jitter));
    if passes(s, admitted, lost) {
        let placed = scheduled(job, jitter, state.deadline);
        let k = queue::place_of(state.queue, placed) as int;
        queue::lemma_place_splits(state.queue, placed);
        assert(final(lane).queue@ == state.queue.insert(k, placed));
        assert(final(lane).queue@.remove(k) =~= state.queue);
        assert(final(lane).queue@[k] == placed);
        assert(departure(job, jitter, state.deadline) <= u128::MAX);
    }
}

} // verus!
