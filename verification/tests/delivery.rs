use rand::Rng;
use udptoxy::double::Double;
use udptoxy::lane::{
    draw_jitter, draws_loss, jitter_range, place_packet, schedule_packet, Lane, LaneAction,
    LaneEvent,
};
use udptoxy::limiter::RateLimiter;
use udptoxy::packet::{
    sent_event, ClientPacket, PacketCounter, PacketJob, ScheduledPacket, FIRST_PACKET_ID,
};
use udptoxy::queue::SendQueue;
use udptoxy::types::{
    Ipv4Addr, LossPercent, PacketAction, PacketDirection, ProxySettings, SocketAddr,
};

const MS: u128 = 1_000_000;

fn base_settings() -> ProxySettings {
    ProxySettings {
        latency_ms: 0,
        jitter_ms: 0,
        loss_percent: LossPercent::clamped(Double { bits: 0 }),
        rate_bytes_per_sec: 0,
        latency_enabled: false,
        jitter_enabled: false,
        loss_enabled: false,
        rate_enabled: false,
    }
}

fn percent(x: f64) -> LossPercent {
    LossPercent::clamped(Double { bits: x.to_bits() })
}

fn client() -> SocketAddr {
    SocketAddr::new(Ipv4Addr::new(127, 0, 0, 1), 5555)
}

fn server() -> SocketAddr {
    SocketAddr::new(Ipv4Addr::new(127, 0, 0, 1), 9001)
}

fn packet(id: u64, data: &[u8], arrival: u128, settings: ProxySettings) -> ClientPacket {
    ClientPacket::received(id, data.to_vec(), client(), arrival, settings)
}

fn job(id: u64, arrival: u128, settings: ProxySettings) -> PacketJob {
    PacketJob {
        id,
        data: vec![1, 2, 3],
        src: client(),
        dest_addr: server(),
        time_in_ms: arrival / MS,
        arrival,
        settings,
        direction: PacketDirection::InToOut,
    }
}

fn lane() -> Lane {
    Lane::new(PacketDirection::InToOut, server(), 0)
}

/// Draws whether a packet is lost, as a proxy does.
fn draw_loss(settings: &ProxySettings) -> bool {
    rand::rng().random_bool(f64::from_bits(settings.loss_percent.probability().bits))
}

/// Hands a packet to a lane.
fn hand(lane: &mut Lane, packet: ClientPacket) -> LaneAction {
    let now = packet.arrival;
    let mut limiter = RateLimiter::new(0);
    let lost = draws_loss(&packet, &limiter, now) && draw_loss(&packet.settings);
    lane.step(LaneEvent::Packet { packet, now, lost }, &mut limiter)
}

/// What leaves at a time.
fn leaving(lane: &mut Lane, now: u128) -> Vec<PacketJob> {
    match lane.step(LaneEvent::TimerFired { now }, &mut RateLimiter::new(0)) {
        LaneAction::Send(jobs) => jobs,
        _ => panic!("a timer sends"),
    }
}

#[test]
fn forwards_packet() {
    let mut lane = lane();
    assert!(matches!(hand(&mut lane, packet(1, b"hello", 5, base_settings())), LaneAction::Wait));
    let sent = leaving(&mut lane, 5);
    assert_eq!(sent.len(), 1);
    assert_eq!(sent[0].data, b"hello");
    assert_eq!(sent[0].dest_addr, server());
    assert_eq!(lane.queue.len(), 0);
}

#[test]
fn drops_when_loss_100() {
    let mut settings = base_settings();
    settings.loss_percent = percent(100.0);
    settings.loss_enabled = true;
    let mut lane = lane();
    for id in 1..100 {
        match hand(&mut lane, packet(id, b"drop", 2 * MS, settings)) {
            LaneAction::Log(event) => {
                assert_eq!(event.id, id);
                assert_eq!(event.action, PacketAction::Dropped);
                assert_eq!(event.direction, PacketDirection::InToOut);
                assert_eq!((event.time_in_ms, event.latency_ms, event.time_out_ms), (2, 0, None));
                assert_eq!((event.size, event.src), (4, client()));
            }
            _ => panic!("packet unexpectedly kept"),
        }
    }
    assert!(leaving(&mut lane, 200 * MS).is_empty(), "packet unexpectedly received");
}

#[test]
fn loss_0_drops_nothing() {
    let mut settings = base_settings();
    settings.loss_enabled = true;
    let mut lane = lane();
    for id in 1..100 {
        assert!(matches!(hand(&mut lane, packet(id, b"x", 0, settings)), LaneAction::Wait));
    }
    assert_eq!(leaving(&mut lane, 0).len(), 99);
}

#[test]
fn preserves_order_with_latency() {
    let mut settings = base_settings();
    settings.latency_ms = 10;
    settings.latency_enabled = true;
    let mut lane = lane();
    let count = 20u32;
    let mut received = Vec::new();
    for seq in 0..count {
        let arrival = seq as u128 * 1_000;
        hand(&mut lane, packet(seq as u64 + 1, &seq.to_be_bytes(), arrival, settings));
    }
    assert_eq!(lane.wait_time(0), Some(10 * MS));
    for now in 0..500u128 {
        for job in leaving(&mut lane, now * MS) {
            assert!(job.arrival + 10 * MS <= now * MS);
            received.push(u32::from_be_bytes([job.data[0], job.data[1], job.data[2], job.data[3]]));
        }
    }
    let expected: Vec<u32> = (0..count).collect();
    assert_eq!(received, expected);
}

#[test]
fn less_latency_does_not_overtake() {
    let mut slow = base_settings();
    slow.latency_ms = 50;
    slow.latency_enabled = true;
    let mut lane = lane();
    hand(&mut lane, packet(1, b"a", 0, slow));
    hand(&mut lane, packet(2, b"b", MS, base_settings()));
    assert!(leaving(&mut lane, 49 * MS).is_empty());
    let sent: Vec<u64> = leaving(&mut lane, 50 * MS).iter().map(|job| job.id).collect();
    assert_eq!(sent, vec![1, 2]);
}

#[test]
fn jitter_can_reorder() {
    let mut settings = base_settings();
    settings.jitter_ms = 50;
    settings.jitter_enabled = true;
    let mut lane = lane();
    let count = 100u32;
    for seq in 0..count {
        hand(&mut lane, packet(seq as u64 + 1, &seq.to_be_bytes(), seq as u128, settings));
    }
    let mut received = Vec::new();
    for now in 0..2_000u128 {
        for job in leaving(&mut lane, now * MS) {
            received.push(job.id);
        }
    }
    assert_eq!(received.len(), count as usize);
    let mut out_of_order = false;
    for i in 1..received.len() {
        if received[i] < received[i - 1] {
            out_of_order = true;
        }
    }
    assert!(out_of_order, "expected jitter to reorder at least one packet");
    received.sort();
    let all: Vec<u64> = (1..=count as u64).collect();
    assert_eq!(received, all);
}

#[test]
fn draws_jitter_within_its_bound() {
    let mut settings = base_settings();
    assert_eq!(draw_jitter(&settings), 0);
    settings.jitter_ms = 3;
    assert_eq!(draw_jitter(&settings), 0);
    settings.jitter_enabled = true;
    let draws: Vec<i64> = (0..1_000).map(|_| draw_jitter(&settings)).collect();
    for value in -3..=3 {
        assert!(draws.contains(&value));
    }
    assert!(draws.iter().all(|draw| (-3..=3).contains(draw)));
    settings.jitter_ms = u64::MAX;
    assert_eq!(draw_jitter(&settings), 0);
}

#[test]
fn jitter_goes_as_far_up_as_down() {
    let mut settings = base_settings();
    settings.jitter_ms = 50;
    assert_eq!(jitter_range(&settings), (0, 0));
    settings.jitter_enabled = true;
    assert_eq!(jitter_range(&settings), (-50, 50));
    settings.jitter_ms = i64::MAX as u64;
    assert_eq!(jitter_range(&settings), (-i64::MAX, i64::MAX));
    settings.jitter_ms = 1 << 63;
    assert_eq!(jitter_range(&settings), (0, 0));
}

#[test]
fn places_a_packet_after_its_delay() {
    let mut settings = base_settings();
    settings.latency_ms = 10;
    settings.latency_enabled = true;
    settings.jitter_ms = 30;
    settings.jitter_enabled = true;
    let mut deadline = 100 * MS;
    let placed = place_packet(job(4, 50 * MS, settings), true, false, 5, &mut deadline).ok().unwrap();
    assert_eq!((placed.send_at, placed.seq, deadline), (65 * MS, 4, 100 * MS));
    let early = place_packet(job(5, 50 * MS, settings), true, false, -30, &mut deadline).ok().unwrap();
    assert_eq!((early.send_at, deadline), (50 * MS, 100 * MS));
    let late = place_packet(job(6, 90 * MS, settings), true, false, 30, &mut deadline).ok().unwrap();
    assert_eq!((late.send_at, deadline), (130 * MS, 130 * MS));
    settings.jitter_enabled = false;
    let behind = place_packet(job(7, 90 * MS, settings), true, false, 0, &mut deadline).ok().unwrap();
    assert_eq!((behind.send_at, deadline), (130 * MS, 130 * MS));
}

#[test]
fn a_latency_beyond_63_bits_is_none() {
    let mut settings = base_settings();
    settings.latency_ms = u64::MAX;
    settings.latency_enabled = true;
    let mut deadline = 0;
    let placed = place_packet(job(1, 7, settings), true, false, 0, &mut deadline).ok().unwrap();
    assert_eq!(placed.send_at, 7);
    settings.latency_ms = i64::MAX as u64;
    let placed = place_packet(job(2, 7, settings), true, false, 0, &mut deadline).ok().unwrap();
    assert_eq!(placed.send_at, 7 + i64::MAX as u128 * MS);
}

#[test]
fn a_packet_that_is_not_admitted_is_dropped() {
    let mut deadline = 9;
    let event = place_packet(job(3, 5 * MS, base_settings()), false, false, 0, &mut deadline).err().unwrap();
    assert_eq!((event.id, event.action, event.size, event.time_in_ms), (3, PacketAction::Dropped, 3, 5));
    assert_eq!(deadline, 9);
    let mut settings = base_settings();
    settings.rate_bytes_per_sec = 2;
    settings.rate_enabled = true;
    let mut limiter = RateLimiter::new(0);
    let event = schedule_packet(job(4, 5 * MS, settings), &mut limiter, 6 * MS, false, &mut deadline);
    assert_eq!(event.err().unwrap().action, PacketAction::Dropped);
    assert_eq!((limiter.tokens, limiter.last, limiter.last_rate, deadline), (2, 6 * MS, 2, 9));
    assert!(matches!(hand(&mut lane(), packet(1, b"abc", 0, settings)), LaneAction::Log(_)));
    assert!(matches!(hand(&mut lane(), packet(1, b"ab", 0, settings)), LaneAction::Wait));
}

#[test]
fn a_draw_counts_only_where_loss_is_on() {
    let mut deadline = 0;
    let mut limiter = RateLimiter::new(0);
    assert!(schedule_packet(job(1, 0, base_settings()), &mut limiter, 0, true, &mut deadline).is_ok());
    let mut settings = base_settings();
    settings.loss_enabled = true;
    assert!(schedule_packet(job(1, 0, settings), &mut limiter, 0, true, &mut deadline).is_err());
    assert!(schedule_packet(job(1, 0, settings), &mut limiter, 0, false, &mut deadline).is_ok());
}

#[test]
fn a_lost_packet_has_used_its_tokens() {
    let mut settings = base_settings();
    settings.loss_enabled = true;
    settings.rate_enabled = true;
    settings.rate_bytes_per_sec = 5;
    let mut limiter = RateLimiter::new(0);
    let mut lane = lane();
    let lost = lane.accept(packet(1, b"abc", 0, settings), &mut limiter, 0, true);
    assert_eq!(lost.unwrap().id, 1);
    assert_eq!(limiter.tokens, 2);
    assert_eq!(lane.accept(packet(2, b"abc", 0, settings), &mut limiter, 0, false).unwrap().id, 2);
    assert!(lane.accept(packet(3, b"ab", 0, settings), &mut limiter, 0, false).is_none());
    assert_eq!(limiter.tokens, 0);
}

#[test]
fn a_lane_stops_when_it_is_told() {
    let mut lane = lane();
    let mut limiter = RateLimiter::new(0);
    for (closed, requested) in [(false, true), (true, false), (true, true)] {
        let action = lane.step(LaneEvent::Signal { closed, requested }, &mut limiter);
        assert!(matches!(action, LaneAction::Stop));
    }
    let action = lane.step(LaneEvent::Signal { closed: false, requested: false }, &mut limiter);
    assert!(matches!(action, LaneAction::Wait));
    assert!(matches!(lane.step(LaneEvent::SourceClosed, &mut limiter), LaneAction::Stop));
}

#[test]
fn a_lane_waits_for_the_next_packet() {
    let mut lane = lane();
    assert_eq!(lane.wait_time(0), None);
    let mut settings = base_settings();
    settings.latency_ms = 10;
    settings.latency_enabled = true;
    assert!(lane.accept_with(packet(1, b"x", 0, settings), true, false, 0).is_none());
    assert_eq!(lane.wait_time(4 * MS), Some(6 * MS));
    assert_eq!(lane.wait_time(10 * MS), Some(0));
    assert_eq!(lane.wait_time(11 * MS), Some(0));
}

fn scheduled(send_at: u128, seq: u64) -> ScheduledPacket {
    ScheduledPacket { send_at, seq, job: job(seq, 0, base_settings()) }
}

#[test]
fn packets_are_ordered_by_time_and_number() {
    assert!(scheduled(1, 9) < scheduled(2, 1));
    assert!(scheduled(2, 1) < scheduled(2, 2));
    assert!(scheduled(2, 2) == scheduled(2, 2));
    assert!(scheduled(3, 0) > scheduled(2, 7));
    assert!(scheduled(1, 1).is_before(&scheduled(1, 2)));
}

#[test]
fn the_queue_hands_out_the_first() {
    let mut queue = SendQueue::new();
    for (send_at, seq) in [(5, 1), (3, 2), (5, 0), (1, 7), (9, 3), (3, 1)] {
        queue.push(scheduled(send_at, seq));
    }
    assert_eq!(queue.len(), 6);
    let mut order = Vec::new();
    while let Some(packet) = queue.pop() {
        order.push((packet.send_at, packet.seq));
    }
    assert_eq!(order, vec![(1, 7), (3, 1), (3, 2), (5, 0), (5, 1), (9, 3)]);
    assert_eq!(queue.next_time(), None);
}

#[test]
fn tells_what_became_of_a_packet() {
    let job = job(8, 3 * MS, base_settings());
    let sent = sent_event(&job, 15 * MS + 999_999, Some(16 * MS));
    assert_eq!((sent.id, sent.action, sent.latency_ms, sent.time_out_ms), (8, PacketAction::Forwarded, 12, Some(16)));
    assert_eq!((sent.time_in_ms, sent.size, sent.src), (3, 3, client()));
    let failed = sent_event(&job, 15 * MS, None);
    assert_eq!((failed.action, failed.latency_ms, failed.time_out_ms), (PacketAction::Error, 12, None));
    assert_eq!(sent_event(&job, 0, None).latency_ms, 0);
    assert_eq!(sent_event(&job, 3 * MS + (1u128 << 64) * MS, None).latency_ms, 0);
}

#[test]
fn nothing_switched_on_changes_nothing() {
    let mut settings = base_settings();
    settings.latency_ms = 70;
    settings.jitter_ms = 70;
    settings.loss_percent = percent(100.0);
    settings.rate_bytes_per_sec = 1;
    let mut limiter = RateLimiter::new(0);
    let mut deadline = 0;
    let sent = schedule_packet(job(1, 9, settings), &mut limiter, 9, true, &mut deadline);
    assert_eq!(sent.ok().unwrap().send_at, 9);
    assert_eq!((limiter.tokens, limiter.last_rate), (0, 0));
}

#[test]
fn a_packet_knows_when_it_came() {
    let packet = packet(1, b"x", 12 * MS + 999_999, base_settings());
    assert_eq!((packet.time_in_ms, packet.arrival), (12, 12 * MS + 999_999));
}

#[test]
fn packets_are_numbered_as_they_come() {
    let mut counter = PacketCounter::new();
    let mut settings = base_settings();
    let mut packets = Vec::new();
    for i in 0..5u8 {
        settings.latency_ms = i as u64;
        let src = if i % 2 == 0 { client() } else { server() };
        packets.push(counter.receive(vec![i; 3], src, i as u128 * MS, settings));
    }
    settings.latency_ms = 99;
    assert_eq!(FIRST_PACKET_ID, 1);
    for (i, packet) in packets.iter().enumerate() {
        assert_eq!(packet.id, i as u64 + 1);
        assert_eq!(packet.data, vec![i as u8; 3]);
        assert_eq!(packet.src, if i % 2 == 0 { client() } else { server() });
        assert_eq!((packet.time_in_ms, packet.settings.latency_ms), (i as u128, i as u64));
    }
    assert_eq!(counter.next_id(), 6);
}

#[test]
fn numbers_start_over_after_the_greatest() {
    let mut counter = PacketCounter { next: u64::MAX };
    assert_eq!((counter.next_id(), counter.next_id(), counter.next_id()), (u64::MAX, 0, 1));
}

#[test]
fn the_loss_is_drawn_behind_the_rate_limit() {
    let mut settings = base_settings();
    let limiter = RateLimiter::new(0);
    assert!(!draws_loss(&packet(1, b"abc", 0, settings), &limiter, 0));
    settings.loss_enabled = true;
    assert!(draws_loss(&packet(1, b"abc", 0, settings), &limiter, 0));
    settings.rate_enabled = true;
    settings.rate_bytes_per_sec = 2;
    assert!(!draws_loss(&packet(1, b"abc", 0, settings), &limiter, 0));
    assert!(draws_loss(&packet(1, b"ab", 0, settings), &limiter, 0));
}
