use std::collections::VecDeque;
use udptoxy::double::Double;
use udptoxy::packet::{sent_event, PacketJob};
use udptoxy::screen::{
    build_header, build_table, on_off, setting_style, table_header, table_widths, ColumnWidth,
    Span, TextColor, TextStyle,
};
use udptoxy::types::{
    AdjustDirection, Args, Ipv4Addr, LossPercent, PacketAction, PacketDirection, PacketEvent,
    ProxySettings, SettingKind, SocketAddr,
};
use udptoxy::ui::{adjust_setting, handle_key, newest, on_key, visible_rows, Key, UiState};

fn args() -> Args {
    Args {
        in_addr: "19876".to_string(),
        out_addr: "19877".to_string(),
        latency_ms: 0,
        jitter_ms: 0,
        loss_percent: Double { bits: 0 },
        rate_bytes_per_sec: 0,
    }
}

fn settings() -> ProxySettings {
    ProxySettings::from_args(&args())
}

fn percent(settings: &ProxySettings) -> f64 {
    f64::from_bits(settings.loss_percent.get().bits)
}

fn lines_of(settings: &ProxySettings, selected: SettingKind, width: u16) -> Vec<Vec<Span>> {
    let inner = SocketAddr::new(Ipv4Addr::new(0, 0, 0, 0), 19876);
    let outer = SocketAddr::new(Ipv4Addr::new(127, 0, 0, 1), 19877);
    build_header(inner, outer, 200, settings, selected, width).lines
}

fn text_of(line: &Vec<Span>) -> String {
    line.iter().map(|span| span.text.as_str()).collect()
}

fn screen(settings: &ProxySettings, width: u16) -> Vec<String> {
    lines_of(settings, SettingKind::Latency, width).iter().map(text_of).collect()
}

fn src() -> SocketAddr {
    SocketAddr::new(Ipv4Addr::new(127, 0, 0, 1), 4242)
}

#[test]
fn ui_initial_render() {
    assert_eq!(
        screen(&settings(), 120),
        vec![
            "udptoxy  In: 0.0.0.0:19876  Out: 127.0.0.1:19877  Refresh: 200ms",
            "Latency [l] OFF 0ms  |  Jitter [j] OFF 0ms  |  Loss [p] OFF 0.0%  |  Rate [r] OFF 0B/s",
            "Select [Tab or Left/Right]  Adjust [+/- or Up/Down]  Quit [q]",
        ]
    );
    let header: Vec<String> = table_header();
    assert_eq!(header, vec!["#", "dir", "in(ms)", "lat(ms)", "out(ms)", "action", "bytes", "src"]);
}

#[test]
fn ui_toggle_latency() {
    let mut settings = settings();
    let mut ui = UiState::new();
    assert!(!on_key(true, Key::Char('l'), &mut settings, &mut ui));
    let screen = screen(&settings, 120).join("\n");
    assert!(screen.contains("Latency [l] ON 0ms"));
    handle_key(Key::Char('l'), &mut settings, &mut ui);
    assert!(!settings.latency_enabled);
}

#[test]
fn ui_adjust_latency_value() {
    let mut settings = settings();
    let mut ui = UiState::new();
    on_key(true, Key::Up, &mut settings, &mut ui);
    assert!(screen(&settings, 120).join("\n").contains("Latency [l] ON 10ms"));
    on_key(true, Key::Up, &mut settings, &mut ui);
    assert!(screen(&settings, 120).join("\n").contains("Latency [l] ON 20ms"));
}

#[test]
fn ui_packet_table_shows_forward() {
    let job = PacketJob {
        id: 1,
        data: b"hello".to_vec(),
        src: src(),
        dest_addr: src(),
        time_in_ms: 12,
        arrival: 12_000_000,
        settings: settings(),
        direction: PacketDirection::InToOut,
    };
    let mut ui = UiState::new();
    ui.events.push(sent_event(&job, 12_500_000, Some(13_000_000)));
    let rows = build_table(&ui.events).rows;
    assert_eq!(rows, vec![vec!["1", "in->out", "12", "0", "13", "forward", "5", "127.0.0.1:4242"]]);
}

#[test]
fn ui_quit_exits() {
    let mut settings = settings();
    let mut ui = UiState::new();
    assert!(on_key(true, Key::Char('q'), &mut settings, &mut ui));
    assert!(!on_key(false, Key::Char('q'), &mut settings, &mut ui));
}

#[test]
fn rows_show_drops_and_errors() {
    let mut event = PacketEvent {
        id: 77,
        direction: PacketDirection::OutToIn,
        time_in_ms: 123456789012345678901234567890,
        latency_ms: u64::MAX,
        time_out_ms: None,
        action: PacketAction::Dropped,
        size: 65535,
        src: src(),
    };
    let mut events = vec![event];
    event.action = PacketAction::Error;
    events.push(event);
    let rows = build_table(&events).rows;
    assert_eq!(
        rows[0],
        vec![
            "77", "out->in", "123456789012345678901234567890", "18446744073709551615", "-", "drop", "65535",
            "127.0.0.1:4242",
        ]
    );
    assert_eq!(rows[1][5], "error");
}

#[test]
fn names_of_actions_and_directions() {
    assert_eq!(PacketAction::Forwarded.as_str(), "forward");
    assert_eq!(PacketAction::Dropped.as_str(), "drop");
    assert_eq!(PacketAction::Error.as_str(), "error");
    assert_eq!(PacketDirection::InToOut.as_str(), "in->out");
    assert_eq!(PacketDirection::OutToIn.as_str(), "out->in");
    assert_eq!((on_off(true), on_off(false)), ("ON", "OFF"));
}

#[test]
fn settings_from_arguments() {
    let mut args = args();
    let off = ProxySettings::from_args(&args);
    assert!(!off.latency_enabled && !off.jitter_enabled && !off.loss_enabled && !off.rate_enabled);
    args.latency_ms = 1;
    args.jitter_ms = 2;
    args.loss_percent = Double { bits: 250.0f64.to_bits() };
    args.rate_bytes_per_sec = 3;
    let on = ProxySettings::from_args(&args);
    assert!(on.latency_enabled && on.jitter_enabled && on.loss_enabled && on.rate_enabled);
    assert_eq!((on.latency_ms, on.jitter_ms, on.rate_bytes_per_sec), (1, 2, 3));
    assert_eq!(percent(&on), 100.0);
    args.loss_percent = Double { bits: (-5.0f64).to_bits() };
    let none = ProxySettings::from_args(&args);
    assert_eq!(percent(&none), 0.0);
    assert!(!none.loss_enabled);
    args.loss_percent = Double { bits: f64::NAN.to_bits() };
    assert!(!ProxySettings::from_args(&args).loss_enabled);
}

#[test]
fn selection_cycles() {
    let mut settings = settings();
    let mut ui = UiState::new();
    let mut seen = Vec::new();
    for _ in 0..4 {
        handle_key(Key::Tab, &mut settings, &mut ui);
        seen.push(ui.selected);
    }
    assert_eq!(seen, vec![SettingKind::Jitter, SettingKind::Loss, SettingKind::Rate, SettingKind::Latency]);
    handle_key(Key::BackTab, &mut settings, &mut ui);
    assert_eq!(ui.selected, SettingKind::Rate);
    handle_key(Key::Left, &mut settings, &mut ui);
    assert_eq!(ui.selected, SettingKind::Loss);
    handle_key(Key::Right, &mut settings, &mut ui);
    assert_eq!(ui.selected, SettingKind::Rate);
    for kind in seen {
        assert_eq!(kind.next().prev(), kind);
        assert_eq!(kind.prev().next(), kind);
    }
}

#[test]
fn toggles_loss_and_rate() {
    let mut settings = settings();
    let mut ui = UiState::new();
    handle_key(Key::Char('p'), &mut settings, &mut ui);
    assert!(settings.loss_enabled);
    assert_eq!(percent(&settings), 1.0);
    handle_key(Key::Char('p'), &mut settings, &mut ui);
    assert!(!settings.loss_enabled);
    assert_eq!(percent(&settings), 1.0);
    handle_key(Key::Char('r'), &mut settings, &mut ui);
    assert!(settings.rate_enabled);
    assert_eq!(settings.rate_bytes_per_sec, 10_000);
    handle_key(Key::Char('r'), &mut settings, &mut ui);
    assert!(!settings.rate_enabled);
    assert_eq!(settings.rate_bytes_per_sec, 10_000);
    handle_key(Key::Char('j'), &mut settings, &mut ui);
    assert!(settings.jitter_enabled);
    settings.loss_percent = LossPercent::clamped(Double { bits: f64::NAN.to_bits() });
    handle_key(Key::Char('p'), &mut settings, &mut ui);
    assert!(settings.loss_enabled && percent(&settings).is_nan());
}

#[test]
fn adjusts_each_setting() {
    let mut s = settings();
    adjust_setting(&mut s, SettingKind::Latency, AdjustDirection::Decrease);
    assert_eq!((s.latency_ms, s.latency_enabled), (0, false));
    s.latency_ms = u64::MAX - 3;
    adjust_setting(&mut s, SettingKind::Latency, AdjustDirection::Increase);
    assert_eq!((s.latency_ms, s.latency_enabled), (u64::MAX, true));
    s.jitter_ms = 15;
    adjust_setting(&mut s, SettingKind::Jitter, AdjustDirection::Decrease);
    assert_eq!((s.jitter_ms, s.jitter_enabled), (5, true));
    adjust_setting(&mut s, SettingKind::Jitter, AdjustDirection::Decrease);
    assert_eq!((s.jitter_ms, s.jitter_enabled), (0, false));
    adjust_setting(&mut s, SettingKind::Loss, AdjustDirection::Increase);
    assert_eq!((percent(&s), s.loss_enabled), (1.0, true));
    adjust_setting(&mut s, SettingKind::Loss, AdjustDirection::Decrease);
    assert_eq!((percent(&s), s.loss_enabled), (0.0, false));
    adjust_setting(&mut s, SettingKind::Rate, AdjustDirection::Increase);
    assert_eq!((s.rate_bytes_per_sec, s.rate_enabled), (10_000, true));
    adjust_setting(&mut s, SettingKind::Rate, AdjustDirection::Decrease);
    assert_eq!((s.rate_bytes_per_sec, s.rate_enabled), (0, false));
}

#[test]
fn keys_adjust_the_selected_setting() {
    let mut s = settings();
    let mut ui = UiState::new();
    ui.selected = SettingKind::Rate;
    for key in [Key::Char('+'), Key::Char('='), Key::Up] {
        handle_key(key, &mut s, &mut ui);
    }
    assert_eq!(s.rate_bytes_per_sec, 50_000);
    for key in [Key::Char('-'), Key::Down] {
        handle_key(key, &mut s, &mut ui);
    }
    assert_eq!(s.rate_bytes_per_sec, 10_000);
    assert!(!handle_key(Key::Char('x'), &mut s, &mut ui));
    assert!(!handle_key(Key::Other, &mut s, &mut ui));
    assert_eq!(s.rate_bytes_per_sec, 10_000);
}

#[test]
fn splits_the_settings_on_a_narrow_screen() {
    let s = settings();
    let whole = screen(&s, 120)[1].len() as u16;
    assert_eq!(screen(&s, whole + 2).len(), 3);
    let split = screen(&s, whole + 1);
    assert_eq!(split.len(), 4);
    assert_eq!(split[1], "Latency [l] OFF 0ms  |  Jitter [j] OFF 0ms");
    assert_eq!(split[2], "Loss [p] OFF 0.0%  |  Rate [r] OFF 0B/s");
    assert_eq!(screen(&s, 2).len(), 3);
    assert_eq!(screen(&s, 0).len(), 3);
    assert_eq!(screen(&s, 3).len(), 4);
}

#[test]
fn styles_show_what_is_on_and_selected() {
    let green = TextStyle { color: Some(TextColor::Green), bold: false, reversed: true };
    assert_eq!(setting_style(true, true), green);
    let gray = TextStyle { color: Some(TextColor::DarkGray), bold: false, reversed: false };
    assert_eq!(setting_style(false, false), gray);
    let mut s = settings();
    s.jitter_enabled = true;
    let lines = lines_of(&s, SettingKind::Jitter, 200);
    assert!(lines[0][0].style.bold);
    assert_eq!(lines[1][0].style, gray);
    assert_eq!(lines[1][1].style, gray);
    assert_eq!(lines[1][2].style, green);
    assert_eq!(lines[2][0].style, TextStyle { color: None, bold: false, reversed: false });
}

#[test]
fn rows_fit_the_screen() {
    assert_eq!(visible_rows(0), 1);
    assert_eq!(visible_rows(9), 1);
    assert_eq!(visible_rows(10), 1);
    assert_eq!(visible_rows(15), 6);
    assert_eq!(visible_rows(u16::MAX), 65526);
}

#[test]
fn shows_the_newest_events() {
    let mut events = VecDeque::new();
    for id in 0..5 {
        events.push_back(PacketEvent {
            id,
            direction: PacketDirection::InToOut,
            time_in_ms: 0,
            latency_ms: 0,
            time_out_ms: None,
            action: PacketAction::Dropped,
            size: 0,
            src: src(),
        });
    }
    let ids = |rows: Vec<PacketEvent>| -> Vec<u64> { rows.iter().map(|event| event.id).collect() };
    assert_eq!(ids(newest(&events, 3)), vec![0, 1, 2]);
    assert_eq!(ids(newest(&events, 30)), vec![0, 1, 2, 3, 4]);
}

#[test]
fn settings_are_shown_in_ascii() {
    let mut s = settings();
    s.latency_ms = u64::MAX;
    s.rate_bytes_per_sec = u64::MAX;
    s.loss_percent = LossPercent::clamped(Double { bits: f64::NAN.to_bits() });
    let line = &screen(&s, 400)[1];
    assert_eq!(
        line,
        "Latency [l] OFF 18446744073709551615ms  |  Jitter [j] OFF 0ms  |  Loss [p] OFF NaN%  |  Rate [r] OFF 18446744073.7GB/s"
    );
    assert_eq!(line.len(), line.chars().count());
}

#[test]
fn frames_have_titles() {
    let inner = SocketAddr::new(Ipv4Addr::new(0, 0, 0, 0), 19876);
    let header = build_header(inner, inner, 200, &settings(), SettingKind::Latency, 120);
    assert_eq!(header.title, "Status");
    let table = build_table(&Vec::new());
    assert_eq!(table.title, "Packets");
    assert!(table.rows.is_empty());
}

#[test]
fn columns_are_named_and_wide_enough() {
    let table = build_table(&Vec::new());
    assert_eq!(table.names, table_header());
    assert_eq!(table.names_style, TextStyle { color: None, bold: true, reversed: false });
    let mut widths: Vec<ColumnWidth> = [6, 8, 10, 8, 10, 10, 8].map(ColumnWidth::Exactly).to_vec();
    widths.push(ColumnWidth::AtLeast(15));
    assert_eq!(table.widths, widths);
    assert_eq!(table_widths(), widths);
}
