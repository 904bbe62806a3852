//! The screen: what keys do, and what is shown.
use crate::loss;
use crate::loss::LossPercent;
use crate::rate;
use crate::rate::{next_rate, prev_rate};
use crate::rounding;
use crate::types::{AdjustDirection, PacketEvent, ProxySettings, SettingKind};
use std::collections::VecDeque;
use vstd::prelude::*;

verus! {

/// A key that was pressed.
#[derive(Clone, Copy, Debug, PartialEq, Eq)]
pub enum Key {
    Char(char),
    Tab,
    BackTab,
    Left,
    Right,
    Up,
    Down,
    Other,
}

/// What the screen shows apart from the settings.
pub struct UiState {
    pub selected: SettingKind,
    pub events: Vec<PacketEvent>,
}

impl UiState {
    pub fn new() -> (ui: UiState)
        ensures
            ui.selected == SettingKind::Latency,
            ui.events@ == Seq::<PacketEvent>::empty(),
    {
        UiState { selected: SettingKind::Latency, events: Vec::new() }
    }
}

/// How far one adjustment moves a time, in milliseconds.
pub const STEP_MS: u64 = 10;

/// A time after one adjustment, as far as there is room.
pub open spec fn stepped(ms: u64, direction: AdjustDirection) -> u64 {
    match direction {
        AdjustDirection::Increase => if ms > u64::MAX - STEP_MS {
            u64::MAX
        } else {
            (ms + STEP_MS) as u64
        },
        AdjustDirection::Decrease => if ms < STEP_MS {
            0
        } else {
            (ms - STEP_MS) as u64
        },
    }
}

/// The settings after an adjustment: the one that is named has moved by one
/// step, and is switched on where it is above zero.
pub open spec fn is_adjusted(
    before: ProxySettings,
    kind: SettingKind,
    direction: AdjustDirection,
    after: ProxySettings,
) -> bool {
    match kind {
        SettingKind::Latency => after == (ProxySettings {
            latency_ms: stepped(before.latency_ms, direction),
            latency_enabled: stepped(before.latency_ms, direction) > 0,
            ..before
        }),
        SettingKind::Jitter => after == (ProxySettings {
            jitter_ms: stepped(before.jitter_ms, direction),
            jitter_enabled: stepped(before.jitter_ms, direction) > 0,
            ..before
        }),
        SettingKind::Loss => {
            &&& match direction {
                AdjustDirection::Increase => before.loss_percent.is_step_up(after.loss_percent),
                AdjustDirection::Decrease => before.loss_percent.is_step_down(after.loss_percent),
            }
            &&& after == (ProxySettings {
                loss_percent: after.loss_percent,
                loss_enabled: after.loss_percent.positive(),
                ..before
            })
        },
        SettingKind::Rate => {
            &&& match direction {
                AdjustDirection::Increase => rate::is_next_rate(
                    before.rate_bytes_per_sec,
                    after.rate_bytes_per_sec,
                ),
                AdjustDirection::Decrease => rate::is_prev_rate(
                    before.rate_bytes_per_sec,
                    after.rate_bytes_per_sec,
                ),
            }
            &&& after == (ProxySettings {
                rate_bytes_per_sec: after.rate_bytes_per_sec,
                rate_enabled: after.rate_bytes_per_sec > 0,
                ..before
            })
        },
    }
}

/// Moves a setting by one step.
pub fn adjust_setting(
    settings: &mut ProxySettings,
    kind: SettingKind,
    direction: AdjustDirection,
)
    ensures
        is_adjusted(*old(settings), kind, direction, *final(settings)),
{
    let up = matches!(direction, AdjustDirection::Increase);
    match kind {
        SettingKind::Latency => {
            settings.latency_ms = if up {
                settings.latency_ms.saturating_add(STEP_MS)
            } else {
                settings.latency_ms.saturating_sub(STEP_MS)
            };
            settings.latency_enabled = settings.latency_ms > 0;
        },
        SettingKind::Jitter => {
            settings.jitter_ms = if up {
                settings.jitter_ms.saturating_add(STEP_MS)
            } else {
                settings.jitter_ms.saturating_sub(STEP_MS)
            };
            settings.jitter_enabled = settings.jitter_ms > 0;
        },
        SettingKind::Loss => {
            settings.loss_percent = if up {
                settings.loss_percent.step_up()
            } else {
                settings.loss_percent.step_down()
            };
            settings.loss_enabled = settings.loss_percent.is_positive();
        },
        SettingKind::Rate => {
            settings.rate_bytes_per_sec = if up {
                next_rate(settings.rate_bytes_per_sec)
            } else {
                prev_rate(settings.rate_bytes_per_sec)
            };
            settings.rate_enabled = settings.rate_bytes_per_sec > 0;
        },
    }
}

/// The loss after it was switched on or off: off, or on with one percent
/// where it was zero.
pub open spec fn is_loss_toggled(before: ProxySettings, after: ProxySettings) -> bool {
    &&& if before.loss_enabled || before.loss_percent.is_nan() || before.loss_percent.units() > 0 {
        after.loss_percent == before.loss_percent
    } else {
        after.loss_percent.double() == (crate::double::Double { bits: loss::ONE_BITS })
    }
    &&& after == (ProxySettings {
        loss_percent: after.loss_percent,
        loss_enabled: !before.loss_enabled,
        ..before
    })
}

/// The rate limit after it was switched on or off: off, or on with the first
/// preset where it was zero.
pub open spec fn is_rate_toggled(before: ProxySettings, after: ProxySettings) -> bool {
    &&& if before.rate_enabled || before.rate_bytes_per_sec > 0 {
        after.rate_bytes_per_sec == before.rate_bytes_per_sec
    } else {
        rate::is_next_rate(0, after.rate_bytes_per_sec)
    }
    &&& after == (ProxySettings {
        rate_bytes_per_sec: after.rate_bytes_per_sec,
        rate_enabled: !before.rate_enabled,
        ..before
    })
}

/// The direction that a key adjusts in.
pub open spec fn adjusts(key: Key) -> Option<AdjustDirection> {
    if key == Key::Char('+') || key == Key::Char('=') || key == Key::Up {
        Some(AdjustDirection::Increase)
    } else if key == Key::Char('-') || key == Key::Down {
        Some(AdjustDirection::Decrease)
    } else {
        None
    }
}

/// The settings after a key.
pub open spec fn is_handled(
    key: Key,
    selected: SettingKind,
    before: ProxySettings,
    after: ProxySettings,
) -> bool {
    if key == Key::Char('l') {
        after == (ProxySettings { latency_enabled: !before.latency_enabled, ..before })
    } else if key == Key::Char('j') {
        after == (ProxySettings { jitter_enabled: !before.jitter_enabled, ..before })
    } else if key == Key::Char('p') {
        is_loss_toggled(before, after)
    } else if key == Key::Char('r') {
        is_rate_toggled(before, after)
    } else {
        match adjusts(key) {
            Some(direction) => is_adjusted(before, selected, direction, after),
            None => after == before,
        }
    }
}

/// The setting that is selected after a key.
pub open spec fn is_selected(key: Key, before: SettingKind, after: SettingKind) -> bool {
    if key == Key::Tab || key == Key::Right {
        after == before.following()
    } else if key == Key::BackTab || key == Key::Left {
        after.following() == before
    } else {
        after == before
    }
}

/// Does what a key asks for, and says whether it asks to quit.
pub fn handle_key(code: Key, settings: &mut ProxySettings, ui: &mut UiState) -> (quit: bool)
    ensures
        quit == (code == Key::Char('q')),
        is_handled(code, old(ui).selected, *old(settings), *final(settings)),
        is_selected(code, old(ui).selected, final(ui).selected),
        final(ui).events == old(ui).events,
{
    match code {
        Key::Char('q') => {
            return true;
        },
        Key::Char('l') => {
            settings.latency_enabled = !settings.latency_enabled;
        },
        Key::Char('j') => {
            settings.jitter_enabled = !settings.jitter_enabled;
        },
        Key::Char('p') => {
            if settings.loss_enabled {
                settings.loss_enabled = false;
            } else {
                if settings.loss_percent.is_zero() {
                    settings.loss_percent = LossPercent::one_percent();
                }
                settings.loss_enabled = true;
            }
        },
        Key::Char('r') => {
            if settings.rate_enabled {
                settings.rate_enabled = false;
            } else {
                if settings.rate_bytes_per_sec == 0 {
                    settings.rate_bytes_per_sec = next_rate(0);
                }
                settings.rate_enabled = true;
            }
        },
        Key::Tab | Key::Right => {
            ui.selected = ui.selected.next();
        },
        Key::BackTab | Key::Left => {
            ui.selected = ui.selected.prev();
        },
        Key::Char('+') | Key::Char('=') | Key::Up => {
            adjust_setting(settings, ui.selected, AdjustDirection::Increase);
        },
        Key::Char('-') | Key::Down => {
            adjust_setting(settings, ui.selected, AdjustDirection::Decrease);
        },
        _ => {},
    }
    false
}

/// Handles a key event. Only a key that goes down does anything.
pub fn on_key(
    pressed: bool,
    code: Key,
    settings: &mut ProxySettings,
    ui: &mut UiState,
) -> (quit: bool)
    ensures
        pressed ==> {
            &&& quit == (code == Key::Char('q'))
            &&& is_handled(code, old(ui).selected, *old(settings), *final(settings))
            &&& is_selected(code, old(ui).selected, final(ui).selected)
        },
        !pressed ==> !quit && *final(settings) == *old(settings) && final(ui).selected == old(
            ui,
        ).selected,
        final(ui).events == old(ui).events,
{
    if !pressed {
        return false;
    }
    handle_key(code, settings, ui)
}

/// How many lines stand above the table, with their frame.
pub const HEADER_HEIGHT: u16 = 6;

/// How many lines the table has at least, with its frame.
pub const MIN_TABLE_HEIGHT: u16 = 5;

/// How many rows of the table a screen of `height` lines has room for; one at least.
pub fn visible_rows(height: u16) -> (rows: usize)
    ensures
        rows == if height <= 10 {
            1
        } else {
            height - 9
        },
{
    let rows: u16 = height.saturating_sub(HEADER_HEIGHT).saturating_sub(3);
    if rows < 1 {
        1
    } else {
        rows as usize
    }
}

/// The first `max_rows` events.
pub fn newest(events: &VecDeque<PacketEvent>, max_rows: usize) -> (rows: Vec<PacketEvent>)
    ensures
        rows@ == events@.take(
            if max_rows < events@.len() {
                max_rows as int
            } else {
                events@.len() as int
            },
        ),
{
    let mut rows: Vec<PacketEvent> = Vec::new();
    let n: usize = if max_rows < events.len() {
        max_rows
    } else {
        events.len()
    };
    let mut i: usize = 0;
    while i < n
        invariant
            i <= n <= events@.len(),
            rows@ == events@.take(i as int),
        decreases n - i,
    {
        rows.push(events[i]);
        i = i + 1;
        assert(rows@ =~= events@.take(i as int));
    }
    rows
}

/// To switch the latency twice, or the jitter, changes nothing.
pub proof fn law_switching_twice_changes_nothing(
    key: Key,
    selected: SettingKind,
    before: ProxySettings,
    between: ProxySettings,
    after: ProxySettings,
)
    requires
        key == Key::Char('l') || key == Key::Char('j'),
        is_handled(key, selected, before, between),
        is_handled(key, selected, between, after),
    ensures
        after == before,
{
}

/// To switch the loss twice, or the rate limit, changes nothing where its
/// value is not zero; where it is, only the value may change.
pub proof fn law_switching_twice_restores_the_switch(
    key: Key,
    selected: SettingKind,
    before: ProxySettings,
    between: ProxySettings,
    after: ProxySettings,
)
    requires
        key == Key::Char('p') || key == Key::Char('r'),
        is_handled(key, selected, before, between),
        is_handled(key, selected, between, after),
    ensures
        after.loss_enabled == before.loss_enabled,
        after.rate_enabled == before.rate_enabled,
        key == Key::Char('p') && before.loss_percent.positive() ==> after == before,
        key == Key::Char('r') && before.rate_bytes_per_sec > 0 ==> after == before,
{
}

/// What is switched on by its key is above zero: the loss, unless it is a
/// NaN, and the rate limit.
pub proof fn law_switched_on_is_above_zero(
    key: Key,
    selected: SettingKind,
    before: ProxySettings,
    after: ProxySettings,
)
    requires
        is_handled(key, selected, before, after),
    ensures
        key == Key::Char('p') && after.loss_enabled && !after.loss_percent.is_nan()
            ==> after.loss_percent.positive(),
        key == Key::Char('r') && after.rate_enabled ==> after.rate_bytes_per_sec > 0,
{
    loss::lemma_constants();
    rate::lemma_presets_ascend();
    if key == Key::Char('r') && after.rate_enabled && before.rate_bytes_per_sec == 0 {
        assert(rate::is_preset(after.rate_bytes_per_sec));
    }
}

/// To select forth and back, or back and forth, changes nothing.
pub proof fn law_selecting_forth_and_back(
    a: Key,
    b: Key,
    before: SettingKind,
    between: SettingKind,
    after: SettingKind,
)
    requires
        ((a == Key::Tab || a == Key::Right) && (b == Key::BackTab || b == Key::Left)) || ((a
            == Key::BackTab || a == Key::Left) && (b == Key::Tab || b == Key::Right)),
        is_selected(a, before, between),
        is_selected(b, between, after),
    ensures
        after == before,
{
}

/// An adjustment of a time is undone by one the other way, where there is room.
pub proof fn law_time_steps_are_undone(ms: u64)
    ensures
        ms <= u64::MAX - STEP_MS ==> stepped(
            stepped(ms, AdjustDirection::Increase),
            AdjustDirection::Decrease,
        ) == ms,
        ms >= STEP_MS ==> stepped(
            stepped(ms, AdjustDirection::Decrease),
            AdjustDirection::Increase,
        ) == ms,
{
}

/// An adjustment leaves its setting switched on exactly where it is above
/// zero, and a rate that is zero or a preset.
pub proof fn law_adjusted_settings_are_switched_by_value(
    before: ProxySettings,
    kind: SettingKind,
    direction: AdjustDirection,
    after: ProxySettings,
)
    requires
        is_adjusted(before, kind, direction, after),
    ensures
        match kind {
            SettingKind::Latency => after.latency_enabled == (after.latency_ms > 0),
            SettingKind::Jitter => after.jitter_enabled == (after.jitter_ms > 0),
            SettingKind::Loss => after.loss_enabled == after.loss_percent.positive(),
            SettingKind::Rate => {
                &&& after.rate_enabled == (after.rate_bytes_per_sec > 0)
                &&& after.rate_bytes_per_sec == 0 || rate::is_preset(after.rate_bytes_per_sec)
            },
        },
{
}

/// What an adjustment does to the settings, in numbers. A time goes up by ten
/// milliseconds or down by ten, as far as there is room. The loss goes up or
/// down by one percent, within zero and one hundred, but for rounding. The rate
/// goes to the next preset or to the one before. What was adjusted is switched
/// on exactly where it is above zero, and nothing else changes.
pub proof fn lemma_adjustments_in_numbers(
    before: ProxySettings,
    kind: SettingKind,
    direction: AdjustDirection,
    after: ProxySettings,
    preset: u64,
)
    requires
        is_adjusted(before, kind, direction, after),
    ensures
        ({
            let up = direction == AdjustDirection::Increase;
            let one = rounding::one();
            &&& kind == SettingKind::Latency && up ==> after.latency_ms == if before.latency_ms
                + 10 > u64::MAX {
                u64::MAX as int
            } else {
                before.latency_ms + 10
            }
            &&& kind == SettingKind::Latency && !up ==> after.latency_ms == if before.latency_ms
                < 10 {
                0
            } else {
                before.latency_ms - 10
            }
            &&& kind == SettingKind::Latency ==> (after.latency_enabled <==> after.latency_ms > 0)
            &&& kind != SettingKind::Latency ==> after.latency_ms == before.latency_ms
                && after.latency_enabled == before.latency_enabled
            &&& kind == SettingKind::Jitter && up ==> after.jitter_ms == if before.jitter_ms + 10
                > u64::MAX {
                u64::MAX as int
            } else {
                before.jitter_ms + 10
            }
            &&& kind == SettingKind::Jitter && !up ==> after.jitter_ms == if before.jitter_ms < 10 {
                0
            } else {
                before.jitter_ms - 10
            }
            &&& kind == SettingKind::Jitter ==> (after.jitter_enabled <==> after.jitter_ms > 0)
            &&& kind != SettingKind::Jitter ==> after.jitter_ms == before.jitter_ms
                && after.jitter_enabled == before.jitter_enabled
            &&& kind == SettingKind::Loss && before.loss_percent.is_nan() ==> after.loss_percent
                == before.loss_percent && !after.loss_enabled
            &&& kind == SettingKind::Loss && !before.loss_percent.is_nan() ==> {
                let units = before.loss_percent.units();
                let then = after.loss_percent.units();
                &&& !after.loss_percent.is_nan() && !after.loss_percent.double().negative()
                &&& up && units + one >= 100 * one ==> then == 100 * one
                &&& up && units + one < 100 * one ==> then <= 100 * one && (units + one)
                    * 0x1f_ffff_ffff_ffff <= then * 0x20_0000_0000_0000 <= (units + one)
                    * 0x20_0000_0000_0001
                &&& !up && units <= one ==> then == 0
                &&& !up && units > one ==> (units - one) * 0x1f_ffff_ffff_ffff <= then
                    * 0x20_0000_0000_0000 <= (units - one) * 0x20_0000_0000_0001
                &&& after.loss_enabled <==> then > 0
            }
            &&& kind != SettingKind::Loss ==> after.loss_percent == before.loss_percent
                && after.loss_enabled == before.loss_enabled
            &&& kind == SettingKind::Rate && up ==> {
                &&& rate::is_preset(after.rate_bytes_per_sec)
                &&& before.rate_bytes_per_sec < 100_000_000 ==> after.rate_bytes_per_sec
                    > before.rate_bytes_per_sec
                &&& before.rate_bytes_per_sec < 100_000_000 && rate::is_preset(preset) && preset
                    > before.rate_bytes_per_sec ==> after.rate_bytes_per_sec <= preset
                &&& before.rate_bytes_per_sec >= 100_000_000 ==> after.rate_bytes_per_sec
                    == 100_000_000
            }
            &&& kind == SettingKind::Rate && !up ==> {
                &&& before.rate_bytes_per_sec > 10_000 ==> rate::is_preset(after.rate_bytes_per_sec)
                    && after.rate_bytes_per_sec < before.rate_bytes_per_sec
                &&& before.rate_bytes_per_sec <= 10_000 ==> after.rate_bytes_per_sec == 0
                &&& rate::is_preset(preset) && preset < before.rate_bytes_per_sec ==> preset
                    <= after.rate_bytes_per_sec
            }
            &&& kind == SettingKind::Rate ==> (after.rate_enabled <==> after.rate_bytes_per_sec > 0)
            &&& kind != SettingKind::Rate ==> after.rate_bytes_per_sec == before.rate_bytes_per_sec
                && after.rate_enabled == before.rate_enabled
        }),
{
    match kind {
        SettingKind::Loss => {
            match direction {
                AdjustDirection::Increase => {
                    loss::lemma_step_up_is_one_percent(before.loss_percent, after.loss_percent);
                },
                AdjustDirection::Decrease => {
                    loss::lemma_step_down_is_one_percent(before.loss_percent, after.loss_percent);
                },
            }
        },
        SettingKind::Rate => {
            match direction {
                AdjustDirection::Increase => {
                    rate::lemma_steps_up_pass_no_preset(
                        before.rate_bytes_per_sec,
                        after.rate_bytes_per_sec,
                        preset,
                    );
                },
                AdjustDirection::Decrease => {
                    rate::lemma_steps_down_pass_no_preset(
                        before.rate_bytes_per_sec,
                        after.rate_bytes_per_sec,
                        preset,
                    );
                },
            }
        },
        _ => {},
    }
}

/// To adjust a time up adds ten milliseconds to it, and down takes ten from it,
/// as far as there is room; it is switched on exactly where it is above zero,
/// and nothing else changes.
pub proof fn law_times_are_adjusted_by_ten(
    settings: &mut ProxySettings,
    kind: SettingKind,
    direction: AdjustDirection,
)
    requires
        call_ensures(adjust_setting, (settings, kind, direction), ()),
    ensures
        ({
            let before = *old(settings);
            let after = *final(settings);
            let up = direction == AdjustDirection::Increase;
            &&& kind == SettingKind::Latency ==> {
                &&& up && before.latency_ms <= u64::MAX - 10 ==> after.latency_ms
                    == before.latency_ms + 10
                &&& up && before.latency_ms > u64::MAX - 10 ==> after.latency_ms == u64::MAX
                &&& !up && before.latency_ms >= 10 ==> after.latency_ms == before.latency_ms - 10
                &&& !up && before.latency_ms < 10 ==> after.latency_ms == 0
                &&& after == (ProxySettings {
                    latency_ms: after.latency_ms,
                    latency_enabled: after.latency_ms > 0,
                    ..before
                })
            }
            &&& kind == SettingKind::Jitter ==> {
                &&& up && before.jitter_ms <= u64::MAX - 10 ==> after.jitter_ms == before.jitter_ms
                    + 10
                &&& up && before.jitter_ms > u64::MAX - 10 ==> after.jitter_ms == u64::MAX
                &&& !up && before.jitter_ms >= 10 ==> after.jitter_ms == before.jitter_ms - 10
                &&& !up && before.jitter_ms < 10 ==> after.jitter_ms == 0
                &&& after == (ProxySettings {
                    jitter_ms: after.jitter_ms,
                    jitter_enabled: after.jitter_ms > 0,
                    ..before
                })
            }
        }),
{
}

/// To adjust the loss moves it by one percent, up or down, within zero and one
/// hundred, but for one part in `2^53`; nothing else changes but its switch.
pub proof fn law_the_loss_is_adjusted_by_one_percent(
    settings: &mut ProxySettings,
    direction: AdjustDirection,
)
    requires
        call_ensures(adjust_setting, (settings, SettingKind::Loss, direction), ()),
    ensures
        ({
            let before = *old(settings);
            let after = *final(settings);
            let up = direction == AdjustDirection::Increase;
            let one = rounding::one();
            let units = before.loss_percent.units();
            let then = after.loss_percent.units();
            &&& after == (ProxySettings {
                loss_percent: after.loss_percent,
                loss_enabled: after.loss_enabled,
                ..before
            })
            &&& before.loss_percent.is_nan() ==> after.loss_percent == before.loss_percent
                && !after.loss_enabled
            &&& !before.loss_percent.is_nan() ==> {
                &&& !after.loss_percent.is_nan()
                &&& up && units + one >= 100 * one ==> then == 100 * one
                &&& up && units + one < 100 * one ==> then <= 100 * one && (units + one)
                    * 0x1f_ffff_ffff_ffff <= then * 0x20_0000_0000_0000 <= (units + one)
                    * 0x20_0000_0000_0001
                &&& !up && units <= one ==> then == 0
                &&& !up && units > one ==> (units - one) * 0x1f_ffff_ffff_ffff <= then
                    * 0x20_0000_0000_0000 <= (units - one) * 0x20_0000_0000_0001
                &&& after.loss_enabled <==> then > 0
            }
        }),
{
    lemma_adjustments_in_numbers(
        *old(settings),
        SettingKind::Loss,
        direction,
        *final(settings),
        0,
    );
}

/// To adjust the rate moves it to the next preset, up or down, and passes none
/// over; nothing else changes but its switch.
pub proof fn law_the_rate_is_adjusted_by_one_preset(
    settings: &mut ProxySettings,
    direction: AdjustDirection,
    preset: u64,
)
    requires
        call_ensures(adjust_setting, (settings, SettingKind::Rate, direction), ()),
        rate::is_preset(preset),
    ensures
        ({
            let before = *old(settings);
            let after = *final(settings);
            let from = before.rate_bytes_per_sec;
            let to = after.rate_bytes_per_sec;
            &&& after == (ProxySettings {
                rate_bytes_per_sec: to,
                rate_enabled: to > 0,
                ..before
            })
            &&& to == 0 || rate::is_preset(to)
            &&& match direction {
                AdjustDirection::Increase => {
                    &&& from < 100_000_000 ==> to > from && (preset > from ==> to <= preset)
                    &&& from >= 100_000_000 ==> to == 100_000_000
                },
                AdjustDirection::Decrease => {
                    &&& from > 10_000 ==> to < from && to > 0 && (preset < from ==> preset <= to)
                    &&& from <= 10_000 ==> to == 0
                },
            }
        }),
{
    lemma_adjustments_in_numbers(
        *old(settings),
        SettingKind::Rate,
        direction,
        *final(settings),
        preset,
    );
    rate::law_presets_are_these(final(settings).rate_bytes_per_sec);
}

/// What a key does. `l`, `j`, `p` and `r` switch a setting, where the loss and
/// the rate are raised from zero to one percent and to the first preset as they
/// are switched on. Plus, equals and Up adjust the selected setting up, minus
/// and Down adjust it down. No other key changes a setting.
pub proof fn lemma_keys_in_words(
    key: Key,
    selected: SettingKind,
    before: ProxySettings,
    after: ProxySettings,
)
    requires
        is_handled(key, selected, before, after),
    ensures
        key == Key::Char('l') ==> after == (ProxySettings {
            latency_enabled: !before.latency_enabled,
            ..before
        }),
        key == Key::Char('j') ==> after == (ProxySettings {
            jitter_enabled: !before.jitter_enabled,
            ..before
        }),
        key == Key::Char('p') ==> {
            &&& after == (ProxySettings {
                loss_enabled: !before.loss_enabled,
                loss_percent: after.loss_percent,
                ..before
            })
            &&& before.loss_enabled || before.loss_percent.is_nan() || before.loss_percent.units()
                > 0 ==> after.loss_percent == before.loss_percent
            &&& !before.loss_enabled && !before.loss_percent.is_nan()
                && before.loss_percent.units() == 0 ==> !after.loss_percent.is_nan()
                && after.loss_percent.units() == rounding::one()
        },
        key == Key::Char('r') ==> after == (ProxySettings {
            rate_enabled: !before.rate_enabled,
            rate_bytes_per_sec: if !before.rate_enabled && before.rate_bytes_per_sec == 0 {
                10_000
            } else {
                before.rate_bytes_per_sec
            },
            ..before
        }),
        key == Key::Char('+') || key == Key::Char('=') || key == Key::Up ==> is_adjusted(
            before,
            selected,
            AdjustDirection::Increase,
            after,
        ),
        key == Key::Char('-') || key == Key::Down ==> is_adjusted(
            before,
            selected,
            AdjustDirection::Decrease,
            after,
        ),
        key != Key::Char('l') && key != Key::Char('j') && key != Key::Char('p') && key
            != Key::Char('r') && key != Key::Char('+') && key != Key::Char('=') && key != Key::Up
            && key != Key::Char('-') && key != Key::Down ==> after == before,
{
    loss::lemma_constants();
    if key == Key::Char('r') && !before.rate_enabled && before.rate_bytes_per_sec == 0 {
        rate::lemma_steps_up_pass_no_preset(0, after.rate_bytes_per_sec, 10_000);
        rate::law_presets_are_these(10_000);
        rate::law_presets_are_these(after.rate_bytes_per_sec);
    }
}

/// A key that goes down does what it is for: `q` alone quits, Tab and Right
/// select the setting that follows and Shift-Tab and Left the one before, and
/// the settings change as [`lemma_keys_in_words`] says. A key that does not go
/// down does nothing. The events that are shown stay.
pub proof fn law_keys_do_what_they_are_for(
    pressed: bool,
    code: Key,
    settings: &mut ProxySettings,
    ui: &mut UiState,
    quit: bool,
)
    requires
        call_ensures(on_key, (pressed, code, settings, ui), quit),
    ensures
        quit <==> pressed && code == Key::Char('q'),
        final(ui).events == old(ui).events,
        !pressed ==> *final(settings) == *old(settings) && final(ui).selected == old(ui).selected,
        pressed ==> is_handled(code, old(ui).selected, *old(settings), *final(settings)),
        pressed && (code == Key::Tab || code == Key::Right) ==> final(ui).selected == match old(
            ui).selected {
            SettingKind::Latency => SettingKind::Jitter,
            SettingKind::Jitter => SettingKind::Loss,
            SettingKind::Loss => SettingKind::Rate,
            SettingKind::Rate => SettingKind::Latency,
        },
        pressed && (code == Key::BackTab || code == Key::Left) ==> final(ui).selected == match old(
            ui).selected {
            SettingKind::Latency => SettingKind::Rate,
            SettingKind::Jitter => SettingKind::Latency,
            SettingKind::Loss => SettingKind::Jitter,
            SettingKind::Rate => SettingKind::Loss,
        },
        code != Key::Tab && code != Key::Right && code != Key::BackTab && code != Key::Left
            ==> final(ui).selected == old(ui).selected,
{
}

/// The switches, by the keys `l`, `j`, `p` and `r`.
pub proof fn law_keys_switch_settings(
    code: Key,
    settings: &mut ProxySettings,
    ui: &mut UiState,
    quit: bool,
)
    requires
        call_ensures(handle_key, (code, settings, ui), quit),
    ensures
        ({
            let before = *old(settings);
            let after = *final(settings);
            let loss = before.loss_percent;
            &&& code == Key::Char('l') ==> after == (ProxySettings {
                latency_enabled: !before.latency_enabled,
                ..before
            })
            &&& code == Key::Char('j') ==> after == (ProxySettings {
                jitter_enabled: !before.jitter_enabled,
                ..before
            })
            &&& code == Key::Char('p') ==> {
                &&& after == (ProxySettings {
                    loss_enabled: !before.loss_enabled,
                    loss_percent: after.loss_percent,
                    ..before
                })
                &&& before.loss_enabled || loss.is_nan() || loss.units() > 0 ==> after.loss_percent
                    == loss
                &&& !before.loss_enabled && !loss.is_nan() && loss.units() == 0
                    ==> !after.loss_percent.is_nan() && after.loss_percent.units()
                    == rounding::one()
            }
            &&& code == Key::Char('r') ==> after == (ProxySettings {
                rate_enabled: !before.rate_enabled,
                rate_bytes_per_sec: if !before.rate_enabled && before.rate_bytes_per_sec == 0 {
                    10_000
                } else {
                    before.rate_bytes_per_sec
                },
                ..before
            })
            &&& quit <==> code == Key::Char('q')
            &&& code == Key::Char('q') || code == Key::Tab || code == Key::BackTab || code
                == Key::Left || code == Key::Right || code == Key::Other ==> after == before
        }),
{
    lemma_keys_in_words(code, old(ui).selected, *old(settings), *final(settings));
}

/// A key that adjusts does to the settings what an adjustment of the selected
/// one does.
pub proof fn law_keys_adjust_the_selected_setting(
    code: Key,
    settings: &mut ProxySettings,
    ui: &mut UiState,
    quit: bool,
)
    requires
        call_ensures(handle_key, (code, settings, ui), quit),
        code == Key::Char('+') || code == Key::Char('=') || code == Key::Up || code == Key::Char(
            '-',
        ) || code == Key::Down,
    ensures
        ({
            let before = *old(settings);
            let after = *final(settings);
            let up = code == Key::Char('+') || code == Key::Char('=') || code == Key::Up;
            let selected = old(ui).selected;
            &&& final(ui).selected == selected
            &&& final(ui).events == old(ui).events
            &&& is_adjusted(
                before,
                selected,
                if up {
                    AdjustDirection::Increase
                } else {
                    AdjustDirection::Decrease
                },
                after,
            )
            &&& up ==> after.latency_ms >= before.latency_ms && after.jitter_ms >= before.jitter_ms
            &&& !up ==> after.latency_ms <= before.latency_ms && after.jitter_ms
                <= before.jitter_ms
            &&& selected != SettingKind::Latency ==> after.latency_ms == before.latency_ms
            &&& selected != SettingKind::Jitter ==> after.jitter_ms == before.jitter_ms
            &&& selected != SettingKind::Loss ==> after.loss_percent == before.loss_percent
            &&& selected != SettingKind::Rate ==> after.rate_bytes_per_sec
                == before.rate_bytes_per_sec
        }),
{
    lemma_keys_in_words(code, old(ui).selected, *old(settings), *final(settings));
}

/// The rows of the table, nine lines beside them, and the one row at least.
pub proof fn law_rows_fill_the_screen(height: u16, rows: usize)
    requires
        call_ensures(visible_rows, (height,), rows),
    ensures
        height > 9 ==> rows + 9 == height,
        height <= 9 ==> rows == 1,
        HEADER_HEIGHT == 6,
        MIN_TABLE_HEIGHT == 5,
{
}

/// What is shown are the first events there are, as many as there is room for.
pub proof fn law_the_first_events_are_shown(
    events: VecDeque<PacketEvent>,
    max_rows: usize,
    rows: Vec<PacketEvent>,
)
    requires
        call_ensures(newest, (&events, max_rows), rows),
    ensures
        rows@.len() <= max_rows,
        rows@.len() <= events@.len(),
        rows@.len() == max_rows || rows@.len() == events@.len(),
        forall|i: int| 0 <= i < rows@.len() ==> #[trigger] rows@[i] == events@[i],
{
}

/// At the start the latency is selected, and no event is shown.
pub proof fn law_the_screen_starts_empty(ui: UiState)
    requires
        call_ensures(UiState::new, (), ui),
    ensures
        ui.selected == SettingKind::Latency,
        ui.events@.len() == 0,
{
}

} // verus!
