//! Arguments, settings and the events of packets.
use crate::addr;
pub use crate::addr::{parse_addr, Ipv4Addr, SocketAddr};
use crate::double;
use crate::double::Double;
use crate::loss;
pub use crate::loss::LossPercent;
pub use crate::rate::{format_rate, next_rate, prev_rate, RATE_PRESETS};
use crate::rounding;
use vstd::prelude::*;
use vstd::string::*;

verus! {

/// How many events are kept.
pub const EVENT_BUFFER: usize = 2048;

/// How many packets of a client wait to be scheduled.
pub const CLIENT_QUEUE: usize = 1024;

/// What the program is started with.
#[derive(Debug, Clone)]
pub struct Args {
    pub in_addr: String,
    pub out_addr: String,
    pub latency_ms: u64,
    pub jitter_ms: u64,
    pub loss_percent: Double,
    pub rate_bytes_per_sec: u64,
}

/// What is done to the packets.
#[derive(Debug, Clone, Copy)]
pub struct ProxySettings {
    pub latency_ms: u64,
    pub jitter_ms: u64,
    pub loss_percent: LossPercent,
    pub rate_bytes_per_sec: u64,
    pub latency_enabled: bool,
    pub jitter_enabled: bool,
    pub loss_enabled: bool,
    pub rate_enabled: bool,
}

impl ProxySettings {
    /// The settings to start with: the loss is brought into range, and what
    /// is above zero is switched on.
    pub fn from_args(args: &Args) -> (settings: Self)
        ensures
            settings.latency_ms == args.latency_ms,
            settings.jitter_ms == args.jitter_ms,
            settings.loss_percent.double() == double::clamped_between(
                args.loss_percent,
                Double { bits: 0 },
                Double { bits: loss::HUNDRED_BITS },
            ),
            settings.rate_bytes_per_sec == args.rate_bytes_per_sec,
            settings.latency_enabled == (args.latency_ms > 0),
            settings.jitter_enabled == (args.jitter_ms > 0),
            settings.loss_enabled == settings.loss_percent.positive(),
            settings.rate_enabled == (args.rate_bytes_per_sec > 0),
    {
        let loss_percent = LossPercent::clamped(args.loss_percent);
        ProxySettings {
            latency_ms: args.latency_ms,
            jitter_ms: args.jitter_ms,
            loss_percent,
            rate_bytes_per_sec: args.rate_bytes_per_sec,
            latency_enabled: args.latency_ms > 0,
            jitter_enabled: args.jitter_ms > 0,
            loss_enabled: loss_percent.is_positive(),
            rate_enabled: args.rate_bytes_per_sec > 0,
        }
    }
}

/// The address of every interface, 0.0.0.0.
pub open spec fn unspecified() -> Ipv4Addr {
    Ipv4Addr { a: 0, b: 0, c: 0, d: 0 }
}

/// The address of this machine to itself, 127.0.0.1.
pub open spec fn localhost() -> Ipv4Addr {
    Ipv4Addr { a: 127, b: 0, c: 0, d: 1 }
}

/// Reads the two addresses of the arguments. A port alone stands for every
/// interface where packets come in, and for this machine where they go out.
pub fn endpoints(args: &Args) -> (result: Result<(SocketAddr, SocketAddr), String>)
    ensures
        match result {
            Ok((inner, outer)) => {
                &&& addr::is_endpoint(args.in_addr@, unspecified(), inner)
                &&& forall|other: SocketAddr|
                    #![trigger addr::is_endpoint(args.in_addr@, unspecified(), other)]
                    addr::is_endpoint(args.in_addr@, unspecified(), other) ==> other == inner
                &&& addr::is_endpoint(args.out_addr@, localhost(), outer)
                &&& forall|other: SocketAddr|
                    #![trigger addr::is_endpoint(args.out_addr@, localhost(), other)]
                    addr::is_endpoint(args.out_addr@, localhost(), other) ==> other == outer
            },
            Err(message) => if exists|inner: SocketAddr|
                #![trigger addr::is_endpoint(args.in_addr@, unspecified(), inner)]
                addr::is_endpoint(args.in_addr@, unspecified(), inner) {
                &&& forall|outer: SocketAddr|
                    #![trigger addr::is_endpoint(args.out_addr@, localhost(), outer)]
                    !addr::is_endpoint(args.out_addr@, localhost(), outer)
                &&& message@ == "--out "@ + addr::address_error(args.out_addr@)
            } else {
                message@ == "--in "@ + addr::address_error(args.in_addr@)
            },
        },
{
    let inner = match parse_addr(args.in_addr.as_str(), Ipv4Addr::new(0, 0, 0, 0)) {
        Ok(inner) => inner,
        Err(error) => {
            let mut message = String::new();
            message.append("--in ");
            message.append(error.as_str());
            assert(message@ =~= "--in "@ + addr::address_error(args.in_addr@));
            return Err(message);
        },
    };
    assert(addr::is_endpoint(args.in_addr@, unspecified(), inner));
    let outer = match parse_addr(args.out_addr.as_str(), Ipv4Addr::new(127, 0, 0, 1)) {
        Ok(outer) => outer,
        Err(error) => {
            let mut message = String::new();
            message.append("--out ");
            message.append(error.as_str());
            assert(message@ =~= "--out "@ + addr::address_error(args.out_addr@));
            return Err(message);
        },
    };
    assert(addr::is_endpoint(args.out_addr@, localhost(), outer));
    Ok((inner, outer))
}

/// A setting that can be selected.
#[derive(Clone, Copy, Debug, PartialEq, Eq, Structural)]
pub enum SettingKind {
    Latency,
    Jitter,
    Loss,
    Rate,
}

impl SettingKind {
    /// The setting that follows; the first follows the last.
    pub open spec fn following(self) -> SettingKind {
        match self {
            SettingKind::Latency => SettingKind::Jitter,
            SettingKind::Jitter => SettingKind::Loss,
            SettingKind::Loss => SettingKind::Rate,
            SettingKind::Rate => SettingKind::Latency,
        }
    }

    pub fn next(self) -> (kind: Self)
        ensures
            kind == self.following(),
    {
        match self {
            SettingKind::Latency => SettingKind::Jitter,
            SettingKind::Jitter => SettingKind::Loss,
            SettingKind::Loss => SettingKind::Rate,
            SettingKind::Rate => SettingKind::Latency,
        }
    }

    /// The setting that `self` follows.
    pub fn prev(self) -> (kind: Self)
        ensures
            kind.following() == self,
    {
        match self {
            SettingKind::Latency => SettingKind::Rate,
            SettingKind::Jitter => SettingKind::Latency,
            SettingKind::Loss => SettingKind::Jitter,
            SettingKind::Rate => SettingKind::Loss,
        }
    }
}

/// The settings form a cycle of four: every one follows exactly one other,
/// and four steps lead back.
pub proof fn law_settings_cycle(a: SettingKind, b: SettingKind)
    ensures
        a.following() == b.following() ==> a == b,
        a.following().following().following().following() == a,
        b == a || b == a.following() || b == a.following().following() || b
            == a.following().following().following(),
{
}

/// Up or down.
#[derive(Clone, Copy, Debug, PartialEq, Eq, Structural)]
pub enum AdjustDirection {
    Increase,
    Decrease,
}

/// What became of a packet.
#[derive(Clone, Copy, Debug, PartialEq, Eq, Structural)]
pub enum PacketAction {
    Forwarded,
    Dropped,
    Error,
}

impl PacketAction {
    pub open spec fn text(self) -> Seq<char> {
        match self {
            PacketAction::Forwarded => "forward"@,
            PacketAction::Dropped => "drop"@,
            PacketAction::Error => "error"@,
        }
    }

    pub fn as_str(&self) -> (name: &'static str)
        ensures
            name@ == self.text(),
    {
        match self {
            PacketAction::Forwarded => "forward",
            PacketAction::Dropped => "drop",
            PacketAction::Error => "error",
        }
    }
}

/// Which way a packet goes.
#[derive(Clone, Copy, Debug, PartialEq, Eq, Structural)]
pub enum PacketDirection {
    InToOut,
    OutToIn,
}

impl PacketDirection {
    pub open spec fn text(self) -> Seq<char> {
        match self {
            PacketDirection::InToOut => "in->out"@,
            PacketDirection::OutToIn => "out->in"@,
        }
    }

    pub fn as_str(&self) -> (name: &'static str)
        ensures
            name@ == self.text(),
    {
        match self {
            PacketDirection::InToOut => "in->out",
            PacketDirection::OutToIn => "out->in",
        }
    }
}

/// What is known of a packet once it is done with.
#[derive(Clone, Copy, Debug, PartialEq, Eq)]
pub struct PacketEvent {
    pub id: u64,
    pub direction: PacketDirection,
    pub time_in_ms: u128,
    pub latency_ms: u64,
    pub time_out_ms: Option<u128>,
    pub action: PacketAction,
    pub size: usize,
    pub src: SocketAddr,
}

/// The settings follow each other as they are shown: latency, jitter, loss,
/// rate, and latency again.
pub proof fn law_settings_follow_each_other(kind: SettingKind, next: SettingKind, prev: SettingKind)
    requires
        call_ensures(SettingKind::next, (kind,), next),
        call_ensures(SettingKind::prev, (kind,), prev),
    ensures
        next == match kind {
            SettingKind::Latency => SettingKind::Jitter,
            SettingKind::Jitter => SettingKind::Loss,
            SettingKind::Loss => SettingKind::Rate,
            SettingKind::Rate => SettingKind::Latency,
        },
        prev == match kind {
            SettingKind::Latency => SettingKind::Rate,
            SettingKind::Jitter => SettingKind::Latency,
            SettingKind::Loss => SettingKind::Jitter,
            SettingKind::Rate => SettingKind::Loss,
        },
        kind.following() == next,
        prev.following() == kind,
{
}

/// Actions and directions have these names.
pub proof fn law_names_are_written(
    action: PacketAction,
    action_name: &'static str,
    direction: PacketDirection,
    direction_name: &'static str,
)
    requires
        call_ensures(PacketAction::as_str, (&action,), action_name),
        call_ensures(PacketDirection::as_str, (&direction,), direction_name),
    ensures
        action_name@ == match action {
            PacketAction::Forwarded => "forward"@,
            PacketAction::Dropped => "drop"@,
            PacketAction::Error => "error"@,
        },
        direction_name@ == match direction {
            PacketDirection::InToOut => "in->out"@,
            PacketDirection::OutToIn => "out->in"@,
        },
        action.text() == action_name@,
        direction.text() == direction_name@,
{
}

/// The settings to start with are the arguments: the loss brought into the
/// range from zero to one hundred percent, and each setting switched on exactly
/// where it is above zero.
pub proof fn law_settings_start_as_the_arguments_say(args: Args, settings: ProxySettings)
    requires
        call_ensures(ProxySettings::from_args, (&args,), settings),
    ensures
        settings.latency_ms == args.latency_ms,
        settings.jitter_ms == args.jitter_ms,
        settings.rate_bytes_per_sec == args.rate_bytes_per_sec,
        settings.latency_enabled <==> args.latency_ms != 0,
        settings.jitter_enabled <==> args.jitter_ms != 0,
        settings.rate_enabled <==> args.rate_bytes_per_sec != 0,
        ({
            let raw = args.loss_percent;
            let hundred = 100 * rounding::one();
            let loss = settings.loss_percent.double();
            &&& raw.is_nan() ==> loss == raw && !settings.loss_enabled
            &&& !raw.is_nan() ==> !loss.is_nan() && (settings.loss_enabled <==> raw.value() > 0)
            &&& !raw.is_nan() && raw.value() < 0 ==> loss.value() == 0
            &&& !raw.is_nan() && 0 <= raw.value() <= hundred ==> loss == raw
            &&& !raw.is_nan() && raw.value() > hundred ==> loss.value() == hundred
        }),
{
    loss::lemma_constants();
}

/// The addresses are read one after the other, a port alone for every
/// interface where packets come in and for this machine where they go out. The
/// first that cannot be read is named.
pub proof fn law_endpoints_are_read_in_turn(
    args: Args,
    in_addr: &str,
    out_addr: &str,
    inner: Result<SocketAddr, String>,
    outer: Result<SocketAddr, String>,
    result: Result<(SocketAddr, SocketAddr), String>,
)
    requires
        in_addr@ == args.in_addr@,
        out_addr@ == args.out_addr@,
        call_ensures(parse_addr, (in_addr, Ipv4Addr { a: 0, b: 0, c: 0, d: 0 }), inner),
        call_ensures(parse_addr, (out_addr, Ipv4Addr { a: 127, b: 0, c: 0, d: 1 }), outer),
        call_ensures(endpoints, (&args,), result),
    ensures
        result is Ok <==> inner is Ok && outer is Ok,
        result matches Ok(found) ==> found.0 == inner->Ok_0 && found.1 == outer->Ok_0,
        inner matches Err(error) ==> (result matches Err(message) && message@ == "--in "@ + error@),
        inner is Ok && outer is Err ==> (result matches Err(message) && message@ == "--out "@
            + outer->Err_0@),
{
    if let Ok(found) = inner {
        assert(addr::is_endpoint(args.in_addr@, unspecified(), found));
    }
    if let Ok(found) = outer {
        assert(addr::is_endpoint(args.out_addr@, localhost(), found));
    }
    if let Ok(found) = result {
        assert(unspecified() == (Ipv4Addr { a: 0, b: 0, c: 0, d: 0 }));
        assert(localhost() == (Ipv4Addr { a: 127, b: 0, c: 0, d: 1 }));
        assert(addr::is_endpoint(in_addr@, Ipv4Addr { a: 0, b: 0, c: 0, d: 0 }, found.0));
        assert(addr::is_endpoint(out_addr@, Ipv4Addr { a: 127, b: 0, c: 0, d: 1 }, found.1));
    }
}

/// 2048 events are kept, and 1024 packets of a client wait to be scheduled.
pub proof fn law_buffers_have_their_sizes()
    ensures
        EVENT_BUFFER == 2048,
        CLIENT_QUEUE == 1024,
{
}

} // verus!
