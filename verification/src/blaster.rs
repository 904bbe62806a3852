//! A source of random datagrams, to try the proxy with.
use crate::addr::{Ipv4Addr, SocketAddr};
use crate::random::{fill_random, random_in};
use crate::text;
use crate::text::push_decimal;
use crate::types;
use vstd::prelude::*;
use vstd::string::*;

verus! {

/// The size of the smallest datagram.
pub const MIN_PAYLOAD: i64 = 16;

/// The size of the greatest datagram.
pub const MAX_PAYLOAD: i64 = 256;

/// How many datagrams are sent between two reports.
pub const REPORT_EVERY: u64 = 100;

/// Where the datagrams go: a port of this machine.
pub fn target(port: u16) -> (addr: SocketAddr)
    ensures
        addr == (SocketAddr { ip: types::localhost(), port }),
{
    SocketAddr::new(Ipv4Addr::new(127, 0, 0, 1), port)
}

/// A datagram of random size and content.
pub fn payload() -> (data: Vec<u8>)
    ensures
        MIN_PAYLOAD <= data@.len() <= MAX_PAYLOAD,
{
    let size: i64 = random_in(MIN_PAYLOAD, MAX_PAYLOAD);
    let mut data: Vec<u8> = vec![0u8; size as usize];
    fill_random(&mut data);
    data
}

/// What is said after `count` datagrams.
pub open spec fn report_text(count: u64, target: SocketAddr) -> Seq<char> {
    "sent "@ + text::decimal(count as nat) + " packets to "@ + target.text()
}

/// The report that is due after `count` datagrams, if one is.
pub fn report(count: u64, target: &SocketAddr) -> (report: Option<String>)
    ensures
        match report {
            Some(written) => count % REPORT_EVERY == 0 && written@ == report_text(count, *target),
            None => count % REPORT_EVERY != 0,
        },
{
    if count % REPORT_EVERY != 0 {
        return None;
    }
    let mut written = String::new();
    written.append("sent ");
    push_decimal(&mut written, count as u128);
    written.append(" packets to ");
    written.append(target.to_text().as_str());
    assert(written@ =~= report_text(count, *target));
    Some(written)
}

/// The datagrams go to a port of 127.0.0.1, and have from 16 to 256 bytes.
pub proof fn law_datagrams_go_to_this_machine(port: u16, addr: SocketAddr, data: Vec<u8>)
    requires
        call_ensures(target, (port,), addr),
        call_ensures(payload, (), data),
    ensures
        addr.ip.a == 127 && addr.ip.b == 0 && addr.ip.c == 0 && addr.ip.d == 1,
        addr.port == port,
        16 <= data@.len() <= 256,
{
}

/// Every hundredth datagram is reported, with how many there were and where
/// they went.
pub proof fn law_every_hundredth_datagram_is_reported(
    count: u64,
    addr: SocketAddr,
    written: Option<String>,
)
    requires
        call_ensures(report, (count, &addr), written),
    ensures
        written is Some <==> count % 100 == 0,
        written matches Some(line) ==> line@ == "sent "@ + text::decimal(count as nat)
            + " packets to "@ + addr.text(),
{
}

} // verus!
