//! Socket addresses, how they are written and how they are read.
use crate::text;
use vstd::prelude::*;
use vstd::string::*;

verus! {

/// An IPv4 address, by its four octets.
#[derive(Clone, Copy, Debug, PartialEq, Eq, Structural)]
pub struct Ipv4Addr {
    pub a: u8,
    pub b: u8,
    pub c: u8,
    pub d: u8,
}

/// An IPv4 address and a port.
#[derive(Clone, Copy, Debug, PartialEq, Eq, Structural)]
pub struct SocketAddr {
    pub ip: Ipv4Addr,
    pub port: u16,
}

impl Ipv4Addr {
    pub fn new(a: u8, b: u8, c: u8, d: u8) -> (ip: Ipv4Addr)
        ensures
            ip == (Ipv4Addr { a, b, c, d }),
    {
        Ipv4Addr { a, b, c, d }
    }
}

impl SocketAddr {
    pub fn new(ip: Ipv4Addr, port: u16) -> (addr: SocketAddr)
        ensures
            addr == (SocketAddr { ip, port }),
    {
        SocketAddr { ip, port }
    }

    /// How the address is written.
    pub open spec fn text(self) -> Seq<char> {
        ip_text(self.ip).push(':') + text::decimal(self.port as nat)
    }

    /// Writes the address: the octets with points between them, a colon, the port.
    pub fn to_text(&self) -> (written: String)
        ensures
            written@ == self.text(),
    {
        proof {
            reveal_strlit(".");
            reveal_strlit(":");
        }
        let mut written = String::new();
        text::push_decimal(&mut written, self.ip.a as u128);
        written.append(".");
        text::push_decimal(&mut written, self.ip.b as u128);
        written.append(".");
        text::push_decimal(&mut written, self.ip.c as u128);
        written.append(".");
        text::push_decimal(&mut written, self.ip.d as u128);
        written.append(":");
        text::push_decimal(&mut written, self.port as u128);
        assert(written@ =~= self.text());
        written
    }
}

/// How an IPv4 address is written.
pub open spec fn ip_text(ip: Ipv4Addr) -> Seq<char> {
    text::decimal(ip.a as nat).push('.') + text::decimal(ip.b as nat).push('.') + text::decimal(
        ip.c as nat,
    ).push('.') + text::decimal(ip.d as nat)
}

/// `s` is a row of digits that stands for `n`; leading zeros are allowed.
pub open spec fn is_number(s: Seq<char>, n: nat) -> bool {
    s.len() > 0 && text::all_digits(s) && text::number(s) == n
}

/// `s` is a port on its own. A plus sign may stand before it.
pub open spec fn is_port(s: Seq<char>, port: u16) -> bool {
    is_number(
        if s.len() > 0 && s[0] == '+' {
            s.skip(1)
        } else {
            s
        },
        port as nat,
    )
}

/// `s` is an address with a port: the octets without leading zeros, a colon,
/// the digits of the port.
pub open spec fn is_address(s: Seq<char>, addr: SocketAddr) -> bool {
    exists|port: Seq<char>|
        s == #[trigger] (ip_text(addr.ip).push(':') + port) && is_number(port, addr.port as nat)
}

/// What `s` says where an address or a port alone may stand. A port alone
/// goes with `default_host`.
pub open spec fn is_endpoint(s: Seq<char>, default_host: Ipv4Addr, addr: SocketAddr) -> bool {
    ||| is_port(s, addr.port) && addr.ip == default_host
    ||| is_address(s, addr)
}

/// What is said of an address that cannot be read.
pub open spec fn address_error(value: Seq<char>) -> Seq<char> {
    "invalid address '"@ + value + "': invalid socket address syntax"@
}

/// What reading a text gives: the one address that it says, or what is said of
/// a text that says none.
pub open spec fn is_read(
    value: Seq<char>,
    default_host: Ipv4Addr,
    result: Result<SocketAddr, String>,
) -> bool {
    match result {
        Ok(found) => {
            &&& is_endpoint(value, default_host, found)
            &&& forall|addr: SocketAddr| #[trigger]
                is_endpoint(value, default_host, addr) ==> addr == found
        },
        Err(message) => {
            &&& forall|addr: SocketAddr| !#[trigger] is_endpoint(value, default_host, addr)
            &&& message@ == address_error(value)
        },
    }
}

/// Reads an address, or a port alone, which goes with `default_host`. A text
/// that says an address says only one.
pub fn parse_addr(value: &str, default_host: Ipv4Addr) -> (result: Result<SocketAddr, String>)
    ensures
        is_read(value@, default_host, result),
{
    let chars = characters(value);
    proof {
        assert forall|addr: SocketAddr|
            #![trigger is_endpoint(value@, default_host, addr)]
            is_address(value@, addr) implies (forall|port: u16| !is_port(value@, port)) by {
            lemma_address_is_no_port(value@, addr);
        }
    }
    if let Some(port) = read_port(&chars) {
        assert(is_port(value@, port));
        return Ok(SocketAddr { ip: default_host, port });
    }
    if let Some(addr) = read_address(&chars) {
        return Ok(addr);
    }
    let mut message = String::new();
    message.append("invalid address '");
    message.append(value);
    message.append("': invalid socket address syntax");
    assert(message@ =~= address_error(value@));
    Err(message)
}

/// The characters of a string.
fn characters(s: &str) -> (chars: Vec<char>)
    ensures
        chars@ == s@,
{
    let mut chars: Vec<char> = Vec::new();
    for c in it: s.chars()
        invariant
            it.seq() == s@,
            chars@ == s@.take(it.index() as int),
    {
        proof {
            assert(s@.take(it.index() + 1) =~= s@.take(it.index() as int).push(c));
        }
        chars.push(c);
    }
    assert(s@.take(s@.len() as int) =~= s@);
    chars
}

/// Numbers grow as digits are added.
proof fn lemma_number_grows(s: Seq<char>, i: int)
    requires
        0 <= i <= s.len(),
    ensures
        text::number(s.take(i)) <= text::number(s),
    decreases s.len() - i,
{
    if i == s.len() {
        assert(s.take(i) =~= s);
    } else {
        lemma_number_grows(s, i + 1);
        assert(s.take(i + 1).drop_last() =~= s.take(i));
    }
}

/// Reads the digits from `from` to the end as a 16-bit number.
fn read_number(chars: &Vec<char>, from: usize) -> (result: Option<u16>)
    requires
        from <= chars.len(),
    ensures
        forall|n: u16|
            #![trigger is_number(chars@.skip(from as int), n as nat)]
            is_number(chars@.skip(from as int), n as nat) <==> result == Some(n),
{
    let ghost s = chars@.skip(from as int);
    if from == chars.len() {
        return None;
    }
    let mut value: u32 = 0;
    let mut i: usize = from;
    assert(text::number(s.take(0)) == 0);
    while i < chars.len()
        invariant
            from <= i <= chars.len(),
            s == chars@.skip(from as int),
            value <= 65535,
            value == text::number(s.take(i - from)),
            forall|j: int| 0 <= j < i - from ==> text::is_digit(#[trigger] s[j]),
        decreases chars.len() - i,
    {
        let c: char = chars[i];
        let ghost k = i - from;
        assert(s[k] == c);
        if c < '0' || c > '9' {
            return None;
        }
        proof {
            assert(s.take(k + 1).drop_last() =~= s.take(k));
            assert(s.take(k + 1).last() == c);
        }
        value = value * 10 + (c as u32 - 48);
        if value > 65535 {
            proof {
                lemma_number_grows(s, k + 1);
            }
            return None;
        }
        i = i + 1;
    }
    assert(s.take(s.len() as int) =~= s);
    Some(value as u16)
}

/// Reads a port that stands alone.
fn read_port(chars: &Vec<char>) -> (result: Option<u16>)
    ensures
        forall|n: u16| #[trigger] is_port(chars@, n) <==> result == Some(n),
{
    assert(chars@.skip(0) =~= chars@);
    let from: usize = if chars.len() > 0 && chars[0] == '+' {
        1
    } else {
        0
    };
    let result = read_number(chars, from);
    assert forall|n: u16| #[trigger] is_port(chars@, n) <==> result == Some(n) by {
        assert(is_number(chars@.skip(from as int), n as nat) <==> result == Some(n));
    }
    result
}

/// The part of `s` from `from` to `next` is `octet`, and `stop` after it.
spec fn is_part(s: Seq<char>, from: int, octet: u8, stop: char, next: int) -> bool {
    &&& 0 <= from <= next <= s.len()
    &&& s.subrange(from, next) == text::decimal(octet as nat).push(stop)
}

/// Reads an octet and the character after it.
fn read_part(chars: &Vec<char>, from: usize, stop: char) -> (result: Option<(u8, usize)>)
    requires
        from <= chars.len(),
        !text::is_digit(stop),
    ensures
        forall|octet: u8, next: int| #[trigger]
            is_part(chars@, from as int, octet, stop, next) <==> (result matches Some(
                found,
            ) && found.0 == octet && found.1 == next),
        result matches Some(found) ==> is_part(chars@, from as int, found.0, stop, found.1 as int),
{
    let ghost s = chars@;
    let mut value: u32 = 0;
    let mut end: usize = from;
    assert(s.subrange(from as int, from as int) =~= Seq::<char>::empty());
    assert(text::number(Seq::<char>::empty()) == 0);
    while end < chars.len() && end - from < 4 && chars[end] >= '0' && chars[end] <= '9'
        invariant
            s == chars@,
            from <= end <= chars.len(),
            end - from <= 4,
            value == text::number(s.subrange(from as int, end as int)),
            text::all_digits(s.subrange(from as int, end as int)),
            end - from == 0 ==> value == 0,
            end - from == 1 ==> value <= 9,
            end - from == 2 ==> value <= 99,
            end - from == 3 ==> value <= 999,
            end - from == 4 ==> value <= 9999,
        decreases chars.len() - end,
    {
        proof {
            let run = s.subrange(from as int, end + 1);
            assert(run.drop_last() =~= s.subrange(from as int, end as int));
            assert(run.last() == s[end as int]);
        }
        value = value * 10 + (chars[end] as u32 - 48);
        end = end + 1;
    }
    let ghost run = s.subrange(from as int, end as int);
    proof {
        assert forall|octet: u8, next: int|
            #[trigger] is_part(s, from as int, octet, stop, next) implies next == end + 1 && run
            == text::decimal(octet as nat) by {
            lemma_part_run(s, from as int, octet, stop, next, end as int);
        }
    }
    if end == from || end - from > 3 || (end - from > 1 && chars[from] == '0') || value > 255 {
        proof {
            assert forall|octet: u8, next: int|
                !#[trigger] is_part(s, from as int, octet, stop, next) by {
                if is_part(s, from as int, octet, stop, next) {
                    text::lemma_decimal(octet as nat);
                    lemma_octet_len(octet);
                    assert(run[0] == s[from as int]);
                }
            }
        }
        return None;
    }
    if end == chars.len() || chars[end] != stop {
        proof {
            assert forall|octet: u8, next: int|
                !#[trigger] is_part(s, from as int, octet, stop, next) by {
                if is_part(s, from as int, octet, stop, next) {
                    let part = s.subrange(from as int, next);
                    assert(part.last() == stop);
                    assert(part.last() == s[next - 1]);
                }
            }
        }
        return None;
    }
    proof {
        assert(run[0] == s[from as int]);
        text::lemma_number_decimal(run);
        assert(s.subrange(from as int, end + 1) =~= run.push(stop));
        assert forall|octet: u8, next: int|
            #[trigger] is_part(s, from as int, octet, stop, next) implies octet == value by {
            text::lemma_decimal(octet as nat);
        }
    }
    Some((value as u8, end + 1))
}

/// An octet ends where the digits end, and has three of them at most.
proof fn lemma_part_run(s: Seq<char>, from: int, octet: u8, stop: char, next: int, end: int)
    requires
        is_part(s, from, octet, stop, next),
        !text::is_digit(stop),
        from <= end <= s.len(),
        text::all_digits(s.subrange(from, end)),
        end == s.len() || end - from >= 4 || !text::is_digit(s[end]),
    ensures
        next == end + 1,
        s.subrange(from, end) == text::decimal(octet as nat),
{
    let digits = text::decimal(octet as nat);
    let part = s.subrange(from, next);
    text::lemma_decimal(octet as nat);
    lemma_octet_len(octet);
    assert(part == digits.push(stop));
    assert(part.len() == digits.len() + 1);
    assert(part[digits.len() as int] == stop);
    assert(part[digits.len() as int] == s[next - 1]);
    let run = s.subrange(from, end);
    if end > next - 1 {
        assert(run[next - 1 - from] == s[next - 1]);
        assert(false);
    }
    if end < next - 1 {
        assert(digits[end - from] == part[end - from]);
        assert(part[end - from] == s[end]);
        assert(text::is_digit(digits[end - from]));
        assert(false);
    }
    assert(run =~= digits) by {
        assert forall|i: int| 0 <= i < run.len() implies run[i] == digits[i] by {
            assert(part[i] == s[from + i]);
        }
    }
}

proof fn lemma_octet_len(octet: u8)
    ensures
        1 <= text::decimal(octet as nat).len() <= 3,
{
    reveal_with_fuel(text::decimal, 3);
}

/// An address, part by part.
spec fn has_parts(s: Seq<char>, addr: SocketAddr, n1: int, n2: int, n3: int, n4: int) -> bool {
    &&& is_part(s, 0, addr.ip.a, '.', n1)
    &&& is_part(s, n1, addr.ip.b, '.', n2)
    &&& is_part(s, n2, addr.ip.c, '.', n3)
    &&& is_part(s, n3, addr.ip.d, ':', n4)
    &&& is_number(s.skip(n4), addr.port as nat)
}

/// Where the parts of an address end.
spec fn part_ends(addr: SocketAddr) -> (int, int, int, int) {
    let n1 = text::decimal(addr.ip.a as nat).len() + 1;
    let n2 = n1 + text::decimal(addr.ip.b as nat).len() + 1;
    let n3 = n2 + text::decimal(addr.ip.c as nat).len() + 1;
    let n4 = n3 + text::decimal(addr.ip.d as nat).len() + 1;
    (n1 as int, n2 as int, n3 as int, n4 as int)
}

proof fn lemma_address_parts(s: Seq<char>, addr: SocketAddr)
    requires
        is_address(s, addr),
    ensures
        ({
            let (n1, n2, n3, n4) = part_ends(addr);
            has_parts(s, addr, n1, n2, n3, n4)
        }),
{
    let port = choose|port: Seq<char>|
        s == #[trigger] (ip_text(addr.ip).push(':') + port) && is_number(port, addr.port as nat);
    let (n1, n2, n3, n4) = part_ends(addr);
    assert(s.subrange(0, n1) =~= text::decimal(addr.ip.a as nat).push('.'));
    assert(s.subrange(n1, n2) =~= text::decimal(addr.ip.b as nat).push('.'));
    assert(s.subrange(n2, n3) =~= text::decimal(addr.ip.c as nat).push('.'));
    assert(s.subrange(n3, n4) =~= text::decimal(addr.ip.d as nat).push(':'));
    assert(s.skip(n4) =~= port);
}

proof fn lemma_parts_address(s: Seq<char>, addr: SocketAddr, n1: int, n2: int, n3: int, n4: int)
    requires
        has_parts(s, addr, n1, n2, n3, n4),
    ensures
        is_address(s, addr),
{
    let port = s.skip(n4);
    let whole = ip_text(addr.ip).push(':') + port;
    assert(s =~= s.subrange(0, n1) + s.subrange(n1, n2) + s.subrange(n2, n3) + s.subrange(n3, n4)
        + port);
    assert(whole =~= text::decimal(addr.ip.a as nat).push('.') + text::decimal(
        addr.ip.b as nat,
    ).push('.') + text::decimal(addr.ip.c as nat).push('.') + text::decimal(
        addr.ip.d as nat,
    ).push(':') + port);
}

/// An address has points in it, so it is no port.
proof fn lemma_address_is_no_port(s: Seq<char>, addr: SocketAddr)
    requires
        is_address(s, addr),
    ensures
        forall|port: u16| !is_port(s, port),
{
    lemma_address_parts(s, addr);
    let n1 = part_ends(addr).0;
    text::lemma_decimal(addr.ip.a as nat);
    assert(s.subrange(0, n1)[n1 - 1] == '.');
    assert(s[n1 - 1] == '.');
    assert(n1 >= 2);
    assert forall|port: u16| !is_port(s, port) by {
        if is_port(s, port) {
            if s[0] == '+' {
                assert(s.skip(1)[n1 - 2] == '.');
            }
        }
    }
}

/// Reads an address with a port.
fn read_address(chars: &Vec<char>) -> (result: Option<SocketAddr>)
    ensures
        forall|addr: SocketAddr| #[trigger] is_address(chars@, addr) <==> result == Some(addr),
{
    let ghost s = chars@;
    proof {
        assert forall|addr: SocketAddr| #[trigger] is_address(s, addr) implies ({
            let (n1, n2, n3, n4) = part_ends(addr);
            has_parts(s, addr, n1, n2, n3, n4)
        }) by {
            lemma_address_parts(s, addr);
        }
    }
    let (a, n1) = match read_part(chars, 0, '.') {
        Some(part) => part,
        None => {
            return None;
        },
    };
    let (b, n2) = match read_part(chars, n1, '.') {
        Some(part) => part,
        None => {
            return None;
        },
    };
    let (c, n3) = match read_part(chars, n2, '.') {
        Some(part) => part,
        None => {
            return None;
        },
    };
    let (d, n4) = match read_part(chars, n3, ':') {
        Some(part) => part,
        None => {
            return None;
        },
    };
    let port = match read_number(chars, n4) {
        Some(port) => port,
        None => {
            return None;
        },
    };
    let addr = SocketAddr { ip: Ipv4Addr { a, b, c, d }, port };
    proof {
        assert(is_part(s, 0, a, '.', n1 as int));
        assert(is_part(s, n1 as int, b, '.', n2 as int));
        assert(is_part(s, n2 as int, c, '.', n3 as int));
        assert(is_part(s, n3 as int, d, ':', n4 as int));
        assert(is_number(s.skip(n4 as int), port as nat));
        lemma_parts_address(s, addr, n1 as int, n2 as int, n3 as int, n4 as int);
    }
    Some(addr)
}

/// An address is read back as it was written.
pub proof fn law_written_addresses_are_read_back(addr: SocketAddr, default_host: Ipv4Addr)
    ensures
        is_endpoint(addr.text(), default_host, addr),
{
    let port = text::decimal(addr.port as nat);
    text::lemma_decimal(addr.port as nat);
    assert(is_number(port, addr.port as nat));
    assert(addr.text() == ip_text(addr.ip).push(':') + port);
}

/// A port alone, as it is written, goes with the default host.
pub proof fn law_a_port_alone_takes_the_default_host(port: u16, default_host: Ipv4Addr)
    ensures
        is_endpoint(
            text::decimal(port as nat),
            default_host,
            SocketAddr { ip: default_host, port },
        ),
{
    let s = text::decimal(port as nat);
    text::lemma_decimal(port as nat);
    assert(text::is_digit(s[0]));
    assert(is_port(s, port));
}

/// A zero in front changes no number.
proof fn lemma_leading_zero(t: Seq<char>)
    ensures
        text::number(seq!['0'] + t) == text::number(t),
    decreases t.len(),
{
    let s = seq!['0'] + t;
    if t.len() == 0 {
        assert(s.drop_last() =~= Seq::<char>::empty());
        assert(text::number(Seq::<char>::empty()) == 0);
        assert(t =~= Seq::<char>::empty());
    } else {
        lemma_leading_zero(t.drop_last());
        assert(s.drop_last() =~= seq!['0'] + t.drop_last());
    }
}

/// Zeros in front of a number are read as that number.
proof fn lemma_zeros_are_a_number(n: nat, zeros: nat)
    ensures
        is_number(Seq::new(zeros, |i: int| '0') + text::decimal(n), n),
    decreases zeros,
{
    let s = Seq::new(zeros, |i: int| '0') + text::decimal(n);
    text::lemma_decimal(n);
    if zeros == 0 {
        assert(s =~= text::decimal(n));
    } else {
        let less = Seq::new((zeros - 1) as nat, |i: int| '0') + text::decimal(n);
        lemma_zeros_are_a_number(n, (zeros - 1) as nat);
        assert(s =~= seq!['0'] + less);
        lemma_leading_zero(less);
        assert forall|i: int| 0 <= i < s.len() implies text::is_digit(#[trigger] s[i]) by {
            if i > 0 {
                assert(s[i] == less[i - 1]);
            }
        }
    }
}

/// What is read as a number is that number, with zeros in front or none.
proof fn lemma_a_number_is_zeros(s: Seq<char>, n: nat) -> (zeros: nat)
    requires
        is_number(s, n),
    ensures
        s == Seq::new(zeros, |i: int| '0') + text::decimal(n),
    decreases s.len(),
{
    if s[0] == '0' && s.len() > 1 {
        let rest = s.drop_first();
        assert(s =~= seq!['0'] + rest);
        lemma_leading_zero(rest);
        assert forall|i: int| 0 <= i < rest.len() implies text::is_digit(#[trigger] rest[i]) by {
            assert(rest[i] == s[i + 1]);
        }
        let zeros = lemma_a_number_is_zeros(rest, n);
        assert(s =~= Seq::new(zeros + 1, |i: int| '0') + text::decimal(n));
        zeros + 1
    } else {
        text::lemma_number_decimal(s);
        assert(s =~= Seq::new(0, |i: int| '0') + text::decimal(n));
        0
    }
}

/// A port that is written in digits, with a plus sign or zeros in front or
/// without, is read as that port of the default host.
pub proof fn law_ports_are_read(
    value: &str,
    default_host: Ipv4Addr,
    result: Result<SocketAddr, String>,
    plus: bool,
    zeros: nat,
    port: u16,
)
    requires
        call_ensures(parse_addr, (value, default_host), result),
        value@ == if plus {
            seq!['+'] + (Seq::new(zeros, |i: int| '0') + text::decimal(port as nat))
        } else {
            Seq::new(zeros, |i: int| '0') + text::decimal(port as nat)
        },
    ensures
        result matches Ok(found) && found.ip == default_host && found.port == port,
{
    let digits = Seq::new(zeros, |i: int| '0') + text::decimal(port as nat);
    lemma_zeros_are_a_number(port as nat, zeros);
    assert(text::is_digit(digits[0]));
    if plus {
        assert(value@.skip(1) =~= digits);
    }
    assert(is_port(value@, port));
    assert(is_endpoint(value@, default_host, SocketAddr { ip: default_host, port }));
}

/// Four octets in digits, points between them, a colon and a port in digits,
/// with zeros in front or without, are read as that address.
pub proof fn law_addresses_are_read(
    value: &str,
    default_host: Ipv4Addr,
    result: Result<SocketAddr, String>,
    ip: Ipv4Addr,
    zeros: nat,
    port: u16,
)
    requires
        call_ensures(parse_addr, (value, default_host), result),
        value@ == text::decimal(ip.a as nat).push('.') + text::decimal(ip.b as nat).push('.')
            + text::decimal(ip.c as nat).push('.') + text::decimal(ip.d as nat).push(':') + (
        Seq::new(zeros, |i: int| '0') + text::decimal(port as nat)),
    ensures
        result matches Ok(found) && found.ip == ip && found.port == port,
{
    let digits = Seq::new(zeros, |i: int| '0') + text::decimal(port as nat);
    let addr = SocketAddr { ip, port };
    lemma_zeros_are_a_number(port as nat, zeros);
    let whole = ip_text(addr.ip).push(':') + digits;
    assert(value@ =~= whole);
    assert(is_number(digits, addr.port as nat));
    assert(is_address(whole, addr));
    assert(is_endpoint(value@, default_host, addr));
}

/// Nothing else is read. What is said of a text that is not read names it.
pub proof fn law_nothing_else_is_read(
    value: &str,
    default_host: Ipv4Addr,
    result: Result<SocketAddr, String>,
) -> (zeros: nat)
    requires
        call_ensures(parse_addr, (value, default_host), result),
    ensures
        result matches Err(message) ==> message@ == "invalid address '"@ + value@
            + "': invalid socket address syntax"@,
        result matches Ok(found) ==> ({
            let digits = Seq::new(zeros, |i: int| '0') + text::decimal(found.port as nat);
            ||| value@ == digits && found.ip == default_host
            ||| value@ == seq!['+'] + digits && found.ip == default_host
            ||| value@ == text::decimal(found.ip.a as nat).push('.') + text::decimal(
                found.ip.b as nat,
            ).push('.') + text::decimal(found.ip.c as nat).push('.') + text::decimal(
                found.ip.d as nat,
            ).push(':') + digits
        }),
{
    assert(is_read(value@, default_host, result));
    match result {
        Ok(found) => {
            if is_address(value@, found) {
                let port = choose|port: Seq<char>|
                    value@ == #[trigger] (ip_text(found.ip).push(':') + port) && is_number(
                        port,
                        found.port as nat,
                    );
                let zeros = lemma_a_number_is_zeros(port, found.port as nat);
                assert(value@ =~= text::decimal(found.ip.a as nat).push('.') + text::decimal(
                    found.ip.b as nat,
                ).push('.') + text::decimal(found.ip.c as nat).push('.') + text::decimal(
                    found.ip.d as nat,
                ).push(':') + port);
                zeros
            } else if value@.len() > 0 && value@[0] == '+' {
                let zeros = lemma_a_number_is_zeros(value@.skip(1), found.port as nat);
                assert(value@ =~= seq!['+'] + value@.skip(1));
                zeros
            } else {
                lemma_a_number_is_zeros(value@, found.port as nat)
            }
        },
        Err(message) => 0,
    }
}

/// An address is written as its four octets in their order, points between
/// them, a colon, and its port.
pub proof fn law_addresses_are_written_in_order(addr: SocketAddr, written: String)
    requires
        call_ensures(SocketAddr::to_text, (&addr,), written),
    ensures
        written@ == text::decimal(addr.ip.a as nat).push('.') + text::decimal(
            addr.ip.b as nat,
        ).push('.') + text::decimal(addr.ip.c as nat).push('.') + text::decimal(
            addr.ip.d as nat,
        ).push(':') + text::decimal(addr.port as nat),
        addr.text() == written@,
{
    assert(written@ =~= text::decimal(addr.ip.a as nat).push('.') + text::decimal(
        addr.ip.b as nat,
    ).push('.') + text::decimal(addr.ip.c as nat).push('.') + text::decimal(addr.ip.d as nat).push(
        ':',
    ) + text::decimal(addr.port as nat));
}

/// An address is made of what it is given.
pub proof fn law_addresses_are_made(
    a: u8,
    b: u8,
    c: u8,
    d: u8,
    ip: Ipv4Addr,
    port: u16,
    addr: SocketAddr,
)
    requires
        call_ensures(Ipv4Addr::new, (a, b, c, d), ip),
        call_ensures(SocketAddr::new, (ip, port), addr),
    ensures
        ip.a == a && ip.b == b && ip.c == c && ip.d == d,
        addr.ip == ip && addr.port == port,
{
}

} // verus!
