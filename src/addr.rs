use vstd::prelude::*;
use vstd::string::{StrSliceExecFns, StringSliceAdditionalSpecFns};

use crate::ipv6::{
    lemma_v6_round_trip, lemma_v6_text_chars, parse_v6_at, push_v6, v6_groups, v6_text,
};
use crate::text::{
    all_ascii, char_digit, digits, find, find_byte, join, lemma_digits, lemma_find_after,
    lemma_join_ascii, lemma_join_chars, lemma_join_exclude, lemma_parse_fields_shape,
    lemma_parse_join, lemma_parse_number_digits, nats, parse_fields, parse_fields_at,
    parse_number, parse_number_at, push_digits, push_joined,
};

verus! {

/// An IP address: four octets, or eight 16-bit groups.
#[derive(Clone, Copy, Debug, PartialEq, Eq, Structural, Hash)]
pub enum IpAddr {
    V4(u8, u8, u8, u8),
    V6(u16, u16, u16, u16, u16, u16, u16, u16),
}

/// An IP address with a port.
#[derive(Clone, Copy, Debug, PartialEq, Eq, Structural, Hash)]
pub struct SocketAddr {
    pub ip: IpAddr,
    pub port: u16,
}

/// Protocol agnostic address: a socket address tagged with its transport.
#[derive(Clone, Copy, Debug, PartialEq, Eq, Structural, Hash)]
pub enum PaAddr {
    /// TCP socket address.
    Tcp(SocketAddr),
    /// uTP socket address.
    Utp(SocketAddr),
}

/// Whether `ip` is the unspecified address of its family.
pub open spec fn is_unspecified(ip: IpAddr) -> bool {
    match ip {
        IpAddr::V4(a, b, c, d) => a == 0 && b == 0 && c == 0 && d == 0,
        IpAddr::V6(a, b, c, d, e, f, g, h) => a == 0 && b == 0 && c == 0 && d == 0 && e == 0
            && f == 0 && g == 0 && h == 0,
    }
}

/// Whether two addresses belong to the same family.
pub open spec fn same_family(x: IpAddr, y: IpAddr) -> bool {
    (x is V4 && y is V4) || (x is V6 && y is V6)
}

/// The loopback address `127.0.0.1`.
pub open spec fn localhost() -> IpAddr {
    IpAddr::V4(127, 0, 0, 1)
}

impl PaAddr {
    /// The socket address without the protocol.
    pub open spec fn socket(self) -> SocketAddr {
        match self {
            PaAddr::Tcp(a) => a,
            PaAddr::Utp(a) => a,
        }
    }

    /// This address's protocol over another socket address.
    pub open spec fn with_socket(self, a: SocketAddr) -> PaAddr {
        match self {
            PaAddr::Tcp(_) => PaAddr::Tcp(a),
            PaAddr::Utp(_) => PaAddr::Utp(a),
        }
    }

    /// What expanding this address over the local interface addresses `ips`
    /// gives: each address of its family, with its port and protocol, when it
    /// is unspecified; else itself alone.
    pub open spec fn expanded(self, ips: Seq<IpAddr>) -> Seq<PaAddr>
        decreases ips.len(),
    {
        if !is_unspecified(self.socket().ip) {
            seq![self]
        } else if ips.len() == 0 {
            Seq::empty()
        } else {
            let prev = self.expanded(ips.drop_last());
            if same_family(ips.last(), self.socket().ip) {
                prev.push(self.with_socket(SocketAddr { ip: ips.last(), port: self.socket().port }))
            } else {
                prev
            }
        }
    }

    /// Returns the socket's IP address.
    pub fn ip(&self) -> (r: IpAddr)
        ensures
            r == self.socket().ip,
    {
        match *self {
            PaAddr::Tcp(addr) => addr.ip,
            PaAddr::Utp(addr) => addr.ip,
        }
    }

    /// Returns the socket address without protocol information.
    pub fn inner(&self) -> (r: SocketAddr)
        ensures
            r == self.socket(),
    {
        match *self {
            PaAddr::Tcp(addr) => addr,
            PaAddr::Utp(addr) => addr,
        }
    }

    /// Where the socket address is unspecified, the same address for each
    /// local interface address of its family in `local_ips`; otherwise a list
    /// of this address alone.
    pub fn expand_local_unspecified(&self, local_ips: &Vec<IpAddr>) -> (r: Vec<PaAddr>)
        ensures
            r@ == self.expanded(local_ips@),
    {
        let sock = self.inner();
        if !is_unspecified_ip(sock.ip) {
            return vec![*self];
        }
        let mut out: Vec<PaAddr> = Vec::new();
        let mut i: usize = 0;
        while i < local_ips.len()
            invariant
                i <= local_ips@.len(),
                sock == self.socket(),
                is_unspecified(sock.ip),
                out@ == self.expanded(local_ips@.take(i as int)),
            decreases local_ips@.len() - i,
        {
            let ip = local_ips[i];
            let same = match (ip, sock.ip) {
                (IpAddr::V4(..), IpAddr::V4(..)) => true,
                (IpAddr::V6(..), IpAddr::V6(..)) => true,
                _ => false,
            };
            let ghost t = local_ips@.take(i + 1);
            assert(t.drop_last() =~= local_ips@.take(i as int));
            assert(t.last() == ip);
            if same {
                let a = SocketAddr { ip, port: sock.port };
                let tagged = match *self {
                    PaAddr::Tcp(_) => PaAddr::Tcp(a),
                    PaAddr::Utp(_) => PaAddr::Utp(a),
                };
                out.push(tagged);
            }
            i = i + 1;
        }
        assert(local_ips@.take(local_ips@.len() as int) =~= local_ips@);
        out
    }

    /// Where the IP address is unspecified, the same address on
    /// `127.0.0.1`; otherwise the address unchanged.
    pub fn unspecified_to_localhost(&self) -> (r: PaAddr)
        ensures
            r == if is_unspecified(self.socket().ip) {
                self.with_socket(SocketAddr { ip: localhost(), port: self.socket().port })
            } else {
                *self
            },
    {
        match *self {
            PaAddr::Tcp(addr) => {
                if is_unspecified_ip(addr.ip) {
                    PaAddr::Tcp(SocketAddr { ip: IpAddr::V4(127, 0, 0, 1), port: addr.port })
                } else {
                    PaAddr::Tcp(addr)
                }
            },
            PaAddr::Utp(addr) => {
                if is_unspecified_ip(addr.ip) {
                    PaAddr::Utp(SocketAddr { ip: IpAddr::V4(127, 0, 0, 1), port: addr.port })
                } else {
                    PaAddr::Utp(addr)
                }
            },
        }
    }

    /// Checks if this is a TCP address.
    pub fn is_tcp(&self) -> (r: bool)
        ensures
            r == self is Tcp,
    {
        match *self {
            PaAddr::Tcp(..) => true,
            _ => false,
        }
    }

    /// Checks if this is a uTP address.
    pub fn is_utp(&self) -> (r: bool)
        ensures
            r == self is Utp,
    {
        match *self {
            PaAddr::Utp(..) => true,
            _ => false,
        }
    }
}

/// Whether `ip` is the unspecified address of its family.
pub fn is_unspecified_ip(ip: IpAddr) -> (r: bool)
    ensures
        r == is_unspecified(ip),
{
    match ip {
        IpAddr::V4(a, b, c, d) => a == 0 && b == 0 && c == 0 && d == 0,
        IpAddr::V6(a, b, c, d, e, f, g, h) => a == 0 && b == 0 && c == 0 && d == 0 && e == 0 && f
            == 0 && g == 0 && h == 0,
    }
}

/// Why a text is no address.
#[derive(Clone, Debug)]
pub enum ParseError {
    /// The text is not of the form `<scheme>://<host>:<port>`.
    MalformedUrl,
    /// The host is no IP address.
    MalformedHost,
    /// The scheme is neither `tcp` nor `utp`: the scheme's bytes.
    UnknownScheme(Vec<u8>),
    /// No port number follows the host.
    MissingPort,
}

/// A `ParseError` as a mathematical value.
pub enum ParseErrorModel {
    MalformedUrl,
    MalformedHost,
    UnknownScheme(Seq<u8>),
    MissingPort,
}

impl View for ParseError {
    type V = ParseErrorModel;

    open spec fn view(&self) -> ParseErrorModel {
        match self {
            ParseError::MalformedUrl => ParseErrorModel::MalformedUrl,
            ParseError::MalformedHost => ParseErrorModel::MalformedHost,
            ParseError::UnknownScheme(s) => ParseErrorModel::UnknownScheme(s@),
            ParseError::MissingPort => ParseErrorModel::MissingPort,
        }
    }
}

/// A parse result as a mathematical value.
pub open spec fn result_view(r: Result<PaAddr, ParseError>) -> Result<PaAddr, ParseErrorModel> {
    match r {
        Ok(a) => Ok(a),
        Err(e) => Err(e@),
    }
}

/// ASCII `:`, `/`, `.`, `[` and `]`.
pub const COLON: u8 = 58;
pub const SLASH: u8 = 47;
pub const DOT: u8 = 46;
pub const OPEN_BRACKET: u8 = 91;
pub const CLOSE_BRACKET: u8 = 93;

/// The numbers an IP address is written with: four octets or eight groups.
pub open spec fn ip_fields(ip: IpAddr) -> Seq<nat> {
    match ip {
        IpAddr::V4(a, b, c, d) => seq![a as nat, b as nat, c as nat, d as nat],
        IpAddr::V6(a, b, c, d, e, f, g, h) => seq![
            a as nat,
            b as nat,
            c as nat,
            d as nat,
            e as nat,
            f as nat,
            g as nat,
            h as nat,
        ],
    }
}

/// The IPv4 address of four octets.
pub open spec fn v4_of(fs: Seq<nat>) -> IpAddr {
    IpAddr::V4(fs[0] as u8, fs[1] as u8, fs[2] as u8, fs[3] as u8)
}

/// The IPv6 address of eight groups.
pub open spec fn v6_of(fs: Seq<nat>) -> IpAddr {
    IpAddr::V6(
        fs[0] as u16,
        fs[1] as u16,
        fs[2] as u16,
        fs[3] as u16,
        fs[4] as u16,
        fs[5] as u16,
        fs[6] as u16,
        fs[7] as u16,
    )
}

/// The text of an IP address: dotted decimal octets, or the IPv6 text of
/// its eight groups in brackets.
pub open spec fn ip_text(ip: IpAddr) -> Seq<u8> {
    match ip {
        IpAddr::V4(..) => join(ip_fields(ip), DOT, 10),
        IpAddr::V6(..) => seq![OPEN_BRACKET] + v6_text(ip_fields(ip)) + seq![CLOSE_BRACKET],
    }
}

/// The scheme of an address: `tcp` or `utp`.
pub open spec fn scheme_text(a: PaAddr) -> Seq<u8> {
    match a {
        PaAddr::Tcp(_) => seq![116u8, 99u8, 112u8],
        PaAddr::Utp(_) => seq![117u8, 116u8, 112u8],
    }
}

/// The text of an address: `<scheme>://<host>:<port>`.
pub open spec fn addr_text(a: PaAddr) -> Seq<u8> {
    scheme_text(a) + seq![COLON, SLASH, SLASH] + ip_text(a.socket().ip) + seq![COLON] + digits(
        a.socket().port as nat,
        10,
    )
}

/// ASCII `?` and `#`.
pub const QUESTION: u8 = 63;
pub const HASH: u8 = 35;

/// Whether `c` ends the host and port part of a URL: `/`, `?` or `#`.
pub open spec fn is_delim(c: u8) -> bool {
    c == SLASH || c == QUESTION || c == HASH
}

/// The index of the first `/`, `?` or `#` in `s`, or its length.
pub open spec fn authority_end(s: Seq<u8>) -> nat
    decreases s.len(),
{
    if s.len() == 0 {
        0
    } else if is_delim(s[0]) {
        0
    } else {
        1 + authority_end(s.drop_first())
    }
}

/// The port written in `t`, if any: an empty text gives none, and one that
/// is no number below 65536 makes the URL malformed.
pub open spec fn port_text(t: Seq<u8>) -> Result<Option<u16>, ParseErrorModel> {
    if t.len() == 0 {
        Ok(None)
    } else {
        match parse_number(t, 10, 65535) {
            Some(p) => Ok(Some(p as u16)),
            None => Err(ParseErrorModel::MalformedUrl),
        }
    }
}

/// The socket address written in `auth`, the host and port part of a URL.
/// Faults of the URL itself come first (an empty host, a bad port, a bad
/// bracketed host); then a host that is no IP address; then a missing port.
pub open spec fn socket_of(auth: Seq<u8>) -> Result<SocketAddr, ParseErrorModel> {
    if auth.len() > 0 && auth[0] == OPEN_BRACKET {
        let c = find(auth, CLOSE_BRACKET) as int;
        if c >= auth.len() {
            Err(ParseErrorModel::MalformedUrl)
        } else if c + 1 < auth.len() && auth[c + 1] != COLON {
            Err(ParseErrorModel::MalformedUrl)
        } else {
            let pt = if c + 1 < auth.len() {
                auth.subrange(c + 2, auth.len() as int)
            } else {
                Seq::empty()
            };
            match port_text(pt) {
                Err(e) => Err(e),
                Ok(port) => match v6_groups(auth.subrange(1, c)) {
                    None => Err(ParseErrorModel::MalformedUrl),
                    Some(fs) => match port {
                        None => Err(ParseErrorModel::MissingPort),
                        Some(p) => Ok(SocketAddr { ip: v6_of(fs), port: p }),
                    },
                },
            }
        }
    } else {
        let q = find(auth, COLON) as int;
        if q == 0 {
            Err(ParseErrorModel::MalformedUrl)
        } else {
            let pt = if q < auth.len() {
                auth.subrange(q + 1, auth.len() as int)
            } else {
                Seq::empty()
            };
            match port_text(pt) {
                Err(e) => Err(e),
                Ok(port) => match parse_fields(auth.subrange(0, q), DOT, 10, 255, 4) {
                    None => Err(ParseErrorModel::MalformedHost),
                    Some(fs) => match port {
                        None => Err(ParseErrorModel::MissingPort),
                        Some(p) => Ok(SocketAddr { ip: v4_of(fs), port: p }),
                    },
                },
            }
        }
    }
}

/// Whether `c` is an ASCII letter.
pub open spec fn is_alpha(c: u8) -> bool {
    (65 <= c <= 90) || (97 <= c <= 122)
}

/// Whether `c` may stand in a URL scheme after its first letter.
pub open spec fn is_scheme_char(c: u8) -> bool {
    is_alpha(c) || (48 <= c <= 57) || c == 43 || c == 45 || c == DOT
}

/// Whether `x` is a URL scheme: a letter, then letters, digits, `+`, `-`
/// or `.`.
pub open spec fn valid_scheme(x: Seq<u8>) -> bool {
    &&& x.len() >= 1
    &&& is_alpha(x[0])
    &&& forall|i: int| 1 <= i < x.len() ==> #[trigger] is_scheme_char(x[i])
}

/// An ASCII byte in lower case.
pub open spec fn lower_byte(c: u8) -> u8 {
    if 65 <= c <= 90 {
        (c + 32) as u8
    } else {
        c
    }
}

/// The bytes of `s` with ASCII letters in lower case.
pub open spec fn lower(s: Seq<u8>) -> Seq<u8> {
    s.map_values(|c: u8| lower_byte(c))
}

/// The address written in `s`, or why there is none. The scheme is what
/// stands before the first `:`, read without regard to case and reported in
/// lower case. The host and port part ends at `/`, `?` or `#`.
pub open spec fn parse_text(s: Seq<u8>) -> Result<PaAddr, ParseErrorModel> {
    let p = find(s, COLON) as int;
    if p >= s.len() || !valid_scheme(s.subrange(0, p)) {
        Err(ParseErrorModel::MalformedUrl)
    } else {
        let scheme = lower(s.subrange(0, p));
        if scheme != seq![116u8, 99u8, 112u8] && scheme != seq![117u8, 116u8, 112u8] {
            Err(ParseErrorModel::UnknownScheme(scheme))
        } else if p + 3 > s.len() || s[p + 1] != SLASH || s[p + 2] != SLASH {
            Err(ParseErrorModel::MalformedUrl)
        } else {
            let rest = s.subrange(p + 3, s.len() as int);
            match socket_of(rest.subrange(0, authority_end(rest) as int)) {
                Ok(a) => if scheme == seq![116u8, 99u8, 112u8] {
                    Ok(PaAddr::Tcp(a))
                } else {
                    Ok(PaAddr::Utp(a))
                },
                Err(e) => Err(e),
            }
        }
    }
}

/// `authority_end` stops at the first delimiter after a run without one.
pub proof fn lemma_authority_end_at(x: Seq<u8>, c: u8, y: Seq<u8>)
    requires
        forall|i: int| 0 <= i < x.len() ==> !is_delim(#[trigger] x[i]),
        is_delim(c),
    ensures
        authority_end(x + seq![c] + y) == x.len(),
    decreases x.len(),
{
    let t = x + seq![c] + y;
    if x.len() == 0 {
        assert(t[0] == c);
    } else {
        assert(t[0] == x[0]);
        assert(t.drop_first() =~= x.drop_first() + seq![c] + y);
        assert forall|i: int| 0 <= i < x.drop_first().len() implies !is_delim(
            #[trigger] x.drop_first()[i],
        ) by {
            assert(x.drop_first()[i] == x[i + 1]);
        }
        lemma_authority_end_at(x.drop_first(), c, y);
    }
}

/// `authority_end` runs to the end of a text without a delimiter.
pub proof fn lemma_authority_end_none(x: Seq<u8>)
    requires
        forall|i: int| 0 <= i < x.len() ==> !is_delim(#[trigger] x[i]),
    ensures
        authority_end(x) == x.len(),
    decreases x.len(),
{
    if x.len() > 0 {
        assert(!is_delim(x[0]));
        assert forall|i: int| 0 <= i < x.drop_first().len() implies !is_delim(
            #[trigger] x.drop_first()[i],
        ) by {
            assert(x.drop_first()[i] == x[i + 1]);
        }
        lemma_authority_end_none(x.drop_first());
    }
}

/// The host and port text of a socket address holds no delimiter.
pub proof fn lemma_socket_text_no_delim(sock: SocketAddr)
    ensures
        ({
            let t = ip_text(sock.ip) + seq![COLON] + digits(sock.port as nat, 10);
            forall|i: int| 0 <= i < t.len() ==> !is_delim(#[trigger] t[i])
        }),
{
    let ip = sock.ip;
    let fs = ip_fields(ip);
    let h = ip_text(ip);
    let p = digits(sock.port as nat, 10);
    let t = h + seq![COLON] + p;
    lemma_digits(sock.port as nat, 10);
    lemma_join_chars(fs, DOT, 10);
    if ip is V6 {
        lemma_v6_text_chars(fs);
    }
    assert forall|i: int| 0 <= i < t.len() implies !is_delim(#[trigger] t[i]) by {
        if i < h.len() {
            assert(t[i] == h[i]);
            if ip is V4 {
                assert(h[i] == DOT || char_digit(h[i], 10) is Some);
            } else if 0 < i < h.len() - 1 {
                assert(h[i] == v6_text(fs)[i - 1]);
            }
        } else if i > h.len() {
            assert(t[i] == p[i - h.len() - 1]);
            assert(char_digit(p[i - h.len() - 1], 10) is Some);
        }
    }
}

/// The text of an IPv4 socket address after `://` reads back as it.
pub proof fn lemma_socket_of_v4(sock: SocketAddr)
    requires
        sock.ip is V4,
    ensures
        socket_of(ip_text(sock.ip) + seq![COLON] + digits(sock.port as nat, 10)) == Ok::<
            SocketAddr,
            ParseErrorModel,
        >(sock),
{
    let ip = sock.ip;
    let fs = ip_fields(ip);
    let host = ip_text(ip);
    let port = digits(sock.port as nat, 10);
    let rest = host + seq![COLON] + port;
    lemma_parse_number_digits(sock.port as nat, 10, 65535);
    lemma_digits(sock.port as nat, 10);
    lemma_join_exclude(fs, DOT, 10, COLON);
    lemma_find_after(host, COLON, port);
    lemma_digits(fs[0], 10);
    assert(fs.drop_first().len() == 3);
    assert(host == digits(fs[0], 10) + seq![DOT] + join(fs.drop_first(), DOT, 10));
    assert(host[0] == digits(fs[0], 10)[0]);
    assert(char_digit(host[0], 10) is Some);
    assert(rest[0] == host[0]);
    assert(rest.subrange(0, host.len() as int) =~= host);
    assert(rest.subrange(host.len() as int + 1, rest.len() as int) =~= port);
    assert(host.len() < rest.len());
    lemma_parse_join(fs, DOT, 10, 255);
    assert(v4_of(fs) == ip);
}

/// The text of an IPv6 socket address after `://` reads back as it.
#[verifier::rlimit(60)]
pub proof fn lemma_socket_of_v6(sock: SocketAddr)
    requires
        sock.ip is V6,
    ensures
        socket_of(ip_text(sock.ip) + seq![COLON] + digits(sock.port as nat, 10)) == Ok::<
            SocketAddr,
            ParseErrorModel,
        >(sock),
{
    let ip = sock.ip;
    let fs = ip_fields(ip);
    let port = digits(sock.port as nat, 10);
    let inner = v6_text(fs);
    let x = seq![OPEN_BRACKET] + inner;
    let tail = seq![COLON] + port;
    let rest = ip_text(ip) + seq![COLON] + port;
    lemma_parse_number_digits(sock.port as nat, 10, 65535);
    lemma_digits(sock.port as nat, 10);
    lemma_v6_text_chars(fs);
    assert(rest =~= x + seq![CLOSE_BRACKET] + tail);
    assert(!x.contains(CLOSE_BRACKET)) by {
        if x.contains(CLOSE_BRACKET) {
            let i = choose|i: int| 0 <= i < x.len() && x[i] == CLOSE_BRACKET;
            assert(inner[i - 1] == CLOSE_BRACKET);
        }
    }
    lemma_find_after(x, CLOSE_BRACKET, tail);
    let c = inner.len() as int + 1;
    assert(rest[0] == OPEN_BRACKET);
    assert(rest[c + 1] == COLON);
    assert(c + 1 < rest.len());
    assert(rest.subrange(1, c) =~= inner);
    assert(rest.subrange(c + 2, rest.len() as int) =~= port);
    lemma_v6_round_trip(fs);
    assert(v6_of(fs) == ip);
}

/// Parsing the text of an address gives the address back, for both
/// protocols and both IP families.
pub proof fn lemma_parse_format(a: PaAddr)
    ensures
        parse_text(addr_text(a)) == Ok::<PaAddr, ParseErrorModel>(a),
{
    let sock = a.socket();
    let scheme = scheme_text(a);
    let rest = ip_text(sock.ip) + seq![COLON] + digits(sock.port as nat, 10);
    let s = addr_text(a);
    assert(s =~= scheme + seq![COLON] + (seq![SLASH, SLASH] + rest));
    assert(!scheme.contains(COLON)) by {
        if scheme.contains(COLON) {
            let i = choose|i: int| 0 <= i < scheme.len() && scheme[i] == COLON;
        }
    }
    lemma_find_after(scheme, COLON, seq![SLASH, SLASH] + rest);
    assert(s.subrange(0, 3) =~= scheme);
    assert(lower(scheme) =~= scheme);
    assert(valid_scheme(scheme));
    assert(s.subrange(6, s.len() as int) =~= rest);
    lemma_socket_text_no_delim(sock);
    lemma_authority_end_none(rest);
    assert(rest.subrange(0, rest.len() as int) =~= rest);
    if sock.ip is V4 {
        lemma_socket_of_v4(sock);
    } else {
        lemma_socket_of_v6(sock);
    }
}

/// The text of every address is ASCII.
pub proof fn lemma_addr_text_ascii(a: PaAddr)
    ensures
        all_ascii(addr_text(a)),
{
    let ip = a.socket().ip;
    lemma_join_ascii(ip_fields(ip), DOT, 10);
    lemma_join_ascii(seq![a.socket().port as nat], COLON, 10);
    assert(join(seq![a.socket().port as nat], COLON, 10) == digits(a.socket().port as nat, 10));
    let h = ip_text(ip);
    assert(all_ascii(h)) by {
        if ip is V6 {
            let j = v6_text(ip_fields(ip));
            lemma_v6_text_chars(ip_fields(ip));
            assert forall|i: int| 0 <= i < h.len() implies #[trigger] h[i] < 128 by {
                if 0 < i < h.len() - 1 {
                    assert(h[i] == j[i - 1]);
                    assert(j[i - 1] == COLON || j[i - 1] == DOT || char_digit(j[i - 1], 16) is Some);
                }
            }
        }
    }
    let p = digits(a.socket().port as nat, 10);
    let x = scheme_text(a) + seq![COLON, SLASH, SLASH];
    let t = addr_text(a);
    assert(t =~= x + h + seq![COLON] + p);
    assert forall|i: int| 0 <= i < t.len() implies #[trigger] t[i] < 128 by {
        if i < x.len() {
            assert(t[i] == x[i]);
        } else if i < x.len() + h.len() {
            assert(t[i] == h[i - x.len()]);
        } else if i > x.len() + h.len() {
            assert(t[i] == p[i - x.len() - h.len() - 1]);
        }
    }
}

/// The characters of ASCII bytes.
pub open spec fn ascii_chars(s: Seq<u8>) -> Seq<char> {
    s.map_values(|b: u8| b as char)
}

/// Reading the string that `to_url_string` writes gives the address back:
/// the UTF-8 bytes of that string are the address's text.
pub proof fn lemma_string_round_trip(a: PaAddr)
    ensures
        parse_text(vstd::utf8::encode_utf8(ascii_chars(addr_text(a)))) == Ok::<
            PaAddr,
            ParseErrorModel,
        >(a),
{
    let t = addr_text(a);
    let cs = ascii_chars(t);
    lemma_addr_text_ascii(a);
    assert(vstd::utf8::is_ascii_chars(cs)) by {
        assert forall|i: int| 0 <= i < cs.len() implies '\0' <= #[trigger] cs[i] <= '\u{7f}' by {
            assert(t[i] < 128);
        }
    }
    vstd::utf8::is_ascii_chars_encode_utf8(cs);
    let e = vstd::utf8::encode_utf8(cs);
    assert forall|i: int| 0 <= i < t.len() implies e[i] == t[i] by {
        assert(cs[i] as u8 == e[i]);
        assert(cs[i] == t[i] as char);
    }
    assert(e =~= t);
    lemma_parse_format(a);
}

/// Relies on `String::from_utf8`: ASCII bytes are valid UTF-8 and each
/// becomes the character of the same code.
#[verifier::external_body]
fn string_from_ascii(v: Vec<u8>) -> (r: String)
    requires
        all_ascii(v@),
    ensures
        r@ == ascii_chars(v@),
{
    String::from_utf8(v).unwrap()
}

/// The numbers an IP address is written with.
fn ip_field_vec(ip: IpAddr) -> (r: Vec<u32>)
    ensures
        nats(r@) == ip_fields(ip),
        r@.len() == ip_fields(ip).len(),
        forall|i: int| 0 <= i < r@.len() ==> #[trigger] r@[i] <= 65535,
{
    let r = match ip {
        IpAddr::V4(a, b, c, d) => vec![a as u32, b as u32, c as u32, d as u32],
        IpAddr::V6(a, b, c, d, e, f, g, h) => vec![
            a as u32,
            b as u32,
            c as u32,
            d as u32,
            e as u32,
            f as u32,
            g as u32,
            h as u32,
        ],
    };
    assert(nats(r@) =~= ip_fields(ip));
    r
}

/// Reads the port written in `s[lo..hi]`, if any.
fn port_at(s: &Vec<u8>, lo: usize, hi: usize) -> (r: Result<Option<u16>, ParseError>)
    requires
        lo <= hi <= s@.len(),
    ensures
        match port_text(s@.subrange(lo as int, hi as int)) {
            Ok(p) => r == Ok::<Option<u16>, ParseError>(p),
            Err(e) => r is Err && r->Err_0@ == e,
        },
{
    if lo == hi {
        return Ok(None);
    }
    match parse_number_at(s, lo, hi, 10, 65535) {
        Some(p) => Ok(Some(p as u16)),
        None => Err(ParseError::MalformedUrl),
    }
}

/// The index of the first `/`, `?` or `#` in `s[lo..hi]`, or `hi`.
fn find_delim(s: &Vec<u8>, lo: usize, hi: usize) -> (r: usize)
    requires
        lo <= hi <= s@.len(),
    ensures
        r == lo + authority_end(s@.subrange(lo as int, hi as int)),
        lo <= r <= hi,
{
    let mut i: usize = lo;
    while i < hi
        invariant
            lo <= i <= hi <= s@.len(),
            forall|j: int| lo <= j < i ==> !is_delim(#[trigger] s@[j]),
        decreases hi - i,
    {
        let c = s[i];
        if c == SLASH || c == QUESTION || c == HASH {
            proof {
                let x = s@.subrange(lo as int, i as int);
                let y = s@.subrange(i + 1, hi as int);
                assert(s@.subrange(lo as int, hi as int) =~= x + seq![c] + y);
                assert forall|j: int| 0 <= j < x.len() implies !is_delim(#[trigger] x[j]) by {
                    assert(x[j] == s@[lo + j]);
                }
                lemma_authority_end_at(x, c, y);
            }
            return i;
        }
        i = i + 1;
    }
    proof {
        let x = s@.subrange(lo as int, hi as int);
        assert forall|j: int| 0 <= j < x.len() implies !is_delim(#[trigger] x[j]) by {
            assert(x[j] == s@[lo + j]);
        }
        lemma_authority_end_none(x);
    }
    hi
}

/// Whether `s[0..p]` is a URL scheme.
fn is_valid_scheme(s: &Vec<u8>, p: usize) -> (r: bool)
    requires
        p <= s@.len(),
    ensures
        r == valid_scheme(s@.subrange(0, p as int)),
{
    let ghost x = s@.subrange(0, p as int);
    if p == 0 {
        return false;
    }
    let c0 = s[0];
    if !((65 <= c0 && c0 <= 90) || (97 <= c0 && c0 <= 122)) {
        assert(x[0] == c0);
        return false;
    }
    let mut i: usize = 1;
    while i < p
        invariant
            1 <= i <= p <= s@.len(),
            x == s@.subrange(0, p as int),
            forall|j: int| 1 <= j < i ==> #[trigger] is_scheme_char(x[j]),
        decreases p - i,
    {
        let c = s[i];
        assert(x[i as int] == c);
        if !((65 <= c && c <= 90) || (97 <= c && c <= 122) || (48 <= c && c <= 57) || c == 43
            || c == 45 || c == DOT) {
            assert(!is_scheme_char(x[i as int]));
            assert(!valid_scheme(x));
            return false;
        }
        i = i + 1;
    }
    assert(x[0] == c0);
    true
}

/// The bytes of `s[lo..hi]` with ASCII letters in lower case.
fn lower_range(s: &Vec<u8>, lo: usize, hi: usize) -> (r: Vec<u8>)
    requires
        lo <= hi <= s@.len(),
    ensures
        r@ == lower(s@.subrange(lo as int, hi as int)),
{
    let mut out: Vec<u8> = Vec::new();
    let mut i: usize = lo;
    while i < hi
        invariant
            lo <= i <= hi <= s@.len(),
            out@ == lower(s@.subrange(lo as int, i as int)),
        decreases hi - i,
    {
        let c = s[i];
        let l: u8 = if 65 <= c && c <= 90 {
            c + 32
        } else {
            c
        };
        out.push(l);
        assert(out@ =~= lower(s@.subrange(lo as int, i + 1)));
        i = i + 1;
    }
    out
}

/// Reads the socket address written in `s[lo..hi]`, the host and port
/// part of a URL.
#[verifier::rlimit(80)]
fn socket_at(s: &Vec<u8>, lo: usize, hi: usize) -> (r: Result<SocketAddr, ParseError>)
    requires
        lo <= hi <= s@.len(),
    ensures
        match socket_of(s@.subrange(lo as int, hi as int)) {
            Ok(a) => r == Ok::<SocketAddr, ParseError>(a),
            Err(e) => r is Err && r->Err_0@ == e,
        },
{
    let ghost auth = s@.subrange(lo as int, hi as int);
    if lo < hi && s[lo] == OPEN_BRACKET {
        let c = find_byte(s, CLOSE_BRACKET, lo, hi);
        if c >= hi {
            return Err(ParseError::MalformedUrl);
        }
        if c + 1 < hi && s[c + 1] != COLON {
            return Err(ParseError::MalformedUrl);
        }
        let port_start: usize = if c + 1 < hi {
            c + 2
        } else {
            hi
        };
        assert(s@.subrange(port_start as int, hi as int) =~= (if c + 1 < hi {
            auth.subrange((c - lo) + 2, auth.len() as int)
        } else {
            Seq::<u8>::empty()
        }));
        let port = match port_at(s, port_start, hi) {
            Ok(p) => p,
            Err(e) => {
                return Err(e);
            },
        };
        assert(auth.subrange(1, (c - lo) as int) =~= s@.subrange(lo + 1, c as int));
        let fs = match parse_v6_at(s, lo + 1, c) {
            Some(fs) => fs,
            None => {
                return Err(ParseError::MalformedUrl);
            },
        };
        let port = match port {
            Some(p) => p,
            None => {
                return Err(ParseError::MissingPort);
            },
        };
        let ip = IpAddr::V6(
            fs[0] as u16,
            fs[1] as u16,
            fs[2] as u16,
            fs[3] as u16,
            fs[4] as u16,
            fs[5] as u16,
            fs[6] as u16,
            fs[7] as u16,
        );
        Ok(SocketAddr { ip, port })
    } else {
        let q = find_byte(s, COLON, lo, hi);
        if q == lo {
            return Err(ParseError::MalformedUrl);
        }
        let port_start: usize = if q < hi {
            q + 1
        } else {
            hi
        };
        assert(s@.subrange(port_start as int, hi as int) =~= (if q < hi {
            auth.subrange((q - lo) + 1, auth.len() as int)
        } else {
            Seq::<u8>::empty()
        }));
        let port = match port_at(s, port_start, hi) {
            Ok(p) => p,
            Err(e) => {
                return Err(e);
            },
        };
        assert(auth.subrange(0, (q - lo) as int) =~= s@.subrange(lo as int, q as int));
        let fs = match parse_fields_at(s, lo, q, DOT, 10, 255, 4) {
            Some(fs) => fs,
            None => {
                return Err(ParseError::MalformedHost);
            },
        };
        proof {
            lemma_parse_fields_shape(s@.subrange(lo as int, q as int), DOT, 10, 255, 4);
        }
        let port = match port {
            Some(p) => p,
            None => {
                return Err(ParseError::MissingPort);
            },
        };
        let ip = IpAddr::V4(fs[0] as u8, fs[1] as u8, fs[2] as u8, fs[3] as u8);
        Ok(SocketAddr { ip, port })
    }
}

impl PaAddr {
    /// The text of this address: `<scheme>://<host>:<port>`.
    pub fn to_url_bytes(&self) -> (r: Vec<u8>)
        ensures
            r@ == addr_text(*self),
    {
        let mut out: Vec<u8> = Vec::new();
        let sock = self.inner();
        match *self {
            PaAddr::Tcp(_) => {
                out.push(116);
                out.push(99);
                out.push(112);
            },
            PaAddr::Utp(_) => {
                out.push(117);
                out.push(116);
                out.push(112);
            },
        }
        out.push(COLON);
        out.push(SLASH);
        out.push(SLASH);
        let ghost head = out@;
        assert(head =~= scheme_text(*self) + seq![COLON, SLASH, SLASH]);
        let fields = ip_field_vec(sock.ip);
        match sock.ip {
            IpAddr::V4(..) => {
                push_joined(&mut out, &fields, 0, 4, DOT, 10);
                assert(fields@.subrange(0, 4) =~= fields@);
            },
            IpAddr::V6(..) => {
                out.push(OPEN_BRACKET);
                push_v6(&mut out, &fields);
                out.push(CLOSE_BRACKET);
            },
        }
        assert(out@ =~= head + ip_text(sock.ip));
        out.push(COLON);
        push_digits(&mut out, sock.port as u32, 10);
        assert(out@ =~= addr_text(*self));
        out
    }

    /// The text of this address, `<scheme>://<host>:<port>`, as a string.
    pub fn to_url_string(&self) -> (r: String)
        ensures
            r@ == ascii_chars(addr_text(*self)),
    {
        proof {
            lemma_addr_text_ascii(*self);
        }
        string_from_ascii(self.to_url_bytes())
    }

    /// Reads an address from a string `<scheme>://<host>:<port>`.
    pub fn from_str(s: &str) -> (r: Result<PaAddr, ParseError>)
        ensures
            result_view(r) == parse_text(s.spec_bytes()),
    {
        let bytes = s.as_bytes_vec();
        PaAddr::from_url_bytes(&bytes)
    }

    /// Reads an address from its text `<scheme>://<host>:<port>`, where the
    /// scheme is `tcp` or `utp`.
    pub fn from_url_bytes(s: &Vec<u8>) -> (r: Result<PaAddr, ParseError>)
        ensures
            result_view(r) == parse_text(s@),
    {
        let n = s.len();
        let p = find_byte(s, COLON, 0, n);
        assert(s@.subrange(0, n as int) =~= s@);
        if p >= n || !is_valid_scheme(s, p) {
            return Err(ParseError::MalformedUrl);
        }
        let scheme = lower_range(s, 0, p);
        let is_tcp = scheme.len() == 3 && scheme[0] == 116 && scheme[1] == 99 && scheme[2] == 112;
        let is_utp = scheme.len() == 3 && scheme[0] == 117 && scheme[1] == 116 && scheme[2] == 112;
        assert(is_tcp <==> scheme@ == seq![116u8, 99u8, 112u8]) by {
            if is_tcp {
                assert(scheme@ =~= seq![116u8, 99u8, 112u8]);
            }
        }
        assert(is_utp <==> scheme@ == seq![117u8, 116u8, 112u8]) by {
            if is_utp {
                assert(scheme@ =~= seq![117u8, 116u8, 112u8]);
            }
        }
        if !is_tcp && !is_utp {
            return Err(ParseError::UnknownScheme(scheme));
        }
        if p > n - 3 || s[p + 1] != SLASH || s[p + 2] != SLASH {
            return Err(ParseError::MalformedUrl);
        }
        let e = find_delim(s, p + 3, n);
        let ghost rest = s@.subrange(p + 3, n as int);
        assert(rest.subrange(0, authority_end(rest) as int) =~= s@.subrange(p + 3, e as int));
        match socket_at(s, p + 3, e) {
            Ok(a) => if is_tcp {
                Ok(PaAddr::Tcp(a))
            } else {
                Ok(PaAddr::Utp(a))
            },
            Err(e) => Err(e),
        }
    }
}

} // verus!
