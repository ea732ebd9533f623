//! The endpoint resolver: reads a user-supplied `ip`, `ip:port`, `[ipv6]` or
//! `[ipv6]:port` string into an address and a port, defaulting the port to
//! the standard DNS port when the string names none.
use vstd::prelude::*;
use vstd::string::StrSliceExecFns;
use vstd::string::StringExecFns;

use crate::ip::{
    ip_of_text, ip_text, lemma_ipv4_text_parses, lemma_ipv6_text_parses, parse_ip_at, IpAddress,
    format_ip_chars,
};
use crate::text::{all_dec_digits, dec_text, dec_value, find_char_from, has_char,
    lemma_dec_text_props, dec_run_value};

verus! {

/// A concrete network endpoint. The port is never zero.
#[derive(Clone, Copy, PartialEq, Eq, Structural, Debug)]
pub struct Endpoint {
    pub ip: IpAddress,
    pub port: u16,
}

/// Why an endpoint string was rejected; each variant carries the offending
/// part of the input.
#[derive(Clone, Debug)]
pub enum EndpointError {
    InvalidAddress(String),
    InvalidPort(String),
}

/// Index of the last colon, or -1 when there is none.
pub open spec fn last_colon(s: Seq<char>) -> int
    decreases s.len(),
{
    if s.len() == 0 {
        -1
    } else if s.last() == ':' {
        s.len() - 1
    } else {
        last_colon(s.drop_last())
    }
}

/// One enclosing bracket pair is stripped: a trailing `]`, then a leading
/// `[`, each when present.
pub open spec fn strip_brackets(h: Seq<char>) -> Seq<char> {
    let h1 = if h.len() > 0 && h.last() == ']' {
        h.drop_last()
    } else {
        h
    };
    if h1.len() > 0 && h1[0] == '[' {
        h1.drop_first()
    } else {
        h1
    }
}

/// The string names a port when a colon is followed by a nonempty run that
/// holds no closing bracket.
pub open spec fn has_port_split(s: Seq<char>) -> bool {
    let i = last_colon(s);
    i >= 0 && i + 1 < s.len() && !has_char(s.skip(i + 1), ']')
}

/// The run after the last colon, read as the port.
pub open spec fn port_text_of(s: Seq<char>) -> Seq<char>
    recommends
        has_port_split(s),
{
    s.skip(last_colon(s) + 1)
}

/// The part of the string read as the IP literal.
pub open spec fn ip_text_of(s: Seq<char>) -> Seq<char> {
    if has_port_split(s) {
        strip_brackets(s.take(last_colon(s)))
    } else {
        strip_brackets(s)
    }
}

/// A valid port text: decimal digits valued 1 through 65535. Zero is
/// rejected as invalid, not read as unspecified.
pub open spec fn port_of_text(s: Seq<char>) -> Option<u16> {
    if s.len() >= 1 && all_dec_digits(s) && 1 <= dec_value(s) <= 65535 {
        Some(dec_value(s) as u16)
    } else {
        None
    }
}

/// The standard DNS port, used when the string names none.
pub const DEFAULT_PORT: u16 = 53;

/// What a well-formed endpoint string denotes.
pub open spec fn endpoint_of_text(s: Seq<char>) -> Option<Endpoint> {
    if has_port_split(s) {
        match (ip_of_text(ip_text_of(s)), port_of_text(port_text_of(s))) {
            (Some(ip), Some(p)) => Some(Endpoint { ip, port: p }),
            _ => None,
        }
    } else {
        match ip_of_text(ip_text_of(s)) {
            Some(ip) => Some(Endpoint { ip, port: DEFAULT_PORT }),
            None => None,
        }
    }
}

impl Endpoint {
    /// Read an endpoint string. Exactly the strings `endpoint_of_text`
    /// accepts are accepted; a rejection says whether the IP literal or the
    /// port run was at fault and carries that part of the input.
    pub fn parse(s: &str) -> (r: Result<Endpoint, EndpointError>)
        ensures
            match r {
                Ok(ep) => endpoint_of_text(s@) == Some(ep) && ep.port >= 1,
                Err(e) => endpoint_of_text(s@) is None && match e {
                    EndpointError::InvalidAddress(t) => t@ == ip_text_of(s@) && ip_of_text(
                        ip_text_of(s@),
                    ) is None,
                    EndpointError::InvalidPort(t) => has_port_split(s@) && t@ == port_text_of(s@)
                        && ip_of_text(ip_text_of(s@)) is Some && port_of_text(
                        port_text_of(s@),
                    ) is None,
                },
            },
    {
        let n = s.unicode_len();
        let mut chars: Vec<char> = Vec::new();
        let mut i: usize = 0;
        while i < n
            invariant
                i <= n,
                n == s@.len(),
                chars@ =~= s@.take(i as int),
            decreases n - i,
        {
            chars.push(s.get_char(i));
            i = i + 1;
        }
        proof {
            assert(chars@ =~= s@);
        }
        let port_split = find_port_split(&chars);
        match port_split {
            Some(ci) => {
                // The head before the colon, with one bracket pair stripped.
                let mut h_from: usize = 0;
                let mut h_to: usize = ci;
                if h_to > h_from && chars[h_to - 1] == ']' {
                    h_to = h_to - 1;
                    proof {
                        assert(s@.take(ci as int).last() == s@[ci - 1]);
                        assert(s@.take(ci as int).drop_last() =~= s@.take(ci - 1));
                    }
                }
                if h_to > h_from && chars[h_from] == '[' {
                    h_from = h_from + 1;
                }
                let ghost iptext = ip_text_of(s@);
                proof {
                    assert(iptext =~= s@.subrange(h_from as int, h_to as int));
                }
                match parse_ip_at(&chars, h_from, h_to) {
                    None => {
                        let t = s.substring_char(h_from, h_to);
                        Err(EndpointError::InvalidAddress(String::from_str(t)))
                    },
                    Some(ip) => {
                        // The port run after the colon.
                        let ghost ptext = port_text_of(s@);
                        proof {
                            assert(ptext =~= s@.subrange(ci + 1, n as int));
                        }
                        match dec_run_value(&chars, ci + 1, n, 65535) {
                            Some(v) => {
                                if v == 0 {
                                    let t = s.substring_char(ci + 1, n);
                                    Err(EndpointError::InvalidPort(String::from_str(t)))
                                } else {
                                    Ok(Endpoint { ip, port: v as u16 })
                                }
                            },
                            None => {
                                let t = s.substring_char(ci + 1, n);
                                Err(EndpointError::InvalidPort(String::from_str(t)))
                            },
                        }
                    },
                }
            },
            None => {
                // No port named: the whole string, brackets stripped, is the
                // IP literal, and the port defaults.
                let mut h_from: usize = 0;
                let mut h_to: usize = n;
                if h_to > h_from && chars[h_to - 1] == ']' {
                    h_to = h_to - 1;
                    proof {
                        assert(s@.last() == s@[n - 1]);
                        assert(s@.drop_last() =~= s@.take(n - 1));
                    }
                }
                if h_to > h_from && chars[h_from] == '[' {
                    h_from = h_from + 1;
                }
                let ghost iptext = ip_text_of(s@);
                proof {
                    assert(iptext =~= s@.subrange(h_from as int, h_to as int));
                }
                match parse_ip_at(&chars, h_from, h_to) {
                    None => {
                        let t = s.substring_char(h_from, h_to);
                        Err(EndpointError::InvalidAddress(String::from_str(t)))
                    },
                    Some(ip) => Ok(Endpoint { ip, port: 53 }),
                }
            },
        }
    }
}

/// Locate the port separator: the last colon, when a nonempty run with no
/// closing bracket follows it.
fn find_port_split(chars: &Vec<char>) -> (r: Option<usize>)
    ensures
        match r {
            Some(ci) => has_port_split(chars@) && ci == last_colon(chars@) && ci + 1
                < chars@.len(),
            None => !has_port_split(chars@),
        },
{
    let n = chars.len();
    proof {
        assert(chars@.take(n as int) =~= chars@);
    }
    // Scan backward for the last colon.
    let mut k: usize = n;
    let mut lc: Option<usize> = None;
    while k > 0
        invariant
            k <= n,
            n == chars@.len(),
            match lc {
                None => last_colon(chars@) == last_colon(chars@.take(k as int)),
                Some(ci) => 0 <= ci < n && last_colon(chars@) == ci,
            },
        decreases k,
    {
        if lc.is_none() {
            if chars[k - 1] == ':' {
                proof {
                    assert(chars@.take(k as int).last() == chars@[k - 1]);
                }
                lc = Some(k - 1);
            } else {
                proof {
                    assert(chars@.take(k as int).last() == chars@[k - 1]);
                    assert(chars@.take(k as int).drop_last() =~= chars@.take(k - 1));
                }
            }
        }
        k = k - 1;
    }
    proof {
        if lc is None {
            assert(chars@.take(0) =~= Seq::<char>::empty());
        }
    }
    match lc {
        Some(ci) => {
            if ci + 1 < n {
                match find_char_from(chars, ci + 1, n, ']') {
                    None => {
                        proof {
                            assert forall|j: int|
                                0 <= j < chars@.skip(ci + 1).len() implies #[trigger] chars@.skip(
                                ci + 1,
                            )[j] != ']' by {
                                assert(chars@.skip(ci + 1)[j] == chars@[ci + 1 + j]);
                            }
                        }
                        Some(ci)
                    },
                    Some(bj) => {
                        proof {
                            assert(chars@.skip(ci + 1)[bj - ci - 1] == chars@[bj as int]);
                            assert(has_char(chars@.skip(ci + 1), ']'));
                        }
                        None
                    },
                }
            } else {
                None
            }
        },
        None => None,
    }
}

/// Rendering of an endpoint the parser reads back: the address in canonical
/// form, IPv6 in brackets, and the port after a colon.
pub open spec fn endpoint_text(ip: IpAddress, port: u16) -> Seq<char> {
    match ip {
        IpAddress::V4(_, _, _, _) => ip_text(ip) + seq![':'] + dec_text(port as nat),
        IpAddress::V6(_, _, _, _, _, _, _, _) => seq!['['] + ip_text(ip) + seq![']'] + seq![':']
            + dec_text(port as nat),
    }
}

/// Render an endpoint in the form `endpoint_text` gives.
pub fn format_endpoint_chars(ep: &Endpoint) -> (r: Vec<char>)
    ensures
        r@ == endpoint_text(ep.ip, ep.port),
{
    let mut out: Vec<char> = Vec::new();
    let isv6 = match &ep.ip {
        IpAddress::V6(_, _, _, _, _, _, _, _) => true,
        IpAddress::V4(_, _, _, _) => false,
    };
    if isv6 {
        out.push('[');
    }
    let mut body = format_ip_chars(&ep.ip);
    let mut bi: usize = 0;
    while bi < body.len()
        invariant
            bi <= body.len(),
            body@ == ip_text(ep.ip),
            out@ =~= (if isv6 {
                seq!['[']
            } else {
                Seq::<char>::empty()
            }) + body@.take(bi as int),
        decreases body.len() - bi,
    {
        out.push(body[bi]);
        bi = bi + 1;
    }
    proof {
        assert(body@.take(body@.len() as int) =~= body@);
    }
    if isv6 {
        out.push(']');
    }
    out.push(':');
    crate::ip::push_dec(&mut out, ep.port as u32);
    proof {
        assert(out@ =~= endpoint_text(ep.ip, ep.port));
    }
    out
}

/// The last colon of `a + ":" + b` is the named one when `b` holds no colon.
proof fn lemma_last_colon_append(a: Seq<char>, b: Seq<char>)
    requires
        !has_char(b, ':'),
    ensures
        last_colon(a + seq![':'] + b) == a.len(),
    decreases b.len(),
{
    let s = a + seq![':'] + b;
    if b.len() == 0 {
        assert(s.last() == ':');
    } else {
        assert(s.last() == b.last());
        assert(b.last() != ':') by {
            assert(b[b.len() - 1] == b.last());
        }
        assert(s.drop_last() =~= a + seq![':'] + b.drop_last());
        assert(!has_char(b.drop_last(), ':')) by {
            if has_char(b.drop_last(), ':') {
                let j = choose|j: int| 0 <= j < b.drop_last().len() && b.drop_last()[j] == ':';
                assert(b[j] == ':');
            }
        }
        lemma_last_colon_append(a, b.drop_last());
    }
}

/// Law: a rendered endpoint parses back to itself, for every address and
/// every nonzero port.
pub proof fn lemma_endpoint_round_trip(ip: IpAddress, port: u16)
    requires
        port >= 1,
    ensures
        endpoint_of_text(endpoint_text(ip, port)) == Some(Endpoint { ip, port }),
{
    let ptext = dec_text(port as nat);
    lemma_dec_text_props(port as nat);
    assert(!has_char(ptext, ':'));
    assert(!has_char(ptext, ']'));
    match ip {
        IpAddress::V4(a, b, c, d) => {
            lemma_ipv4_text_parses(a, b, c, d);
            let t4 = ip_text(ip);
            let s = endpoint_text(ip, port);
            assert(s =~= t4 + seq![':'] + ptext);
            lemma_last_colon_append(t4, ptext);
            let i = last_colon(s);
            assert(i == t4.len());
            assert(s.skip(i + 1) =~= ptext);
            assert(has_port_split(s));
            assert(s.take(i) =~= t4);
            assert(ip_text_of(s) =~= t4) by {
                assert(t4.len() > 0);
                assert(t4.last() != ']') by {
                    assert(t4[t4.len() - 1] == t4.last());
                }
                assert(t4[0] != '[');
            }
            assert(ip_of_text(t4) == Some(ip));
            assert(port_of_text(ptext) == Some(port)) by {
                assert(dec_value(ptext) == port as nat);
            }
        },
        IpAddress::V6(g0, g1, g2, g3, g4, g5, g6, g7) => {
            lemma_ipv6_text_parses(g0, g1, g2, g3, g4, g5, g6, g7);
            let t6 = ip_text(ip);
            let h = seq!['['] + t6 + seq![']'];
            let s = endpoint_text(ip, port);
            assert(s =~= h + seq![':'] + ptext);
            assert(!has_char(ptext, ':'));
            lemma_last_colon_append(h, ptext);
            let i = last_colon(s);
            assert(i == h.len());
            assert(s.skip(i + 1) =~= ptext);
            assert(has_port_split(s));
            assert(s.take(i) =~= h);
            assert(ip_text_of(s) =~= t6) by {
                assert(h.last() == ']');
                assert(h.drop_last() =~= seq!['['] + t6);
                assert((seq!['['] + t6)[0] == '[');
                assert((seq!['['] + t6).drop_first() =~= t6);
            }
            assert(ip_of_text(t6) == Some(ip));
            assert(port_of_text(ptext) == Some(port)) by {
                assert(dec_value(ptext) == port as nat);
            }
        },
    }
}

} // verus!
