//! IP addresses as plain values, with a verified parser and renderer for the
//! textual forms the endpoint grammar accepts: dotted-quad IPv4, and IPv6 as
//! colon-separated hexadecimal groups with an optional `::` gap and an
//! optional embedded IPv4 tail.
use vstd::prelude::*;

use crate::text::{
    all_dec_digits, all_hex_digits, dec_text, dec_value, find_char_from, has_char, hex_text,
    hex_value, is_hex_digit, join_with, lemma_dec_text_props, lemma_hex_text_props,
    lemma_join_chars, lemma_join_no_adjacent_sep, lemma_split_at_sep, lemma_split_join,
    lemma_split_no_sep, split_on, dec_run_value, hex_run_value, pow16,
};

verus! {

/// An IPv4 or IPv6 address held as plain integers.
#[derive(Clone, Copy, PartialEq, Eq, Structural, Debug)]
pub enum IpAddress {
    V4(u8, u8, u8, u8),
    V6(u16, u16, u16, u16, u16, u16, u16, u16),
}

/// One component of a dotted quad: a decimal run valued at most 255 with no
/// leading zero.
pub open spec fn is_octet_text(s: Seq<char>) -> bool {
    s.len() >= 1 && all_dec_digits(s) && dec_value(s) <= 255 && (s[0] == '0' ==> s.len() == 1)
}

/// Octet values of a part list, or `None` when some part is no octet.
pub open spec fn octets_of_segs(segs: Seq<Seq<char>>) -> Option<Seq<u8>>
    decreases segs.len(),
{
    if segs.len() == 0 {
        Some(Seq::<u8>::empty())
    } else if is_octet_text(segs[0]) {
        match octets_of_segs(segs.drop_first()) {
            Some(r) => Some(seq![dec_value(segs[0]) as u8] + r),
            None => None,
        }
    } else {
        None
    }
}

/// The four octets of a dotted-quad IPv4 literal.
pub open spec fn ipv4_octets_of_text(s: Seq<char>) -> Option<Seq<u8>> {
    match octets_of_segs(split_on(s, '.')) {
        Some(o) => if o.len() == 4 {
            Some(o)
        } else {
            None
        },
        None => None,
    }
}

pub open spec fn ipv4_of_text(s: Seq<char>) -> Option<IpAddress> {
    match ipv4_octets_of_text(s) {
        Some(o) => Some(IpAddress::V4(o[0], o[1], o[2], o[3])),
        None => None,
    }
}

/// One IPv6 group: one to four hexadecimal digits.
pub open spec fn is_h16_text(s: Seq<char>) -> bool {
    1 <= s.len() <= 4 && all_hex_digits(s)
}

/// Group values of a colon-separated part list. A part holding a dot is only
/// accepted as the last part, when `allow_v4_tail` is set, as an embedded
/// IPv4 literal contributing two groups.
pub open spec fn groups_of_segs(segs: Seq<Seq<char>>, allow_v4_tail: bool) -> Option<Seq<u16>>
    decreases segs.len(),
{
    if segs.len() == 0 {
        Some(Seq::<u16>::empty())
    } else if segs.len() == 1 && has_char(segs[0], '.') {
        if allow_v4_tail {
            match ipv4_octets_of_text(segs[0]) {
                Some(o) => Some(
                    seq![
                        ((o[0] as int) * 256 + (o[1] as int)) as u16,
                        ((o[2] as int) * 256 + (o[3] as int)) as u16,
                    ],
                ),
                None => None,
            }
        } else {
            None
        }
    } else if is_h16_text(segs[0]) {
        match groups_of_segs(segs.drop_first(), allow_v4_tail) {
            Some(r) => Some(seq![hex_value(segs[0]) as u16] + r),
            None => None,
        }
    } else {
        None
    }
}

/// Position of the first `::`, or -1 when there is none.
pub open spec fn first_dcolon(s: Seq<char>) -> int
    decreases s.len(),
{
    if s.len() < 2 {
        -1
    } else if s[0] == ':' && s[1] == ':' {
        0
    } else {
        let r = first_dcolon(s.drop_first());
        if r < 0 {
            -1
        } else {
            1 + r
        }
    }
}

pub proof fn lemma_first_dcolon(s: Seq<char>)
    ensures
        first_dcolon(s) == -1 ==> forall|i: int|
            0 <= i && i + 1 < s.len() ==> !(s[i] == ':' && #[trigger] s[i + 1] == ':'),
        first_dcolon(s) >= 0 ==> {
            let p = first_dcolon(s);
            &&& p + 1 < s.len()
            &&& s[p] == ':'
            &&& s[p + 1] == ':'
            &&& forall|i: int| 0 <= i < p ==> !(s[i] == ':' && #[trigger] s[i + 1] == ':')
        },
    decreases s.len(),
{
    if s.len() < 2 {
    } else if s[0] == ':' && s[1] == ':' {
    } else {
        let t = s.drop_first();
        lemma_first_dcolon(t);
        let r = first_dcolon(t);
        if r < 0 {
            assert forall|i: int| 0 <= i && i + 1 < s.len() implies !(s[i] == ':'
                && #[trigger] s[i + 1] == ':') by {
                if i >= 1 {
                    assert(t[i - 1] == s[i]);
                    assert(t[i] == s[i + 1]);
                }
            }
        } else {
            assert(t[r] == s[r + 1]);
            assert(t[r + 1] == s[r + 2]);
            assert forall|i: int| 0 <= i < r + 1 implies !(s[i] == ':' && #[trigger] s[i + 1]
                == ':') by {
                if i >= 1 {
                    assert(t[i - 1] == s[i]);
                    assert(t[i] == s[i + 1]);
                }
            }
        }
    }
}

pub open spec fn zero_groups(n: nat) -> Seq<u16> {
    Seq::new(n, |i: int| 0u16)
}

/// The eight groups denoted by an IPv6 literal.
pub open spec fn ipv6_groups_of_text(s: Seq<char>) -> Option<Seq<u16>> {
    let p = first_dcolon(s);
    if p >= 0 {
        let head = s.take(p);
        let tail = s.skip(p + 2);
        let hg = if head.len() == 0 {
            Some(Seq::<u16>::empty())
        } else {
            groups_of_segs(split_on(head, ':'), false)
        };
        let tg = if tail.len() == 0 {
            Some(Seq::<u16>::empty())
        } else {
            groups_of_segs(split_on(tail, ':'), true)
        };
        match (hg, tg) {
            (Some(h), Some(t)) => if h.len() + t.len() <= 7 {
                Some(h + zero_groups((8 - h.len() - t.len()) as nat) + t)
            } else {
                None
            },
            _ => None,
        }
    } else {
        match groups_of_segs(split_on(s, ':'), true) {
            Some(g) => if g.len() == 8 {
                Some(g)
            } else {
                None
            },
            None => None,
        }
    }
}

pub open spec fn v6_from_groups(g: Seq<u16>) -> IpAddress
    recommends
        g.len() == 8,
{
    IpAddress::V6(g[0], g[1], g[2], g[3], g[4], g[5], g[6], g[7])
}

pub open spec fn ipv6_of_text(s: Seq<char>) -> Option<IpAddress> {
    match ipv6_groups_of_text(s) {
        Some(g) => Some(v6_from_groups(g)),
        None => None,
    }
}

/// A literal with a colon is read as IPv6, anything else as IPv4; every
/// valid IPv6 literal holds a colon and no valid IPv4 literal does.
pub open spec fn ip_of_text(s: Seq<char>) -> Option<IpAddress> {
    if has_char(s, ':') {
        ipv6_of_text(s)
    } else {
        ipv4_of_text(s)
    }
}

/// Canonical dotted-quad rendering.
pub open spec fn ipv4_text(a: u8, b: u8, c: u8, d: u8) -> Seq<char> {
    join_with(
        seq![dec_text(a as nat), dec_text(b as nat), dec_text(c as nat), dec_text(d as nat)],
        '.',
    )
}

/// Full eight-group rendering, lowercase hexadecimal, no `::` gap.
pub open spec fn ipv6_text(
    g0: u16,
    g1: u16,
    g2: u16,
    g3: u16,
    g4: u16,
    g5: u16,
    g6: u16,
    g7: u16,
) -> Seq<char> {
    join_with(
        seq![
            hex_text(g0 as nat),
            hex_text(g1 as nat),
            hex_text(g2 as nat),
            hex_text(g3 as nat),
            hex_text(g4 as nat),
            hex_text(g5 as nat),
            hex_text(g6 as nat),
            hex_text(g7 as nat),
        ],
        ':',
    )
}

/// Parse one dotted-quad component at `chars[from..to]`.
fn parse_octet(chars: &Vec<char>, from: usize, to: usize) -> (r: Option<u8>)
    requires
        from <= to <= chars.len(),
    ensures
        ({
            let sub = chars@.subrange(from as int, to as int);
            match r {
                Some(v) => is_octet_text(sub) && v == dec_value(sub),
                None => !is_octet_text(sub),
            }
        }),
{
    let ghost sub = chars@.subrange(from as int, to as int);
    if to == from {
        return None;
    }
    if chars[from] == '0' && to - from > 1 {
        assert(sub[0] == '0');
        return None;
    }
    assert(sub[0] == chars@[from as int]);
    match dec_run_value(chars, from, to, 255) {
        Some(v) => Some(v as u8),
        None => None,
    }
}

/// Parse a dot-separated run of octets at `chars[from..to]`.
fn parse_v4_parts(chars: &Vec<char>, from: usize, to: usize) -> (r: Option<Vec<u8>>)
    requires
        from <= to <= chars.len(),
    ensures
        ({
            let segs = split_on(chars@.subrange(from as int, to as int), '.');
            match r {
                Some(v) => octets_of_segs(segs) == Some(v@),
                None => octets_of_segs(segs) is None,
            }
        }),
    decreases to - from,
{
    let ghost sub = chars@.subrange(from as int, to as int);
    match find_char_from(chars, from, to, '.') {
        None => {
            proof {
                assert forall|k: int| 0 <= k < sub.len() implies sub[k] != '.' by {
                    assert(sub[k] == chars@[from + k]);
                }
                lemma_split_no_sep(sub, '.');
            }
            match parse_octet(chars, from, to) {
                Some(o) => {
                    let mut v: Vec<u8> = Vec::new();
                    v.push(o);
                    proof {
                        assert(split_on(sub, '.') =~= seq![sub]);
                        assert(seq![sub].drop_first() =~= Seq::<Seq<char>>::empty());
                        assert(octets_of_segs(Seq::<Seq<char>>::empty()) == Some(
                            Seq::<u8>::empty(),
                        ));
                        assert(seq![dec_value(sub) as u8] + Seq::<u8>::empty() =~= v@);
                    }
                    Some(v)
                },
                None => {
                    proof {
                        assert(split_on(sub, '.') =~= seq![sub]);
                    }
                    None
                },
            }
        },
        Some(j) => {
            let ghost seg = chars@.subrange(from as int, j as int);
            let ghost rest = chars@.subrange(j + 1, to as int);
            proof {
                assert forall|k: int| 0 <= k < seg.len() implies seg[k] != '.' by {
                    assert(seg[k] == chars@[from + k]);
                }
                assert(sub =~= seg + seq!['.'] + rest);
                lemma_split_at_sep(seg, rest, '.');
            }
            let o = parse_octet(chars, from, j);
            let tail = parse_v4_parts(chars, j + 1, to);
            match (o, tail) {
                (Some(o), Some(mut v)) => {
                    v.insert(0, o);
                    proof {
                        assert(split_on(sub, '.')[0] =~= seg);
                        assert(split_on(sub, '.').drop_first() =~= split_on(rest, '.'));
                    }
                    Some(v)
                },
                _ => {
                    proof {
                        assert(split_on(sub, '.')[0] =~= seg);
                        assert(split_on(sub, '.').drop_first() =~= split_on(rest, '.'));
                    }
                    None
                },
            }
        },
    }
}

/// Parse a whole IPv4 literal at `chars[from..to]`.
pub(crate) fn parse_ipv4_at(chars: &Vec<char>, from: usize, to: usize) -> (r: Option<IpAddress>)
    requires
        from <= to <= chars.len(),
    ensures
        ({
            let sub = chars@.subrange(from as int, to as int);
            match r {
                Some(ip) => ipv4_of_text(sub) == Some(ip),
                None => ipv4_of_text(sub) is None,
            }
        }),
{
    match parse_v4_parts(chars, from, to) {
        Some(v) => {
            if v.len() == 4 {
                Some(IpAddress::V4(v[0], v[1], v[2], v[3]))
            } else {
                None
            }
        },
        None => None,
    }
}

/// Parse one IPv6 group at `chars[from..to]`.
fn parse_h16(chars: &Vec<char>, from: usize, to: usize) -> (r: Option<u16>)
    requires
        from <= to <= chars.len(),
    ensures
        ({
            let sub = chars@.subrange(from as int, to as int);
            match r {
                Some(v) => is_h16_text(sub) && v == hex_value(sub),
                None => !is_h16_text(sub),
            }
        }),
{
    if to - from < 1 || to - from > 4 {
        return None;
    }
    hex_run_value(chars, from, to)
}

/// Parse a colon-separated run of IPv6 groups at `chars[from..to]`.
fn parse_v6_parts(chars: &Vec<char>, from: usize, to: usize, allow_v4_tail: bool) -> (r: Option<
    Vec<u16>,
>)
    requires
        from <= to <= chars.len(),
    ensures
        ({
            let segs = split_on(chars@.subrange(from as int, to as int), ':');
            match r {
                Some(v) => groups_of_segs(segs, allow_v4_tail) == Some(v@),
                None => groups_of_segs(segs, allow_v4_tail) is None,
            }
        }),
    decreases to - from,
{
    let ghost sub = chars@.subrange(from as int, to as int);
    match find_char_from(chars, from, to, ':') {
        None => {
            proof {
                assert forall|k: int| 0 <= k < sub.len() implies sub[k] != ':' by {
                    assert(sub[k] == chars@[from + k]);
                }
                lemma_split_no_sep(sub, ':');
                assert(split_on(sub, ':') =~= seq![sub]);
            }
            // One single part: an embedded IPv4 tail when it holds a dot,
            // otherwise one hexadecimal group.
            let dot = find_char_from(chars, from, to, '.');
            match dot {
                Some(dj) => {
                    proof {
                        assert(sub[dj - from] == chars@[dj as int]);
                    }
                    if !allow_v4_tail {
                        return None;
                    }
                    match parse_v4_parts(chars, from, to) {
                        Some(v) => {
                            if v.len() == 4 {
                                let g0: u16 = (v[0] as u16) * 256 + (v[1] as u16);
                                let g1: u16 = (v[2] as u16) * 256 + (v[3] as u16);
                                let mut out: Vec<u16> = Vec::new();
                                out.push(g0);
                                out.push(g1);
                                proof {
                                    assert(seq![g0, g1] =~= out@);
                                }
                                Some(out)
                            } else {
                                None
                            }
                        },
                        None => None,
                    }
                },
                None => {
                    proof {
                        assert forall|k: int| 0 <= k < sub.len() implies sub[k] != '.' by {
                            assert(sub[k] == chars@[from + k]);
                        }
                    }
                    match parse_h16(chars, from, to) {
                        Some(g) => {
                            let mut out: Vec<u16> = Vec::new();
                            out.push(g);
                            proof {
                                assert(seq![sub].drop_first() =~= Seq::<Seq<char>>::empty());
                                assert(groups_of_segs(Seq::<Seq<char>>::empty(), allow_v4_tail)
                                    == Some(Seq::<u16>::empty()));
                                assert(seq![hex_value(sub) as u16] + Seq::<u16>::empty() =~= out@);
                            }
                            Some(out)
                        },
                        None => None,
                    }
                },
            }
        },
        Some(j) => {
            let ghost seg = chars@.subrange(from as int, j as int);
            let ghost rest = chars@.subrange(j + 1, to as int);
            proof {
                assert forall|k: int| 0 <= k < seg.len() implies seg[k] != ':' by {
                    assert(seg[k] == chars@[from + k]);
                }
                assert(sub =~= seg + seq![':'] + rest);
                lemma_split_at_sep(seg, rest, ':');
                assert(split_on(sub, ':')[0] =~= seg);
                assert(split_on(sub, ':').drop_first() =~= split_on(rest, ':'));
                crate::text::lemma_split_len_pos(rest, ':');
            }
            let g = parse_h16(chars, from, j);
            match g {
                Some(g) => {
                    match parse_v6_parts(chars, j + 1, to, allow_v4_tail) {
                        Some(mut v) => {
                            v.insert(0, g);
                            Some(v)
                        },
                        None => None,
                    }
                },
                None => None,
            }
        },
    }
}

/// Find the first `::` at or after `from`, mirroring `first_dcolon` on the
/// subrange.
fn find_dcolon(chars: &Vec<char>, from: usize, to: usize) -> (r: Option<usize>)
    requires
        from <= to <= chars.len(),
    ensures
        ({
            let sub = chars@.subrange(from as int, to as int);
            match r {
                Some(p) => from <= p && p + 1 < to && first_dcolon(sub) == p - from,
                None => first_dcolon(sub) == -1,
            }
        }),
{
    let ghost sub = chars@.subrange(from as int, to as int);
    proof {
        lemma_first_dcolon(sub);
    }
    let mut i: usize = from;
    while to - i > 1
        invariant
            from <= i <= to <= chars.len(),
            sub == chars@.subrange(from as int, to as int),
            forall|k: int| 0 <= k < i - from ==> !(sub[k] == ':' && #[trigger] sub[k + 1] == ':'),
        decreases to - i,
    {
        if chars[i] == ':' && chars[i + 1] == ':' {
            proof {
                lemma_first_dcolon(sub);
                assert(sub[i - from] == chars@[i as int]);
                assert(sub[i - from + 1] == chars@[i + 1]);
                let p = first_dcolon(sub);
                // The scan found a pair and saw none earlier, so the spec
                // position can be neither earlier nor later.
                assert(p >= 0);
                assert(p >= i - from);
                assert(p <= i - from);
            }
            return Some(i);
        }
        proof {
            assert(sub[i - from] == chars@[i as int]);
            assert(sub[i - from + 1] == chars@[i + 1]);
        }
        i = i + 1;
    }
    proof {
        if first_dcolon(sub) >= 0 {
            let p = first_dcolon(sub);
            assert(!(sub[p] == ':' && sub[p + 1] == ':'));
        }
    }
    None
}

/// Parse a whole IPv6 literal at `chars[from..to]`.
pub(crate) fn parse_ipv6_at(chars: &Vec<char>, from: usize, to: usize) -> (r: Option<IpAddress>)
    requires
        from <= to <= chars.len(),
    ensures
        ({
            let sub = chars@.subrange(from as int, to as int);
            match r {
                Some(ip) => ipv6_of_text(sub) == Some(ip),
                None => ipv6_of_text(sub) is None,
            }
        }),
{
    let ghost sub = chars@.subrange(from as int, to as int);
    match find_dcolon(chars, from, to) {
        Some(p) => {
            let ghost head = sub.take(p - from);
            let ghost tail = sub.skip(p + 2 - from);
            proof {
                assert(head =~= chars@.subrange(from as int, p as int));
                assert(tail =~= chars@.subrange(p + 2, to as int));
            }
            let hg: Option<Vec<u16>> = if p == from {
                Some(Vec::new())
            } else {
                parse_v6_parts(chars, from, p, false)
            };
            let tg: Option<Vec<u16>> = if p + 2 == to {
                Some(Vec::new())
            } else {
                parse_v6_parts(chars, p + 2, to, true)
            };
            match (hg, tg) {
                (Some(h), Some(t)) => {
                    if h.len() <= 7 && t.len() <= 7 - h.len() {
                        let mut g: Vec<u16> = Vec::new();
                        let mut i: usize = 0;
                        while i < h.len()
                            invariant
                                i <= h.len(),
                                g@ =~= h@.take(i as int),
                            decreases h.len() - i,
                        {
                            g.push(h[i]);
                            i = i + 1;
                        }
                        let zeros: usize = 8 - h.len() - t.len();
                        let mut z: usize = 0;
                        while z < zeros
                            invariant
                                z <= zeros,
                                g@ =~= h@ + zero_groups(z as nat),
                                h.len() + t.len() + zeros == 8,
                            decreases zeros - z,
                        {
                            g.push(0u16);
                            z = z + 1;
                        }
                        let mut k: usize = 0;
                        while k < t.len()
                            invariant
                                k <= t.len(),
                                g@ =~= h@ + zero_groups((8 - h@.len() - t@.len()) as nat)
                                    + t@.take(k as int),
                                h.len() + t.len() <= 8,
                            decreases t.len() - k,
                        {
                            g.push(t[k]);
                            k = k + 1;
                        }
                        proof {
                            assert(h@.take(h@.len() as int) =~= h@);
                            assert(t@.take(t@.len() as int) =~= t@);
                            assert(g@ =~= h@ + zero_groups((8 - h@.len() - t@.len()) as nat) + t@);
                            assert(g@.len() == 8);
                        }
                        Some(
                            IpAddress::V6(g[0], g[1], g[2], g[3], g[4], g[5], g[6], g[7]),
                        )
                    } else {
                        None
                    }
                },
                _ => None,
            }
        },
        None => {
            match parse_v6_parts(chars, from, to, true) {
                Some(g) => {
                    if g.len() == 8 {
                        Some(
                            IpAddress::V6(g[0], g[1], g[2], g[3], g[4], g[5], g[6], g[7]),
                        )
                    } else {
                        None
                    }
                },
                None => None,
            }
        },
    }
}

/// Parse an IP literal at `chars[from..to]`: IPv6 when a colon occurs,
/// IPv4 otherwise.
pub(crate) fn parse_ip_at(chars: &Vec<char>, from: usize, to: usize) -> (r: Option<IpAddress>)
    requires
        from <= to <= chars.len(),
    ensures
        ({
            let sub = chars@.subrange(from as int, to as int);
            match r {
                Some(ip) => ip_of_text(sub) == Some(ip),
                None => ip_of_text(sub) is None,
            }
        }),
{
    let ghost sub = chars@.subrange(from as int, to as int);
    match find_char_from(chars, from, to, ':') {
        Some(j) => {
            proof {
                assert(sub[j - from] == chars@[j as int]);
            }
            parse_ipv6_at(chars, from, to)
        },
        None => {
            proof {
                assert forall|k: int| 0 <= k < sub.len() implies sub[k] != ':' by {
                    assert(sub[k] == chars@[from + k]);
                }
            }
            parse_ipv4_at(chars, from, to)
        },
    }
}

pub open spec fn ip_text(ip: IpAddress) -> Seq<char> {
    match ip {
        IpAddress::V4(a, b, c, d) => ipv4_text(a, b, c, d),
        IpAddress::V6(g0, g1, g2, g3, g4, g5, g6, g7) => ipv6_text(
            g0,
            g1,
            g2,
            g3,
            g4,
            g5,
            g6,
            g7,
        ),
    }
}

pub proof fn lemma_octets_of_all(segs: Seq<Seq<char>>)
    requires
        forall|i: int| 0 <= i < segs.len() ==> is_octet_text(#[trigger] segs[i]),
    ensures
        octets_of_segs(segs) == Some(
            Seq::new(segs.len(), |i: int| dec_value(segs[i]) as u8),
        ),
    decreases segs.len(),
{
    let vals = Seq::new(segs.len(), |i: int| dec_value(segs[i]) as u8);
    if segs.len() == 0 {
        assert(vals =~= Seq::<u8>::empty());
    } else {
        let rest = segs.drop_first();
        assert(forall|i: int| 0 <= i < rest.len() ==> rest[i] == segs[i + 1]);
        lemma_octets_of_all(rest);
        assert(seq![dec_value(segs[0]) as u8] + Seq::new(
            rest.len(),
            |i: int| dec_value(rest[i]) as u8,
        ) =~= vals);
    }
}

pub proof fn lemma_groups_of_all_h16(segs: Seq<Seq<char>>, allow_v4_tail: bool)
    requires
        forall|i: int| 0 <= i < segs.len() ==> is_h16_text(#[trigger] segs[i]),
    ensures
        groups_of_segs(segs, allow_v4_tail) == Some(
            Seq::new(segs.len(), |i: int| hex_value(segs[i]) as u16),
        ),
    decreases segs.len(),
{
    let vals = Seq::new(segs.len(), |i: int| hex_value(segs[i]) as u16);
    if segs.len() == 0 {
        assert(vals =~= Seq::<u16>::empty());
    } else {
        if segs.len() == 1 && has_char(segs[0], '.') {
            let j = choose|j: int| 0 <= j < segs[0].len() && segs[0][j] == '.';
            assert(is_hex_digit(segs[0][j]));
            assert(false);
        }
        let rest = segs.drop_first();
        assert(forall|i: int| 0 <= i < rest.len() ==> rest[i] == segs[i + 1]);
        lemma_groups_of_all_h16(rest, allow_v4_tail);
        assert(hex_value(segs[0]) < 65536) by {
            lemma_hex_value_small(segs[0]);
        }
        assert(seq![hex_value(segs[0]) as u16] + Seq::new(
            rest.len(),
            |i: int| hex_value(rest[i]) as u16,
        ) =~= vals);
    }
}

/// A run of at most four hexadecimal digits is valued below two to the
/// sixteenth.
pub proof fn lemma_hex_value_small(s: Seq<char>)
    requires
        all_hex_digits(s),
        s.len() <= 4,
    ensures
        hex_value(s) < pow16(s.len() as int),
    decreases s.len(),
{
    if s.len() > 0 {
        let t = s.drop_last();
        assert(forall|i: int| 0 <= i < t.len() ==> t[i] == s[i]);
        lemma_hex_value_small(t);
        assert(crate::text::hex_digit_val(s.last()) < 16);
    }
}

/// Rendering an IPv4 address and parsing it back recovers the address, and
/// the rendering holds none of the structural endpoint characters.
pub proof fn lemma_ipv4_text_parses(a: u8, b: u8, c: u8, d: u8)
    ensures
        ipv4_of_text(ipv4_text(a, b, c, d)) == Some(IpAddress::V4(a, b, c, d)),
        !has_char(ipv4_text(a, b, c, d), ':'),
        !has_char(ipv4_text(a, b, c, d), '['),
        !has_char(ipv4_text(a, b, c, d), ']'),
        ipv4_text(a, b, c, d).len() >= 1,
{
    let parts = seq![
        dec_text(a as nat),
        dec_text(b as nat),
        dec_text(c as nat),
        dec_text(d as nat),
    ];
    let text = ipv4_text(a, b, c, d);
    lemma_dec_text_props(a as nat);
    lemma_dec_text_props(b as nat);
    lemma_dec_text_props(c as nat);
    lemma_dec_text_props(d as nat);
    assert forall|i: int| 0 <= i < parts.len() implies !has_char(#[trigger] parts[i], '.') by {
        if has_char(parts[i], '.') {
            let j = choose|j: int| 0 <= j < parts[i].len() && parts[i][j] == '.';
            assert(crate::text::is_dec_digit(parts[i][j]));
        }
    }
    assert forall|i: int| 0 <= i < parts.len() implies is_octet_text(#[trigger] parts[i]) by {
        let n: nat = if i == 0 {
            a as nat
        } else if i == 1 {
            b as nat
        } else if i == 2 {
            c as nat
        } else {
            d as nat
        };
        assert(parts[i] == dec_text(n));
        if parts[i][0] == '0' {
            assert(n == 0);
            assert(parts[i].len() == 1);
        }
    }
    lemma_split_join(parts, '.');
    lemma_octets_of_all(parts);
    assert(Seq::new(parts.len(), |i: int| dec_value(parts[i]) as u8) =~= seq![a, b, c, d]);
    assert(ipv4_octets_of_text(text) == Some(seq![a, b, c, d]));
    assert(seq![a, b, c, d][0] == a);
    assert forall|i: int| 0 <= i < text.len() implies text[i] != ':' && text[i] != '['
        && text[i] != ']' by {
        lemma_join_chars(parts, '.', i);
        if text[i] != '.' {
            let (k, l): (int, int) = choose|k: int, l: int|
                0 <= k < parts.len() && 0 <= l < parts[k].len() && text[i] == parts[k][l];
            assert(crate::text::is_dec_digit(parts[k][l]));
        }
    }
    assert(text.len() >= parts[0].len()) by {
        assert(text =~= parts[0] + seq!['.'] + join_with(parts.drop_first(), '.'));
    }
}

/// Rendering an IPv6 address and parsing it back recovers the address; the
/// rendering holds a colon and neither bracket.
pub proof fn lemma_ipv6_text_parses(
    g0: u16,
    g1: u16,
    g2: u16,
    g3: u16,
    g4: u16,
    g5: u16,
    g6: u16,
    g7: u16,
)
    ensures
        ipv6_of_text(ipv6_text(g0, g1, g2, g3, g4, g5, g6, g7)) == Some(
            IpAddress::V6(g0, g1, g2, g3, g4, g5, g6, g7),
        ),
        has_char(ipv6_text(g0, g1, g2, g3, g4, g5, g6, g7), ':'),
        !has_char(ipv6_text(g0, g1, g2, g3, g4, g5, g6, g7), '['),
        !has_char(ipv6_text(g0, g1, g2, g3, g4, g5, g6, g7), ']'),
        ipv6_text(g0, g1, g2, g3, g4, g5, g6, g7).len() >= 1,
{
    let parts = seq![
        hex_text(g0 as nat),
        hex_text(g1 as nat),
        hex_text(g2 as nat),
        hex_text(g3 as nat),
        hex_text(g4 as nat),
        hex_text(g5 as nat),
        hex_text(g6 as nat),
        hex_text(g7 as nat),
    ];
    let text = ipv6_text(g0, g1, g2, g3, g4, g5, g6, g7);
    lemma_hex_text_props(g0 as nat);
    lemma_hex_text_props(g1 as nat);
    lemma_hex_text_props(g2 as nat);
    lemma_hex_text_props(g3 as nat);
    lemma_hex_text_props(g4 as nat);
    lemma_hex_text_props(g5 as nat);
    lemma_hex_text_props(g6 as nat);
    lemma_hex_text_props(g7 as nat);
    assert forall|i: int| 0 <= i < parts.len() implies !has_char(#[trigger] parts[i], ':')
        && is_h16_text(parts[i]) && parts[i].len() >= 1 by {
        let n: nat = if i == 0 {
            g0 as nat
        } else if i == 1 {
            g1 as nat
        } else if i == 2 {
            g2 as nat
        } else if i == 3 {
            g3 as nat
        } else if i == 4 {
            g4 as nat
        } else if i == 5 {
            g5 as nat
        } else if i == 6 {
            g6 as nat
        } else {
            g7 as nat
        };
        assert(parts[i] == hex_text(n));
        if has_char(parts[i], ':') {
            let j = choose|j: int| 0 <= j < parts[i].len() && parts[i][j] == ':';
            assert(crate::text::is_hex_digit(parts[i][j]));
        }
    }
    lemma_split_join(parts, ':');
    // The full rendering has single separators only, so no `::` occurs.
    lemma_first_dcolon(text);
    if first_dcolon(text) >= 0 {
        let p = first_dcolon(text);
        lemma_join_no_adjacent_sep(parts, ':', p);
        assert(false);
    }
    lemma_groups_of_all_h16(parts, true);
    assert(Seq::new(parts.len(), |i: int| hex_value(parts[i]) as u16) =~= seq![
        g0,
        g1,
        g2,
        g3,
        g4,
        g5,
        g6,
        g7,
    ]);
    assert(ipv6_groups_of_text(text) == Some(seq![g0, g1, g2, g3, g4, g5, g6, g7]));
    assert(seq![g0, g1, g2, g3, g4, g5, g6, g7][0] == g0);
    assert(text =~= parts[0] + seq![':'] + join_with(parts.drop_first(), ':'));
    assert(text[parts[0].len() as int] == ':');
    assert forall|i: int| 0 <= i < text.len() implies text[i] != '[' && text[i] != ']' by {
        lemma_join_chars(parts, ':', i);
        if text[i] != ':' {
            let (k, l): (int, int) = choose|k: int, l: int|
                0 <= k < parts.len() && 0 <= l < parts[k].len() && text[i] == parts[k][l];
            assert(crate::text::is_hex_digit(parts[k][l]));
        }
    }
}

/// Append the decimal rendering of `n`.
pub(crate) fn push_dec(out: &mut Vec<char>, n: u32)
    ensures
        final(out)@ == old(out)@ + dec_text(n as nat),
    decreases n,
{
    if n < 10 {
        let c: char = (('0' as u8) + (n as u8)) as char;
        proof {
            assert(c == crate::text::dec_char(n as nat));
        }
        out.push(c);
        proof {
            assert(old(out)@.push(c) =~= old(out)@ + dec_text(n as nat));
        }
    } else {
        push_dec(out, n / 10);
        let d: u32 = n % 10;
        let c: char = (('0' as u8) + (d as u8)) as char;
        proof {
            assert(c == crate::text::dec_char((n % 10) as nat));
        }
        out.push(c);
        proof {
            assert((old(out)@ + dec_text((n / 10) as nat)).push(c) =~= old(out)@ + dec_text(
                n as nat,
            ));
        }
    }
}

/// Append the lowercase hexadecimal rendering of `n`.
pub(crate) fn push_hex(out: &mut Vec<char>, n: u32)
    ensures
        final(out)@ == old(out)@ + hex_text(n as nat),
    decreases n,
{
    let d: u32 = n % 16;
    let c: char = if d < 10 {
        (('0' as u8) + (d as u8)) as char
    } else {
        (('a' as u8) + ((d - 10) as u8)) as char
    };
    proof {
        assert(c == crate::text::hex_char((n % 16) as nat));
    }
    if n < 16 {
        let c0: char = if n < 10 {
            (('0' as u8) + (n as u8)) as char
        } else {
            (('a' as u8) + ((n - 10) as u8)) as char
        };
        proof {
            assert(c0 == crate::text::hex_char(n as nat));
        }
        out.push(c0);
        proof {
            assert(old(out)@.push(c0) =~= old(out)@ + hex_text(n as nat));
        }
    } else {
        push_hex(out, n / 16);
        out.push(c);
        proof {
            assert((old(out)@ + hex_text((n / 16) as nat)).push(c) =~= old(out)@ + hex_text(
                n as nat,
            ));
        }
    }
}

/// Render an address in the canonical form the parser round-trips:
/// dotted-quad IPv4, or all eight IPv6 groups in lowercase hexadecimal.
#[verifier::rlimit(60)]
pub fn format_ip_chars(ip: &IpAddress) -> (r: Vec<char>)
    ensures
        r@ == ip_text(*ip),
{
    let mut out: Vec<char> = Vec::new();
    match *ip {
        IpAddress::V4(a, b, c, d) => {
            push_dec(&mut out, a as u32);
            out.push('.');
            push_dec(&mut out, b as u32);
            out.push('.');
            push_dec(&mut out, c as u32);
            out.push('.');
            push_dec(&mut out, d as u32);
            proof {
                let parts = seq![
                    dec_text(a as nat),
                    dec_text(b as nat),
                    dec_text(c as nat),
                    dec_text(d as nat),
                ];
                assert(join_with(parts, '.') =~= parts[0] + seq!['.'] + join_with(
                    parts.drop_first(),
                    '.',
                ));
                assert(join_with(parts.drop_first(), '.') =~= parts.drop_first()[0] + seq!['.']
                    + join_with(parts.drop_first().drop_first(), '.'));
                assert(join_with(parts.drop_first().drop_first(), '.')
                    =~= parts.drop_first().drop_first()[0] + seq!['.'] + join_with(
                    parts.drop_first().drop_first().drop_first(),
                    '.',
                ));
                assert(join_with(parts.drop_first().drop_first().drop_first(), '.')
                    =~= parts.drop_first().drop_first().drop_first()[0]);
                assert(out@ =~= join_with(parts, '.'));
            }
        },
        IpAddress::V6(g0, g1, g2, g3, g4, g5, g6, g7) => {
            push_hex(&mut out, g0 as u32);
            out.push(':');
            push_hex(&mut out, g1 as u32);
            out.push(':');
            push_hex(&mut out, g2 as u32);
            out.push(':');
            push_hex(&mut out, g3 as u32);
            out.push(':');
            push_hex(&mut out, g4 as u32);
            out.push(':');
            push_hex(&mut out, g5 as u32);
            out.push(':');
            push_hex(&mut out, g6 as u32);
            out.push(':');
            push_hex(&mut out, g7 as u32);
            proof {
                let parts = seq![
                    hex_text(g0 as nat),
                    hex_text(g1 as nat),
                    hex_text(g2 as nat),
                    hex_text(g3 as nat),
                    hex_text(g4 as nat),
                    hex_text(g5 as nat),
                    hex_text(g6 as nat),
                    hex_text(g7 as nat),
                ];
                lemma_join_unfold8(parts);
                assert(out@ =~= join_with(parts, ':'));
            }
        },
    }
    out
}

/// Spell out the join of eight parts, one separator at a time.
proof fn lemma_join_unfold8(parts: Seq<Seq<char>>)
    requires
        parts.len() == 8,
    ensures
        join_with(parts, ':') =~= parts[0] + seq![':'] + (parts[1] + seq![':'] + (parts[2]
            + seq![':'] + (parts[3] + seq![':'] + (parts[4] + seq![':'] + (parts[5] + seq![':']
            + (parts[6] + seq![':'] + parts[7])))))),
{
    let p1 = parts.drop_first();
    let p2 = p1.drop_first();
    let p3 = p2.drop_first();
    let p4 = p3.drop_first();
    let p5 = p4.drop_first();
    let p6 = p5.drop_first();
    let p7 = p6.drop_first();
    assert(join_with(p7, ':') =~= parts[7]) by {
        assert(p7[0] == parts[7]);
        assert(p7.len() == 1);
    }
    assert(join_with(p6, ':') =~= parts[6] + seq![':'] + join_with(p7, ':'));
    assert(join_with(p5, ':') =~= parts[5] + seq![':'] + join_with(p6, ':'));
    assert(join_with(p4, ':') =~= parts[4] + seq![':'] + join_with(p5, ':'));
    assert(join_with(p3, ':') =~= parts[3] + seq![':'] + join_with(p4, ':'));
    assert(join_with(p2, ':') =~= parts[2] + seq![':'] + join_with(p3, ':'));
    assert(join_with(p1, ':') =~= parts[1] + seq![':'] + join_with(p2, ':'));
    assert(join_with(parts, ':') =~= parts[0] + seq![':'] + join_with(p1, ':'));
}

} // verus!
