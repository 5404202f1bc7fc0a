//! IP addresses and socket addresses as plain values, and their text.

use vstd::prelude::*;

use crate::order::Ranked;
use crate::text::{
    chars_of, decimal, hex, join, number, pieces_view, push_decimal, push_hex, push_text,
    read_number, split, split_at_each,
};

verus! {

/// An IPv4 or IPv6 address, held as its big-endian number.
#[derive(Debug, Clone, Copy, PartialEq, Eq, PartialOrd, Ord, Hash, Structural)]
pub enum IpAddr {
    /// `a.b.c.d` is the number `((a * 256 + b) * 256 + c) * 256 + d`.
    V4(u32),
    /// The eight 16-bit groups, most significant first.
    V6(u128),
}

impl Ranked for IpAddr {
    /// Every IPv4 address ranks below every IPv6 address; within a family the number decides.
    open spec fn rank(self) -> int {
        match self {
            IpAddr::V4(bits) => bits as int,
            IpAddr::V6(bits) => 0x1_0000_0000 + bits as int,
        }
    }

    proof fn rank_injective(a: Self, b: Self) {
    }

    fn before(&self, other: &Self) -> (b: bool) {
        match (self, other) {
            (IpAddr::V4(a), IpAddr::V4(b)) => *a < *b,
            (IpAddr::V4(_), IpAddr::V6(_)) => true,
            (IpAddr::V6(_), IpAddr::V4(_)) => false,
            (IpAddr::V6(a), IpAddr::V6(b)) => *a < *b,
        }
    }
}

/// An address, a port, and for IPv6 the scope it was given with.
#[derive(Debug, Clone, Copy, PartialEq, Eq, Hash, Structural)]
pub struct SocketAddr {
    pub ip: IpAddr,
    pub port: u16,
    pub scope_id: u32,
}

/// One number of a dotted IPv4 address: one to three digits, no leading zero, at most 255.
pub open spec fn octet(s: Seq<char>) -> Option<nat> {
    if s.len() <= 3 && (s.len() > 1 ==> s[0] != '0') { number(s, 10, 255) } else { None }
}

/// Four numbers with dots between them.
pub open spec fn parse_v4(s: Seq<char>) -> Option<u32> {
    let p = split(s, '.');
    if p.len() == 4 && octet(p[0]) is Some && octet(p[1]) is Some && octet(p[2]) is Some && octet(p[3]) is Some {
        Some((((octet(p[0])->0 * 256 + octet(p[1])->0) * 256 + octet(p[2])->0) * 256 + octet(p[3])->0) as u32)
    } else {
        None
    }
}

/// One group of an IPv6 address: one to four hexadecimal digits.
pub open spec fn group(s: Seq<char>) -> Option<nat> {
    if s.len() <= 4 { number(s, 16, 0xffff) } else { None }
}

/// Groups with colons between them. The last may be a dotted IPv4 address where `dotted` allows
/// it, and then counts for two groups.
pub open spec fn groups(p: Seq<Seq<char>>, dotted: bool) -> Option<Seq<nat>>
    decreases p.len(),
{
    if p.len() == 0 {
        Some(Seq::empty())
    } else {
        match groups(p.drop_last(), false) {
            Some(front) => if group(p.last()) is Some {
                Some(front.push(group(p.last())->0))
            } else if dotted && parse_v4(p.last()) is Some {
                let bits = parse_v4(p.last())->0;
                Some(front.push((bits / 0x1_0000) as nat).push((bits % 0x1_0000) as nat))
            } else {
                None
            },
            None => None,
        }
    }
}

/// The groups of a text, none if it is empty.
pub open spec fn groups_of(s: Seq<char>, dotted: bool) -> Option<Seq<nat>> {
    if s.len() == 0 { Some(Seq::empty()) } else { groups(split(s, ':'), dotted) }
}

/// The number that a list of groups stands for.
pub open spec fn bits_of(g: Seq<nat>) -> nat
    decreases g.len(),
{
    if g.len() == 0 { 0 } else { bits_of(g.drop_last()) * 0x1_0000 + g.last() }
}

/// `n` groups of zeros.
pub open spec fn zeros(n: nat) -> Seq<nat> {
    Seq::new(n, |i: int| 0)
}

/// Two colons stand at `i`.
pub open spec fn gap_at(s: Seq<char>, i: int) -> bool {
    0 <= i && i + 1 < s.len() && s[i] == ':' && s[i + 1] == ':'
}

/// The first place where two colons stand together.
pub open spec fn is_first_gap(s: Seq<char>, i: int) -> bool {
    gap_at(s, i) && forall|j: int| 0 <= j < i ==> !#[trigger] gap_at(s, j)
}

/// Eight groups, or fewer with one `::` that stands for at least one group of zeros. The part
/// before the `::` cannot end in a dotted address.
pub open spec fn parse_v6(s: Seq<char>) -> Option<u128> {
    if exists|i: int| is_first_gap(s, i) {
        let i = choose|i: int| is_first_gap(s, i);
        match (groups_of(s.take(i), false), groups_of(s.skip(i + 2), true)) {
            (Some(head), Some(tail)) => if head.len() + tail.len() <= 7 {
                Some(bits_of(head + zeros((8 - head.len() - tail.len()) as nat) + tail) as u128)
            } else {
                None
            },
            _ => None,
        }
    } else {
        match groups(split(s, ':'), true) {
            Some(g) => if g.len() == 8 { Some(bits_of(g) as u128) } else { None },
            None => None,
        }
    }
}

/// The address a text stands for.
pub open spec fn parse_ip(s: Seq<char>) -> Option<IpAddr> {
    match parse_v4(s) {
        Some(bits) => Some(IpAddr::V4(bits)),
        None => match parse_v6(s) {
            Some(bits) => Some(IpAddr::V6(bits)),
            None => None,
        },
    }
}

/// The text before the first `c`, and the text after it.
pub open spec fn cut(s: Seq<char>, c: char) -> Option<(Seq<char>, Seq<char>)> {
    if s.contains(c) { Some((s.take(s.index_of_first(c)->0), s.skip(s.index_of_first(c)->0 + 1))) } else { None }
}

/// `a.b.c.d:port`.
pub open spec fn parse_socket_v4(s: Seq<char>) -> Option<SocketAddr> {
    match cut(s, ':') {
        Some((host, port)) => match (parse_v4(host), number(port, 10, 0xffff)) {
            (Some(bits), Some(p)) => Some(SocketAddr { ip: IpAddr::V4(bits), port: p as u16, scope_id: 0 }),
            _ => None,
        },
        None => None,
    }
}

/// An IPv6 address, with `%` and a decimal scope behind it or without.
pub open spec fn parse_scoped(s: Seq<char>) -> Option<(u128, u32)> {
    match cut(s, '%') {
        Some((host, scope)) => match (parse_v6(host), number(scope, 10, 0xffff_ffff)) {
            (Some(bits), Some(n)) => Some((bits, n as u32)),
            _ => None,
        },
        None => match parse_v6(s) {
            Some(bits) => Some((bits, 0)),
            None => None,
        },
    }
}

/// `[address]:port` or `[address%scope]:port`.
pub open spec fn parse_socket_v6(s: Seq<char>) -> Option<SocketAddr> {
    if s.len() == 0 || s[0] != '[' {
        None
    } else {
        match cut(s.skip(1), ']') {
            Some((inner, rest)) => if rest.len() == 0 || rest[0] != ':' {
                None
            } else {
                match (parse_scoped(inner), number(rest.skip(1), 10, 0xffff)) {
                    (Some((bits, scope_id)), Some(p)) => Some(SocketAddr { ip: IpAddr::V6(bits), port: p as u16, scope_id }),
                    _ => None,
                }
            },
            None => None,
        }
    }
}

/// The socket address a text stands for.
pub open spec fn parse_socket(s: Seq<char>) -> Option<SocketAddr> {
    match parse_socket_v4(s) {
        Some(a) => Some(a),
        None => parse_socket_v6(s),
    }
}

fn read_octet(s: &[char]) -> (n: Option<u32>)
    ensures
        match n {
            Some(v) => octet(s@) == Some(v as nat) && v <= 255,
            None => octet(s@) is None,
        },
{
    if s.len() > 3 || (s.len() > 1 && s[0] == '0') {
        return None;
    }
    match read_number(s, 10, 255) {
        Some(v) => Some(v as u32),
        None => None,
    }
}

fn read_v4(s: &[char]) -> (bits: Option<u32>)
    ensures
        bits == parse_v4(s@),
{
    let pieces = split_at_each(s, '.');
    let ghost p = pieces_view(pieces@);
    if pieces.len() != 4 {
        return None;
    }
    assert(p[0] == pieces@[0]@ && p[1] == pieces@[1]@ && p[2] == pieces@[2]@ && p[3] == pieces@[3]@);
    match (read_octet(&pieces[0]), read_octet(&pieces[1]), read_octet(&pieces[2]), read_octet(&pieces[3])) {
        (Some(a), Some(b), Some(c), Some(d)) => Some(((a * 256 + b) * 256 + c) * 256 + d),
        _ => None,
    }
}

fn read_group(s: &[char]) -> (n: Option<u16>)
    ensures
        match n {
            Some(v) => group(s@) == Some(v as nat),
            None => group(s@) is None,
        },
{
    if s.len() > 4 {
        return None;
    }
    match read_number(s, 16, 0xffff) {
        Some(v) => Some(v as u16),
        None => None,
    }
}

/// Groups as numbers without bound.
pub open spec fn wide(g: Seq<u16>) -> Seq<nat> {
    g.map_values(|x: u16| x as nat)
}

/// Once a piece that is no group stands before the last, there is no reading.
proof fn lemma_groups_prefix(p: Seq<Seq<char>>, dotted: bool, i: int)
    requires
        0 <= i < p.len(),
        groups(p.take(i), false) is None,
    ensures
        groups(p, dotted) is None,
    decreases p.len(),
{
    let front = p.drop_last();
    if i < front.len() {
        assert(front.take(i) =~= p.take(i));
        lemma_groups_prefix(front, false, i);
    } else {
        assert(p.take(i) =~= front);
    }
}

fn read_groups(s: &[char], dotted: bool) -> (g: Option<Vec<u16>>)
    ensures
        match g {
            Some(v) => groups(split(s@, ':'), dotted) == Some(wide(v@)),
            None => groups(split(s@, ':'), dotted) is None,
        },
{
    let pieces = split_at_each(s, ':');
    let ghost p = pieces_view(pieces@);
    let n: usize = pieces.len();
    let mut g: Vec<u16> = Vec::new();
    let mut i: usize = 0;
    assert(p.take(0) =~= Seq::empty());
    assert(wide(g@) =~= Seq::empty());
    while i < n
        invariant
            n == pieces@.len(),
            p == pieces_view(pieces@),
            p == split(s@, ':'),
            i <= n,
            i < n ==> groups(p.take(i as int), false) == Some(wide(g@)),
            i == n ==> groups(p, dotted) == Some(wide(g@)),
        decreases n - i,
    {
        let ghost before = wide(g@);
        proof {
            assert(p.take(i + 1).drop_last() =~= p.take(i as int));
            assert(p.take(i + 1).last() == pieces@[i as int]@);
            if i + 1 == n {
                assert(p.take(i + 1) =~= p);
            }
        }
        match read_group(&pieces[i]) {
            Some(x) => {
                g.push(x);
                assert(wide(g@) =~= before.push(x as nat));
            },
            None => {
                if i + 1 < n {
                    proof { lemma_groups_prefix(p, dotted, i + 1); }
                    return None;
                }
                if !dotted {
                    return None;
                }
                match read_v4(&pieces[i]) {
                    Some(bits) => {
                        let (high, low): (u32, u32) = (bits / 0x1_0000, bits % 0x1_0000);
                        g.push(high as u16);
                        g.push(low as u16);
                        assert(wide(g@) =~= before.push(high as nat).push(low as nat));
                    },
                    None => {
                        return None;
                    },
                }
            },
        }
        i += 1;
    }
    Some(g)
}

fn read_groups_of(s: &[char], dotted: bool) -> (g: Option<Vec<u16>>)
    ensures
        match g {
            Some(v) => groups_of(s@, dotted) == Some(wide(v@)),
            None => groups_of(s@, dotted) is None,
        },
{
    if s.len() == 0 {
        let g: Vec<u16> = Vec::new();
        assert(wide(g@) =~= Seq::empty());
        return Some(g);
    }
    read_groups(s, dotted)
}

/// The number of values that `n` groups can have.
spec fn span(n: nat) -> nat
    decreases n,
{
    if n == 0 { 1 } else { span((n - 1) as nat) * 0x1_0000 }
}

proof fn lemma_span()
    ensures
        span(8) == 0x1_0000_0000_0000_0000_0000_0000_0000_0000,
        span(7) == 0x1_0000_0000_0000_0000_0000_0000_0000,
        span(6) == 0x1_0000_0000_0000_0000_0000_0000,
        span(5) == 0x1_0000_0000_0000_0000_0000,
        span(4) == 0x1_0000_0000_0000_0000,
        span(3) == 0x1_0000_0000_0000,
        span(2) == 0x1_0000_0000,
        span(1) == 0x1_0000,
        span(0) == 1,
{
    reveal_with_fuel(span, 9);
}

fn combine(g: &[u16]) -> (bits: u128)
    requires
        g@.len() == 8,
    ensures
        bits == bits_of(wide(g@)),
{
    let ghost all = wide(g@);
    let mut bits: u128 = 0;
    let mut i: usize = 0;
    assert(all.take(0) =~= Seq::empty());
    while i < 8
        invariant
            i <= 8,
            g@.len() == 8,
            all == wide(g@),
            bits == bits_of(all.take(i as int)),
            bits < span(i as nat),
        decreases 8 - i,
    {
        proof {
            lemma_span();
            assert(all.take(i + 1).drop_last() =~= all.take(i as int));
            assert(all.take(i + 1).last() == g@[i as int]);
        }
        bits = bits * 0x1_0000 + g[i] as u128;
        i += 1;
    }
    assert(all.take(8) =~= all);
    bits
}

/// The first place where two colons stand together.
fn first_gap(s: &[char]) -> (at: Option<usize>)
    ensures
        match at {
            Some(i) => is_first_gap(s@, i as int) && i + 2 <= s@.len() && i == (choose|i: int| is_first_gap(s@, i)),
            None => !exists|i: int| is_first_gap(s@, i),
        },
{
    let n: usize = s.len();
    let mut i: usize = 0;
    while i < n && n - i > 1
        invariant
            n == s@.len(),
            i <= n,
            forall|j: int| 0 <= j < i ==> !#[trigger] gap_at(s@, j),
        decreases s@.len() - i,
    {
        if s[i] == ':' && s[i + 1] == ':' {
            proof {
                assert(is_first_gap(s@, i as int));
                let other = choose|i: int| is_first_gap(s@, i);
                assert(is_first_gap(s@, other));
                assert(gap_at(s@, other) && gap_at(s@, i as int));
            }
            return Some(i);
        }
        i += 1;
    }
    None
}

/// A part of a text.
pub(crate) fn part(s: &[char], from: usize, to: usize) -> (p: Vec<char>)
    requires
        from <= to <= s@.len(),
    ensures
        p@ == s@.subrange(from as int, to as int),
{
    let mut p: Vec<char> = Vec::new();
    let mut i: usize = from;
    while i < to
        invariant
            from <= i <= to <= s@.len(),
            p@ == s@.subrange(from as int, i as int),
        decreases to - i,
    {
        p.push(s[i]);
        i += 1;
        assert(p@ =~= s@.subrange(from as int, i as int));
    }
    p
}

fn read_v6(s: &[char]) -> (bits: Option<u128>)
    ensures
        bits == parse_v6(s@),
{
    match first_gap(s) {
        Some(at) => {
            let n: usize = s.len();
            let head = part(s, 0, at);
            let tail = part(s, at + 2, n);
            assert(head@ =~= s@.take(at as int));
            assert(tail@ =~= s@.skip(at + 2));
            match (read_groups_of(&head, false), read_groups_of(&tail, true)) {
                (Some(h), Some(t)) => {
                    if h.len() > 7 || t.len() > 7 - h.len() {
                        return None;
                    }
                    let ghost fill = zeros((8 - h@.len() - t@.len()) as nat);
                    let mut all: Vec<u16> = Vec::new();
                    let mut i: usize = 0;
                    let skip: usize = 8 - t.len();
                    while i < 8
                        invariant
                            i <= 8,
                            h@.len() + t@.len() <= 7,
                            skip == 8 - t@.len(),
                            fill == zeros((8 - h@.len() - t@.len()) as nat),
                            wide(all@) == (wide(h@) + fill + wide(t@)).take(i as int),
                        decreases 8 - i,
                    {
                        let x: u16 = if i < h.len() {
                            h[i]
                        } else if i < skip {
                            0
                        } else {
                            t[i - skip]
                        };
                        let ghost before = wide(all@);
                        all.push(x);
                        i += 1;
                        assert(wide(all@) =~= before.push(x as nat));
                        assert(wide(all@) =~= (wide(h@) + fill + wide(t@)).take(i as int));
                    }
                    assert(wide(all@) =~= wide(h@) + fill + wide(t@));
                    assert(all@.len() == wide(all@).len());
                    Some(combine(&all))
                },
                _ => None,
            }
        },
        None => match read_groups(s, true) {
            Some(g) => {
                assert(wide(g@).len() == g@.len());
                if g.len() == 8 {
                    Some(combine(&g))
                } else {
                    None
                }
            },
            None => None,
        },
    }
}

/// Cut a text at the first `c`.
pub(crate) fn cut_at(s: &[char], c: char) -> (r: Option<(Vec<char>, Vec<char>)>)
    ensures
        match r {
            Some((a, b)) => cut(s@, c) == Some((a@, b@)),
            None => cut(s@, c) is None,
        },
{
    let mut i: usize = 0;
    while i < s.len()
        invariant
            i <= s@.len(),
            forall|j: int| 0 <= j < i ==> s@[j] != c,
        decreases s@.len() - i,
    {
        if s[i] == c {
            let a = part(s, 0, i);
            let b = part(s, i + 1, s.len());
            proof {
                s@.index_of_first_ensures(c);
                assert(s@.contains(c));
                assert(a@ =~= s@.take(i as int));
                assert(b@ =~= s@.skip(i + 1));
            }
            return Some((a, b));
        }
        i += 1;
    }
    None
}

pub(crate) fn read_ip(s: &[char]) -> (ip: Option<IpAddr>)
    ensures
        ip == parse_ip(s@),
{
    match read_v4(s) {
        Some(bits) => Some(IpAddr::V4(bits)),
        None => match read_v6(s) {
            Some(bits) => Some(IpAddr::V6(bits)),
            None => None,
        },
    }
}

impl IpAddr {
    /// Read an address.
    pub fn parse(text: &str) -> (ip: Option<IpAddr>)
        ensures
            ip == parse_ip(text@),
    {
        let chars = chars_of(text);
        read_ip(&chars)
    }

    /// All bits are zero.
    pub open spec fn unspecified(self) -> bool {
        match self {
            IpAddr::V4(bits) => bits == 0,
            IpAddr::V6(bits) => bits == 0,
        }
    }

    pub fn is_unspecified(&self) -> (b: bool)
        ensures
            b == self.unspecified(),
    {
        match self {
            IpAddr::V4(bits) => *bits == 0,
            IpAddr::V6(bits) => *bits == 0,
        }
    }

    pub fn is_ipv4(&self) -> (b: bool)
        ensures
            b == (self is V4),
    {
        match self {
            IpAddr::V4(_) => true,
            IpAddr::V6(_) => false,
        }
    }
}

impl SocketAddr {
    /// Read a socket address.
    pub fn parse(text: &str) -> (addr: Option<SocketAddr>)
        ensures
            addr == parse_socket(text@),
    {
        let s = chars_of(text);
        if let Some((host, port)) = cut_at(&s, ':') {
            if let Some(bits) = read_v4(&host) {
                if let Some(p) = read_number(&port, 10, 0xffff) {
                    return Some(SocketAddr { ip: IpAddr::V4(bits), port: p as u16, scope_id: 0 });
                }
            }
        }
        if s.len() == 0 || s[0] != '[' {
            return None;
        }
        let inside = part(&s, 1, s.len());
        assert(inside@ =~= s@.skip(1));
        match cut_at(&inside, ']') {
            Some((inner, rest)) => {
                if rest.len() == 0 || rest[0] != ':' {
                    return None;
                }
                let port = part(&rest, 1, rest.len());
                assert(port@ =~= rest@.skip(1));
                let scoped = match cut_at(&inner, '%') {
                    Some((host, scope)) => match (read_v6(&host), read_number(&scope, 10, 0xffff_ffff)) {
                        (Some(bits), Some(n)) => Some((bits, n as u32)),
                        _ => None,
                    },
                    None => match read_v6(&inner) {
                        Some(bits) => Some((bits, 0u32)),
                        None => None,
                    },
                };
                match (scoped, read_number(&port, 10, 0xffff)) {
                    (Some((bits, scope_id)), Some(p)) => Some(SocketAddr { ip: IpAddr::V6(bits), port: p as u16, scope_id }),
                    _ => None,
                }
            },
            None => None,
        }
    }
}

/// The four numbers of an IPv4 address.
pub open spec fn octets(bits: u32) -> Seq<nat> {
    seq![
        (bits / 0x100_0000) as nat,
        (bits / 0x1_0000 % 0x100) as nat,
        (bits / 0x100 % 0x100) as nat,
        (bits % 0x100) as nat,
    ]
}

/// An IPv4 address in dotted decimal.
pub open spec fn v4_text(bits: u32) -> Seq<char> {
    join(octets(bits).map_values(|x: nat| decimal(x)), '.')
}

/// The lowest `n` groups of a number, most significant first.
pub open spec fn groups_from(bits: nat, n: nat) -> Seq<nat>
    decreases n,
{
    if n == 0 {
        Seq::empty()
    } else {
        groups_from(bits / 0x1_0000, (n - 1) as nat).push(bits % 0x1_0000)
    }
}

/// Groups in hexadecimal with colons between them.
pub open spec fn groups_text(g: Seq<nat>) -> Seq<char> {
    join(g.map_values(|x: nat| hex(x)), ':')
}

/// `len` groups of zeros from `start` on.
pub open spec fn zero_run(g: Seq<nat>, start: int, len: int) -> bool {
    &&& 0 <= start && 0 <= len && start + len <= g.len()
    &&& forall|i: int| start <= i < start + len ==> #[trigger] g[i] == 0
}

/// The longest run of zeros, the first one if several are longest.
pub open spec fn longest_run(g: Seq<nat>, start: int, len: int) -> bool {
    &&& zero_run(g, start, len)
    &&& forall|s: int, l: int| #[trigger] zero_run(g, s, l) ==> l < len || (l == len && start <= s)
}

/// The address is an IPv4 address mapped into IPv6 (`::ffff:a.b.c.d`).
pub open spec fn is_mapped(bits: u128) -> bool {
    bits / 0x1_0000_0000 == 0xffff
}

/// An IPv6 address: a mapped one with its dotted part, any other with its longest run of at least
/// two zero groups written as `::`.
pub open spec fn v6_text(bits: u128) -> Seq<char> {
    let g = groups_from(bits as nat, 8);
    let (start, len) = choose|start: int, len: int| longest_run(g, start, len);
    if is_mapped(bits) {
        "::ffff:"@ + v4_text((bits % 0x1_0000_0000) as u32)
    } else if len > 1 {
        groups_text(g.take(start)) + "::"@ + groups_text(g.skip(start + len))
    } else {
        groups_text(g)
    }
}

/// The text of an address.
pub open spec fn ip_text(ip: IpAddr) -> Seq<char> {
    match ip {
        IpAddr::V4(bits) => v4_text(bits),
        IpAddr::V6(bits) => v6_text(bits),
    }
}

fn push_v4(s: &mut String, bits: u32)
    ensures
        final(s)@ == old(s)@ + v4_text(bits),
{
    push_decimal(s, (bits / 0x100_0000) as u128);
    s.push('.');
    push_decimal(s, (bits / 0x1_0000 % 0x100) as u128);
    s.push('.');
    push_decimal(s, (bits / 0x100 % 0x100) as u128);
    s.push('.');
    push_decimal(s, (bits % 0x100) as u128);
    proof {
        reveal_with_fuel(join, 5);
        let p = octets(bits).map_values(|x: nat| decimal(x));
        let (p3, p2, p1) = (p.drop_last(), p.drop_last().drop_last(), p.drop_last().drop_last().drop_last());
        assert(p1 =~= seq![p[0]] && p2 =~= seq![p[0], p[1]] && p3 =~= seq![p[0], p[1], p[2]]);
        assert(s@ =~= old(s)@ + v4_text(bits));
    }
}

fn push_groups(s: &mut String, g: &[u16])
    ensures
        final(s)@ == old(s)@ + groups_text(wide(g@)),
{
    let ghost before = s@;
    let ghost p = wide(g@).map_values(|x: nat| hex(x));
    let mut i: usize = 0;
    assert(s@ =~= before + join(p.take(0), ':'));
    while i < g.len()
        invariant
            i <= g@.len(),
            p == wide(g@).map_values(|x: nat| hex(x)),
            s@ == before + join(p.take(i as int), ':'),
        decreases g@.len() - i,
    {
        proof {
            assert(p.take(i + 1).drop_last() =~= p.take(i as int));
            assert(p.take(i + 1).last() == hex(g@[i as int] as nat));
        }
        if i > 0 {
            s.push(':');
        }
        push_hex(s, g[i] as u128);
        i += 1;
        assert(s@ =~= before + join(p.take(i as int), ':'));
    }
    assert(p.take(i as int) =~= p);
}

/// The eight groups of an IPv6 address.
fn segments(bits: u128) -> (g: Vec<u16>)
    ensures
        g@.len() == 8,
        wide(g@) == groups_from(bits as nat, 8),
{
    let mut g: Vec<u16> = Vec::new();
    let mut rest: u128 = bits;
    let mut i: usize = 0;
    assert(wide(g@) =~= Seq::empty());
    assert(groups_from(rest as nat, 8) + wide(g@) =~= groups_from(bits as nat, 8));
    while i < 8
        invariant
            i <= 8,
            g@.len() == i,
            groups_from(rest as nat, (8 - i) as nat) + wide(g@) == groups_from(bits as nat, 8),
        decreases 8 - i,
    {
        let low: u128 = rest % 0x1_0000;
        let ghost (was, before) = (rest as nat, wide(g@));
        g.insert(0, low as u16);
        rest = rest / 0x1_0000;
        i += 1;
        proof {
            assert(wide(g@) =~= seq![low as nat] + before);
            let front = groups_from(rest as nat, (8 - i) as nat);
            assert(groups_from(was, (9 - i) as nat) == front.push(low as nat));
            assert(front + wide(g@) =~= front.push(low as nat) + before);
        }
    }
    assert(groups_from(rest as nat, 0) + wide(g@) =~= wide(g@));
    g
}

/// Find the longest run of zeros.
fn find_run(g: &[u16]) -> (run: (usize, usize))
    ensures
        longest_run(wide(g@), run.0 as int, run.1 as int),
        run.0 + run.1 <= g@.len(),
{
    let ghost all = wide(g@);
    let n: usize = g.len();
    let (mut start, mut len): (usize, usize) = (0, 0);
    let mut i: usize = 0;
    while i < n
        invariant
            n == g@.len(),
            all == wide(g@),
            i <= n,
            start <= i,
            len > 0 ==> start < i,
            len == 0 ==> start == 0,
            zero_run(all, start as int, len as int),
            forall|s: int, l: int| #[trigger] zero_run(all, s, l) && s < i ==> l < len || (l == len && start <= s),
        decreases n - i,
    {
        let mut l: usize = 0;
        while i + l < n && g[i + l] == 0
            invariant
                n == g@.len(),
                all == wide(g@),
                i < n,
                i + l <= n,
                zero_run(all, i as int, l as int),
            decreases n - i - l,
        {
            assert(all[i + l] == 0);
            l += 1;
        }
        proof {
            assert forall|s: int, k: int| #[trigger] zero_run(all, s, k) && s == i implies k <= l by {
                if k > l {
                    assert(all[i + l] == 0);
                    assert(g@[i + l] == 0);
                }
            }
        }
        if l > len {
            start = i;
            len = l;
        }
        i += 1;
    }
    proof {
        assert forall|s: int, l: int| #[trigger] zero_run(all, s, l) implies l < len || (l == len && start <= s) by {
            if s >= n {
                assert(l == 0);
            }
        }
    }
    (start, len)
}

/// There is one longest run.
proof fn lemma_run_unique(g: Seq<nat>, start: int, len: int)
    requires
        longest_run(g, start, len),
    ensures
        (choose|s: int, l: int| longest_run(g, s, l)) == (start, len),
{
    let (s, l) = choose|s: int, l: int| longest_run(g, s, l);
    assert(longest_run(g, s, l));
    assert(zero_run(g, s, l) && zero_run(g, start, len));
}

/// Every list of groups has a longest run of zeros, be it empty.
pub proof fn lemma_run_exists(g: Seq<nat>)
    ensures
        exists|start: int, len: int| longest_run(g, start, len),
{
    lemma_run_up_to(g, g.len() as int);
}

/// Among runs no longer than `bound` there is a longest first one.
proof fn lemma_run_up_to(g: Seq<nat>, bound: int)
    requires
        0 <= bound <= g.len(),
        forall|s: int, l: int| #[trigger] zero_run(g, s, l) ==> l <= bound,
    ensures
        exists|start: int, len: int| longest_run(g, start, len),
    decreases bound,
{
    if exists|s: int| #[trigger] zero_run(g, s, bound) {
        let s = choose|s: int| #[trigger] zero_run(g, s, bound);
        lemma_first_run(g, bound, s);
    } else {
        assert(bound > 0) by {
            assert(zero_run(g, 0, 0));
        }
        assert forall|s: int, l: int| #[trigger] zero_run(g, s, l) implies l <= bound - 1 by {
            if l == bound {
                assert(zero_run(g, s, bound));
            }
        }
        lemma_run_up_to(g, bound - 1);
    }
}

proof fn lemma_first_run(g: Seq<nat>, len: int, start: int)
    requires
        zero_run(g, start, len),
        forall|s: int, l: int| #[trigger] zero_run(g, s, l) ==> l <= len,
    ensures
        exists|start: int, len: int| longest_run(g, start, len),
    decreases start,
{
    if exists|s: int| s < start && #[trigger] zero_run(g, s, len) {
        let s = choose|s: int| s < start && #[trigger] zero_run(g, s, len);
        lemma_first_run(g, len, s);
    } else {
        assert forall|s: int, l: int| #[trigger] zero_run(g, s, l) implies l < len || (l == len && start <= s) by {
            if l == len && s < start {
                assert(zero_run(g, s, len));
            }
        }
        assert(longest_run(g, start, len));
    }
}

fn push_v6(s: &mut String, bits: u128)
    ensures
        final(s)@ == old(s)@ + v6_text(bits),
{
    let g = segments(bits);
    let (start, len) = find_run(&g);
    let ghost all = groups_from(bits as nat, 8);
    proof { lemma_run_unique(all, start as int, len as int); }
    if bits / 0x1_0000_0000 == 0xffff {
        push_text(s, "::ffff:");
        push_v4(s, (bits % 0x1_0000_0000) as u32);
    } else if len > 1 {
        let (head, tail) = split_groups(&g, start, start + len);
        proof {
            assert(wide(head@) =~= all.take(start as int));
            assert(wide(tail@) =~= all.skip(start + len));
        }
        push_groups(s, &head);
        push_text(s, "::");
        push_groups(s, &tail);
    } else {
        push_groups(s, &g);
    }
    assert(s@ =~= old(s)@ + v6_text(bits));
}

/// What stands before `from`, and what stands from `to` on.
fn split_groups(g: &[u16], from: usize, to: usize) -> (r: (Vec<u16>, Vec<u16>))
    requires
        from <= to <= g@.len(),
    ensures
        r.0@ == g@.take(from as int),
        r.1@ == g@.skip(to as int),
{
    let mut head: Vec<u16> = Vec::new();
    let mut tail: Vec<u16> = Vec::new();
    let mut i: usize = 0;
    while i < from
        invariant
            i <= from <= g@.len(),
            head@ == g@.take(i as int),
        decreases from - i,
    {
        head.push(g[i]);
        i += 1;
        assert(head@ =~= g@.take(i as int));
    }
    let mut k: usize = to;
    while k < g.len()
        invariant
            to <= k <= g@.len(),
            tail@ == g@.subrange(to as int, k as int),
        decreases g@.len() - k,
    {
        tail.push(g[k]);
        k += 1;
        assert(tail@ =~= g@.subrange(to as int, k as int));
    }
    assert(tail@ =~= g@.skip(to as int));
    (head, tail)
}

impl IpAddr {
    /// Append the text of the address.
    pub fn push_to(&self, s: &mut String)
        ensures
            final(s)@ == old(s)@ + ip_text(*self),
    {
        match self {
            IpAddr::V4(bits) => push_v4(s, *bits),
            IpAddr::V6(bits) => push_v6(s, *bits),
        }
    }

    /// The text of the address.
    pub fn to_string(&self) -> (s: String)
        ensures
            s@ == ip_text(*self),
    {
        let mut s = String::new();
        self.push_to(&mut s);
        assert(s@ =~= ip_text(*self));
        s
    }
}

} // verus!
