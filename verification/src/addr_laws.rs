//! What is written of an address is read back.

use vstd::prelude::*;

use crate::addr::{
    bits_of, cut, gap_at, group, groups, groups_from, groups_of, groups_text, ip_text, is_first_gap,
    is_mapped, lemma_run_exists, longest_run, octet, octets, parse_ip, parse_socket, parse_socket_v4,
    parse_v4, parse_v6, v4_text, v6_text, zero_run, zeros, IpAddr, SocketAddr,
};
use crate::order::Ranked;
use crate::text::{
    all_digits, decimal, digit, digit_value, hex, join, lemma_numeral, lemma_split_join,
    lemma_split_last, lemma_split_whole, numeral, split, value,
};

verus! {

proof fn lemma_no_separator(s: Seq<char>, base: nat, c: char)
    requires
        all_digits(s, base),
        digit_value(c, base) is None,
    ensures
        !s.contains(c),
{
    if s.contains(c) {
        assert(digit_value(s[s.index_of(c)], base) is Some);
    }
}

proof fn lemma_octet(x: nat)
    requires
        x <= 255,
    ensures
        octet(decimal(x)) == Some(x),
        !decimal(x).contains('.'),
        !decimal(x).contains(':'),
{
    lemma_numeral(x, 10);
    lemma_no_separator(decimal(x), 10, '.');
    lemma_no_separator(decimal(x), 10, ':');
    reveal_with_fuel(numeral, 4);
    assert(decimal(x).len() <= 3);
}

proof fn lemma_group(x: nat)
    requires
        x <= 0xffff,
    ensures
        group(hex(x)) == Some(x),
        !hex(x).contains('.'),
        !hex(x).contains(':'),
        hex(x).len() > 0,
{
    lemma_numeral(x, 16);
    lemma_no_separator(hex(x), 16, '.');
    lemma_no_separator(hex(x), 16, ':');
    reveal_with_fuel(numeral, 5);
    assert(hex(x).len() <= 4);
}

proof fn lemma_v4_read_back(bits: u32)
    ensures
        parse_v4(v4_text(bits)) == Some(bits),
        split(v4_text(bits), '.') == octets(bits).map_values(|x: nat| decimal(x)),
        !v4_text(bits).contains(':'),
{
    let o = octets(bits);
    let p = o.map_values(|x: nat| decimal(x));
    assert forall|i: int| 0 <= i < p.len() implies !(#[trigger] p[i]).contains('.') && !p[i].contains(':') by {
        lemma_octet(o[i]);
    }
    lemma_split_join(p, '.');
    lemma_octet(o[0]);
    lemma_octet(o[1]);
    lemma_octet(o[2]);
    lemma_octet(o[3]);
    lemma_join_contains(p, '.', ':');
    assert(((o[0] * 256 + o[1]) * 256 + o[2]) * 256 + o[3] == bits);
}

/// A joined text holds only what its pieces hold, besides the separator.
proof fn lemma_join_contains(p: Seq<Seq<char>>, sep: char, c: char)
    requires
        c != sep,
        forall|i: int| 0 <= i < p.len() ==> !(#[trigger] p[i]).contains(c),
    ensures
        !join(p, sep).contains(c),
    decreases p.len(),
{
    let s = join(p, sep);
    if p.len() == 1 {
        assert(!p[0].contains(c));
    } else if p.len() > 1 {
        let front = p.drop_last();
        assert forall|i: int| 0 <= i < front.len() implies !(#[trigger] front[i]).contains(c) by {
            assert(!p[i].contains(c));
        }
        lemma_join_contains(front, sep, c);
        let head = join(front, sep);
        let last = p[p.len() - 1];
        if s.contains(c) {
            let i = s.index_of(c);
            if i < head.len() {
                assert(head[i] == c);
            } else if i > head.len() {
                assert(last[i - head.len() - 1] == c);
            }
        }
    }
}

/// Nonempty pieces without colons, joined by colons: no two colons together, none at an end.
proof fn lemma_join_has_no_gap(p: Seq<Seq<char>>)
    requires
        p.len() > 0,
        forall|i: int| 0 <= i < p.len() ==> (#[trigger] p[i]).len() > 0 && !p[i].contains(':'),
    ensures
        join(p, ':').len() > 0,
        join(p, ':').last() != ':',
        forall|i: int| !#[trigger] gap_at(join(p, ':'), i),
    decreases p.len(),
{
    let s = join(p, ':');
    let last = p[p.len() - 1];
    assert(last.len() > 0 && !last.contains(':'));
    assert(last.contains(last.last()));
    if p.len() == 1 {
        assert forall|i: int| !#[trigger] gap_at(s, i) by {
            if gap_at(s, i) {
                assert(last.contains(s[i]));
            }
        }
    } else {
        let front = p.drop_last();
        assert forall|i: int| 0 <= i < front.len() implies (#[trigger] front[i]).len() > 0 && !front[i].contains(':') by {
            assert(p[i].len() > 0 && !p[i].contains(':'));
        }
        lemma_join_has_no_gap(front);
        let head = join(front, ':');
        assert forall|i: int| !#[trigger] gap_at(s, i) by {
            if gap_at(s, i) {
                if i + 1 < head.len() {
                    assert(gap_at(head, i));
                } else if i + 1 == head.len() {
                    assert(s[i] == head.last());
                } else {
                    assert(s[i + 1] == last[i - head.len()]);
                    assert(last.contains(last[i - head.len()]));
                }
            }
        }
    }
}

spec fn small(g: Seq<nat>) -> bool {
    forall|i: int| 0 <= i < g.len() ==> #[trigger] g[i] <= 0xffff
}

proof fn lemma_groups_read_back(g: Seq<nat>, dotted: bool)
    requires
        small(g),
    ensures
        groups(g.map_values(|x: nat| hex(x)), dotted) == Some(g),
    decreases g.len(),
{
    let p = g.map_values(|x: nat| hex(x));
    if g.len() > 0 {
        let front = g.drop_last();
        assert forall|i: int| 0 <= i < front.len() implies #[trigger] front[i] <= 0xffff by {
            assert(g[i] <= 0xffff);
        }
        lemma_groups_read_back(front, false);
        assert(p.drop_last() =~= front.map_values(|x: nat| hex(x)));
        assert(g[g.len() - 1] <= 0xffff);
        lemma_group(g.last());
        assert(front.push(g.last()) =~= g);
    } else {
        assert(g =~= Seq::empty());
    }
}

proof fn lemma_groups_text(g: Seq<nat>, dotted: bool)
    requires
        small(g),
    ensures
        groups_of(groups_text(g), dotted) == Some(g),
        g.len() > 0 ==> split(groups_text(g), ':') == g.map_values(|x: nat| hex(x)),
        g.len() > 0 ==> groups_text(g).len() > 0 && groups_text(g).last() != ':',
        forall|i: int| !#[trigger] gap_at(groups_text(g), i),
        !groups_text(g).contains('.'),
{
    let p = g.map_values(|x: nat| hex(x));
    assert forall|i: int| 0 <= i < p.len() implies {
        &&& !(#[trigger] p[i]).contains(':')
        &&& !p[i].contains('.')
        &&& p[i].len() > 0
    } by {
        assert(g[i] <= 0xffff);
        lemma_group(g[i]);
    }
    lemma_join_contains(p, ':', '.');
    if g.len() > 0 {
        lemma_split_join(p, ':');
        lemma_join_has_no_gap(p);
        lemma_groups_read_back(g, dotted);
    } else {
        assert(g =~= Seq::empty());
    }
}

spec fn span_of(n: nat) -> nat
    decreases n,
{
    if n == 0 { 1 } else { span_of((n - 1) as nat) * 0x1_0000 }
}

proof fn lemma_groups_from(bits: nat, n: nat)
    requires
        bits < span_of(n),
    ensures
        groups_from(bits, n).len() == n,
        small(groups_from(bits, n)),
        bits_of(groups_from(bits, n)) == bits,
    decreases n,
{
    if n > 0 {
        lemma_groups_from(bits / 0x1_0000, (n - 1) as nat);
        let front = groups_from(bits / 0x1_0000, (n - 1) as nat);
        let g = groups_from(bits, n);
        assert(g.drop_last() =~= front);
        assert forall|i: int| 0 <= i < g.len() implies #[trigger] g[i] <= 0xffff by {
            if i < front.len() {
                assert(front[i] <= 0xffff);
            }
        }
    }
}

/// The gap found is where the text says it is.
proof fn lemma_gap(head: Seq<char>, tail: Seq<char>)
    requires
        forall|i: int| !#[trigger] gap_at(head, i),
        head.len() > 0 ==> head.last() != ':',
    ensures
        ({
            let s = head + "::"@ + tail;
            &&& is_first_gap(s, head.len() as int)
            &&& (choose|i: int| is_first_gap(s, i)) == head.len()
            &&& s.take(head.len() as int) == head
            &&& s.skip(head.len() as int + 2) == tail
        }),
{
    reveal_strlit("::");
    let s = head + "::"@ + tail;
    let n = head.len() as int;
    assert(gap_at(s, n));
    assert forall|j: int| 0 <= j < n implies !#[trigger] gap_at(s, j) by {
        if gap_at(s, j) {
            if j + 1 < n {
                assert(gap_at(head, j));
            } else {
                assert(s[j] == head.last());
            }
        }
    }
    assert(is_first_gap(s, n));
    let other = choose|i: int| is_first_gap(s, i);
    assert(is_first_gap(s, other));
    assert(gap_at(s, other) && gap_at(s, n));
    assert(s.take(n) =~= head);
    assert(s.skip(n + 2) =~= tail);
}

proof fn lemma_marker()
    ensures
        group(seq!['f', 'f', 'f', 'f']) == Some(0xffffnat),
        split(seq!['f', 'f', 'f', 'f'], ':') == seq![seq!['f', 'f', 'f', 'f']],
{
    let word = seq!['f', 'f', 'f', 'f'];
    let none = Seq::<char>::empty();
    reveal_with_fuel(crate::text::value, 5);
    assert(word.drop_last() =~= seq!['f', 'f', 'f']);
    assert(word.drop_last().drop_last() =~= seq!['f', 'f']);
    assert(word.drop_last().drop_last().drop_last() =~= seq!['f']);
    assert(word.drop_last().drop_last().drop_last().drop_last() =~= none);
    assert(!word.contains(':'));
    lemma_split_whole(word, ':');
}

/// Leading zero groups add nothing.
proof fn lemma_zeros(n: nat)
    ensures
        bits_of(zeros(n)) == 0,
    decreases n,
{
    if n > 0 {
        lemma_zeros((n - 1) as nat);
        assert(zeros(n).drop_last() =~= zeros((n - 1) as nat));
    }
}

proof fn lemma_mapped_bits(hi: nat, lo: nat)
    ensures
        bits_of(Seq::<nat>::empty() + zeros(5) + seq![0xffff, hi, lo]) == (0xffff * 0x1_0000 + hi) * 0x1_0000 + lo,
{
    let all = Seq::<nat>::empty() + zeros(5) + seq![0xffff, hi, lo];
    let a3 = zeros(5);
    let a2 = a3.push(0xffff);
    let a1 = a2.push(hi);
    assert(all =~= a1.push(lo));
    assert(all.drop_last() =~= a1);
    assert(a1.drop_last() =~= a2);
    assert(a2.drop_last() =~= a3);
    lemma_zeros(5);
    assert(bits_of(a2) == 0xffff);
    assert(bits_of(a1) == 0xffff * 0x1_0000 + hi);
}

/// A dotted address is no group.
proof fn lemma_dotted_is_no_group(bits: u32)
    ensures
        group(v4_text(bits)) is None,
        v4_text(bits).len() > 0,
{
    let dotted = v4_text(bits);
    lemma_v4_read_back(bits);
    assert(split(dotted, '.').len() == 4);
    if !dotted.contains('.') {
        lemma_split_whole(dotted, '.');
    }
    if all_digits(dotted, 16) {
        lemma_no_separator(dotted, 16, '.');
    }
}

/// A prefix of the first piece is a prefix of the joined text.
proof fn lemma_join_prefix(prefix: Seq<char>, p: Seq<Seq<char>>, sep: char)
    requires
        p.len() > 0,
    ensures
        join(p.update(0, prefix + p[0]), sep) == prefix + join(p, sep),
    decreases p.len(),
{
    let q = p.update(0, prefix + p[0]);
    if p.len() > 1 {
        lemma_join_prefix(prefix, p.drop_last(), sep);
        assert(q.drop_last() =~= p.drop_last().update(0, prefix + p[0]));
        assert(join(q, sep) =~= prefix + join(p, sep));
    }
}

proof fn lemma_mapped_is_no_v4(low: u32)
    ensures
        parse_v4("::ffff:"@ + v4_text(low)) is None,
{
    reveal_strlit("::ffff:");
    let text = "::ffff:"@ + v4_text(low);
    let o = octets(low);
    let d = o.map_values(|x: nat| decimal(x));
    let first = "::ffff:"@ + d[0];
    let q = d.update(0, first);
    lemma_octet(o[0]);
    lemma_octet(o[1]);
    lemma_octet(o[2]);
    lemma_octet(o[3]);
    lemma_join_prefix("::ffff:"@, d, '.');
    assert(!first.contains('.')) by {
        if first.contains('.') {
            let i = first.index_of('.');
            if i >= 7 {
                assert(d[0][i - 7] == '.');
            }
        }
    }
    assert forall|i: int| 0 <= i < q.len() implies !(#[trigger] q[i]).contains('.') by {
    }
    lemma_split_join(q, '.');
    assert(first[0] == ':');
    assert(octet(first) is None);
}

/// The part of a mapped address behind the colons stands for three groups.
#[verifier::spinoff_prover]
proof fn lemma_mapped_tail(low: u32)
    ensures
        groups_of(seq!['f', 'f', 'f', 'f'].push(':') + v4_text(low), true) == Some(
            seq![0xffffnat, (low / 0x1_0000) as nat, (low % 0x1_0000) as nat],
        ),
{
    let dotted = v4_text(low);
    let word = seq!['f', 'f', 'f', 'f'];
    let p = split(word.push(':') + dotted, ':');
    let (hi, lo) = ((low / 0x1_0000) as nat, (low % 0x1_0000) as nat);
    lemma_marker();
    lemma_dotted_is_no_group(low);
    lemma_v4_read_back(low);
    lemma_split_last(word, dotted, ':');
    assert(p.last() == dotted);
    assert(p.drop_last() =~= seq![word]);
    assert(groups(seq![word], false) == Some(Seq::<nat>::empty().push(0xffff))) by {
        assert(seq![word].drop_last() =~= Seq::<Seq<char>>::empty());
        assert(groups(Seq::<Seq<char>>::empty(), false) == Some(Seq::<nat>::empty()));
    }
    assert(Seq::<nat>::empty().push(0xffff).push(hi).push(lo) =~= seq![0xffffnat, hi, lo]);
}

#[verifier::spinoff_prover]
proof fn lemma_mapped_read_back(bits: u128)
    requires
        is_mapped(bits),
    ensures
        parse_v6(v6_text(bits)) == Some(bits),
        parse_v4(v6_text(bits)) is None,
{
    let low = (bits % 0x1_0000_0000) as u32;
    lemma_mapped_is_no_v4(low);
    let text = v6_text(bits);
    let tail = seq!['f', 'f', 'f', 'f'].push(':') + v4_text(low);
    let none = Seq::<char>::empty();
    assert(text =~= none + "::"@ + tail) by {
        reveal_strlit("::ffff:");
        reveal_strlit("::");
    }
    lemma_gap(none, tail);
    lemma_mapped_tail(low);
    assert(groups_of(none, false) == Some(Seq::<nat>::empty()));
    lemma_mapped_bits((low / 0x1_0000) as nat, (low % 0x1_0000) as nat);
}

proof fn lemma_plain_read_back(bits: u128)
    requires
        !is_mapped(bits),
    ensures
        parse_v6(v6_text(bits)) == Some(bits),
        parse_v4(v6_text(bits)) is None,
{
    let g = groups_from(bits as nat, 8);
    assert(bits < span_of(8)) by { reveal_with_fuel(span_of, 9); }
    lemma_groups_from(bits as nat, 8);
    lemma_run_exists(g);
    let (start, len) = choose|start: int, len: int| longest_run(g, start, len);
    assert(longest_run(g, start, len));
    let text = v6_text(bits);
    if len > 1 {
        let (head, tail) = (g.take(start), g.skip(start + len));
        assert(small(head)) by {
            assert forall|i: int| 0 <= i < head.len() implies #[trigger] head[i] <= 0xffff by {
                assert(g[i] <= 0xffff);
            }
        }
        assert(small(tail)) by {
            assert forall|i: int| 0 <= i < tail.len() implies #[trigger] tail[i] <= 0xffff by {
                assert(g[start + len + i] <= 0xffff);
            }
        }
        lemma_groups_text(head, false);
        lemma_groups_text(tail, true);
        lemma_gap(groups_text(head), groups_text(tail));
        assert(head + zeros(len as nat) + tail =~= g) by {
            assert(zero_run(g, start, len));
        }
        reveal_strlit("::");
        assert(!text.contains('.')) by {
            if text.contains('.') {
                let i = text.index_of('.');
                let n = groups_text(head).len();
                if i < n {
                    assert(groups_text(head)[i] == '.');
                } else if i >= n + 2 {
                    assert(groups_text(tail)[i - n - 2] == '.');
                }
            }
        }
    } else {
        lemma_groups_text(g, true);
        assert(!exists|i: int| is_first_gap(text, i)) by {
            if exists|i: int| is_first_gap(text, i) {
                let i = choose|i: int| is_first_gap(text, i);
                assert(gap_at(text, i));
            }
        }
    }
    lemma_split_whole(text, '.');
}

/// Reading the text of an address gives the address back.
pub proof fn law_ip_text_is_read_back(ip: IpAddr)
    ensures
        parse_ip(ip_text(ip)) == Some(ip),
{
    match ip {
        IpAddr::V4(bits) => {
            lemma_v4_read_back(bits);
        },
        IpAddr::V6(bits) => {
            if is_mapped(bits) {
                lemma_mapped_read_back(bits);
            } else {
                lemma_plain_read_back(bits);
            }
        },
    }
}

/// An address is written in hexadecimal digits, dots and colons.
proof fn lemma_ip_text_avoids(ip: IpAddr, c: char)
    requires
        digit_value(c, 16) is None,
        c != ':' && c != '.',
    ensures
        !ip_text(ip).contains(c),
{
    match ip {
        IpAddr::V4(bits) => {
            lemma_v4_avoids(bits, c);
        },
        IpAddr::V6(bits) => {
            let g = groups_from(bits as nat, 8);
            assert(bits < span_of(8)) by { reveal_with_fuel(span_of, 9); }
            lemma_groups_from(bits as nat, 8);
            lemma_run_exists(g);
            let (start, len) = choose|start: int, len: int| longest_run(g, start, len);
            assert(longest_run(g, start, len));
            let text = v6_text(bits);
            if is_mapped(bits) {
                reveal_strlit("::ffff:");
                let dotted = v4_text((bits % 0x1_0000_0000) as u32);
                lemma_v4_avoids((bits % 0x1_0000_0000) as u32, c);
                if text.contains(c) {
                    let i = text.index_of(c);
                    if i >= 7 {
                        assert(dotted[i - 7] == c);
                    }
                }
            } else if len > 1 {
                reveal_strlit("::");
                let (head, tail) = (groups_text(g.take(start)), groups_text(g.skip(start + len)));
                lemma_groups_avoid(g.take(start), c);
                lemma_groups_avoid(g.skip(start + len), c);
                if text.contains(c) {
                    let i = text.index_of(c);
                    if i < head.len() {
                        assert(head[i] == c);
                    } else if i >= head.len() + 2 {
                        assert(tail[i - head.len() - 2] == c);
                    }
                }
            } else {
                lemma_groups_avoid(g, c);
            }
        },
    }
}

proof fn lemma_v4_avoids(bits: u32, c: char)
    requires
        digit_value(c, 10) is None,
        c != '.',
    ensures
        !v4_text(bits).contains(c),
{
    let o = octets(bits);
    let p = o.map_values(|x: nat| decimal(x));
    assert forall|i: int| 0 <= i < p.len() implies !(#[trigger] p[i]).contains(c) by {
        lemma_numeral(o[i], 10);
        lemma_no_separator(p[i], 10, c);
    }
    lemma_join_contains(p, '.', c);
}

proof fn lemma_groups_avoid(g: Seq<nat>, c: char)
    requires
        digit_value(c, 16) is None,
        c != ':',
    ensures
        !groups_text(g).contains(c),
{
    let p = g.map_values(|x: nat| hex(x));
    assert forall|i: int| 0 <= i < p.len() implies !(#[trigger] p[i]).contains(c) by {
        lemma_numeral(g[i], 16);
        lemma_no_separator(p[i], 16, c);
    }
    lemma_join_contains(p, ':', c);
}

/// An address is written without slashes.
pub proof fn lemma_ip_text_has_no_slash(ip: IpAddr)
    ensures
        !ip_text(ip).contains('/'),
{
    lemma_ip_text_avoids(ip, '/');
}

/// Different addresses have different texts.
pub proof fn law_ip_texts_are_distinct(a: IpAddr, b: IpAddr)
    requires
        ip_text(a) == ip_text(b),
    ensures
        a == b,
{
    law_ip_text_is_read_back(a);
    law_ip_text_is_read_back(b);
}

/// The digits are those of ASCII: ten of them count for what they say, and in base sixteen six letters of
/// either case go on from there.
pub proof fn law_digits_are_ascii(c: char, value: nat)
    ensures
        digit_value(c, 10) == Some(value) <==> value < 10 && c as u32 == 48 + value,
        digit_value(c, 16) == Some(value) <==> {
            ||| value < 10 && c as u32 == 48 + value
            ||| 10 <= value < 16 && (c as u32 == 55 + value || c as u32 == 87 + value)
        },
{
}

/// Digits without a leading zero are how their number is written.
proof fn lemma_plain_digits(s: Seq<char>)
    requires
        s.len() > 0,
        all_digits(s, 10),
        s.len() > 1 ==> s[0] != '0',
    ensures
        decimal(value(s, 10)) == s,
        s[0] != '0' ==> value(s, 10) > 0,
    decreases s.len(),
{
    let (front, last) = (s.drop_last(), digit_value(s.last(), 10)->0);
    assert(digit_value(s[s.len() - 1], 10) is Some);
    assert(digit(last) == s.last());
    if front.len() == 0 {
        assert(value(front, 10) == 0);
        assert(decimal(value(s, 10)) =~= s);
    } else {
        assert(front[0] == s[0]);
        assert(all_digits(front, 10)) by {
            assert forall|i: int| 0 <= i < front.len() implies digit_value(#[trigger] front[i], 10) is Some by {
                assert(digit_value(s[i], 10) is Some);
            }
        }
        lemma_plain_digits(front);
        let n = value(s, 10);
        assert(n / 10 == value(front, 10) && n % 10 == last);
        assert(decimal(n) =~= s);
    }
}

/// The pieces of a text make it up again.
proof fn lemma_join_split(s: Seq<char>, sep: char)
    ensures
        split(s, sep).len() > 0,
        join(split(s, sep), sep) == s,
    decreases s.len(),
{
    let p = split(s, sep);
    if s.len() == 0 {
        assert(join(p, sep) =~= s);
    } else {
        let front = split(s.drop_last(), sep);
        lemma_join_split(s.drop_last(), sep);
        if s.last() == sep {
            assert(p.drop_last() =~= front);
            assert(join(p, sep) =~= s);
        } else {
            if front.len() == 1 {
                assert(join(p, sep) =~= s);
            } else {
                assert(p.drop_last() =~= front.drop_last());
                let head = join(front.drop_last(), sep).push(sep);
                assert(join(front, sep) == head + front.last());
                assert(join(p, sep) == head + front.last().push(s.last()));
                assert(head + front.last().push(s.last()) =~= (head + front.last()).push(s.last()));
                assert(s =~= s.drop_last().push(s.last()));
            }
        }
    }
}

proof fn lemma_octets(bits: u32, a: nat, b: nat, c: nat, d: nat)
    requires
        a <= 255 && b <= 255 && c <= 255 && d <= 255,
        bits == (((a * 256 + b) * 256 + c) * 256 + d) as u32,
    ensures
        octets(bits) == seq![a, b, c, d],
{
    assert(bits == a * 0x100_0000 + b * 0x1_0000 + c * 0x100 + d);
    assert(bits / 0x100_0000 == a);
    assert(bits / 0x1_0000 == a * 0x100 + b);
    assert(bits / 0x100 == a * 0x1_0000 + b * 0x100 + c);
    assert(octets(bits) =~= seq![a, b, c, d]);
}

/// An IPv4 address is read from its own text and from no other.
pub proof fn law_an_ipv4_address_has_one_text(s: Seq<char>, bits: u32)
    ensures
        parse_v4(s) == Some(bits) <==> s == v4_text(bits),
{
    if s == v4_text(bits) {
        lemma_v4_read_back(bits);
    }
    if parse_v4(s) == Some(bits) {
        let p = split(s, '.');
        lemma_join_split(s, '.');
        let (a, b, c, d) = (octet(p[0])->0, octet(p[1])->0, octet(p[2])->0, octet(p[3])->0);
        lemma_plain_digits(p[0]);
        lemma_plain_digits(p[1]);
        lemma_plain_digits(p[2]);
        lemma_plain_digits(p[3]);
        lemma_octets(bits, a, b, c, d);
        assert(octets(bits).map_values(|x: nat| decimal(x)) =~= p);
    }
}

/// What a socket address looks like: the address, in brackets if it is IPv6, a colon, and the port.
pub open spec fn socket_text(ip: IpAddr, port: u16) -> Seq<char> {
    match ip {
        IpAddr::V4(_) => ip_text(ip) + seq![':'] + decimal(port as nat),
        IpAddr::V6(_) => seq!['['] + ip_text(ip) + seq![']', ':'] + decimal(port as nat),
    }
}

/// Reading the text of a socket address gives the address and the port back.
pub proof fn law_socket_text_is_read_back(ip: IpAddr, port: u16)
    ensures
        parse_socket(socket_text(ip, port)) == Some(SocketAddr { ip, port, scope_id: 0 }),
{
    let (host, digits) = (ip_text(ip), decimal(port as nat));
    let s = socket_text(ip, port);
    lemma_numeral(port as nat, 10);
    law_ip_text_is_read_back(ip);
    match ip {
        IpAddr::V4(bits) => {
            lemma_v4_avoids(bits, ':');
            lemma_v4_read_back(bits);
            lemma_cut(host, digits, ':');
            assert(s =~= host.push(':') + digits);
        },
        IpAddr::V6(bits) => {
            lemma_ip_text_avoids(ip, ']');
            lemma_ip_text_avoids(ip, '%');
            lemma_v6_is_no_v4(bits);
            let rest = seq![':'] + digits;
            lemma_cut(host, rest, ']');
            assert(s.skip(1) =~= host.push(']') + rest);
            assert(rest.skip(1) =~= digits);
            assert(parse_socket_v4(s) is None) by {
                if let Some((before, _)) = cut(s, ':') {
                    s.index_of_first_ensures(':');
                    assert(s[0] == '[');
                    assert(before[0] == '[');
                    if let Some(low) = parse_v4(before) {
                        law_an_ipv4_address_has_one_text(before, low);
                        lemma_v4_avoids(low, '[');
                        assert(before.contains('['));
                    }
                }
            }
        },
    }
}

proof fn lemma_cut(before: Seq<char>, after: Seq<char>, c: char)
    requires
        !before.contains(c),
    ensures
        cut(before.push(c) + after, c) == Some((before, after)),
{
    let s = before.push(c) + after;
    let n = before.len() as int;
    assert(s[n] == c);
    assert(s.contains(c));
    s.index_of_first_ensures(c);
    let at = s.index_of_first(c)->0;
    if at < n {
        assert(before[at] == c);
    }
    assert(s.take(n) =~= before);
    assert(s.skip(n + 1) =~= after);
}

proof fn lemma_v6_is_no_v4(bits: u128)
    ensures
        parse_v4(v6_text(bits)) is None,
        parse_v6(v6_text(bits)) == Some(bits),
{
    law_ip_text_is_read_back(IpAddr::V6(bits));
}

/// IPv4 addresses come before IPv6 addresses, and within a family the number decides.
pub proof fn law_addresses_are_ordered_by_family_and_number(a: IpAddr, b: IpAddr)
    ensures
        a.rank() < b.rank() <==> match (a, b) {
            (IpAddr::V4(x), IpAddr::V4(y)) => x < y,
            (IpAddr::V6(x), IpAddr::V6(y)) => x < y,
            (IpAddr::V4(_), IpAddr::V6(_)) => true,
            (IpAddr::V6(_), IpAddr::V4(_)) => false,
        },
{
}

/// One to four hexadecimal digits, of either case and with leading zeros or without.
pub open spec fn is_group(s: Seq<char>) -> bool {
    1 <= s.len() <= 4 && all_digits(s, 16)
}

proof fn lemma_group_value(s: Seq<char>)
    requires
        is_group(s),
    ensures
        group(s) == Some(value(s, 16)),
        !s.contains(':'),
{
    lemma_no_separator(s, 16, ':');
    assert(value(s, 16) <= 0xffff) by {
        reveal_with_fuel(value, 5);
        let (c, b) = (s.drop_last(), s.drop_last().drop_last());
        let a = b.drop_last();
        assert(digit_value(s[s.len() - 1], 16) is Some);
        if s.len() >= 2 {
            assert(digit_value(s[s.len() - 2], 16) is Some);
        }
        if s.len() >= 3 {
            assert(digit_value(s[s.len() - 3], 16) is Some);
        }
        if s.len() >= 4 {
            assert(digit_value(s[s.len() - 4], 16) is Some);
        }
    }
}

proof fn lemma_groups_by_value(p: Seq<Seq<char>>, dotted: bool)
    requires
        forall|i: int| 0 <= i < p.len() ==> is_group(#[trigger] p[i]),
    ensures
        groups(p, dotted) == Some(p.map_values(|s: Seq<char>| value(s, 16))),
    decreases p.len(),
{
    let g = p.map_values(|s: Seq<char>| value(s, 16));
    if p.len() > 0 {
        let front = p.drop_last();
        assert forall|i: int| 0 <= i < front.len() implies is_group(#[trigger] front[i]) by {
            assert(is_group(p[i]));
        }
        lemma_groups_by_value(front, false);
        assert(is_group(p[p.len() - 1]));
        lemma_group_value(p.last());
        assert(front.map_values(|s: Seq<char>| value(s, 16)).push(value(p.last(), 16)) =~= g);
    } else {
        assert(g =~= Seq::empty());
    }
}

proof fn lemma_groups_joined(p: Seq<Seq<char>>, dotted: bool)
    requires
        forall|i: int| 0 <= i < p.len() ==> is_group(#[trigger] p[i]),
    ensures
        groups_of(join(p, ':'), dotted) == Some(p.map_values(|s: Seq<char>| value(s, 16))),
        p.len() > 0 ==> split(join(p, ':'), ':') == p && join(p, ':').last() != ':',
        forall|i: int| !#[trigger] gap_at(join(p, ':'), i),
{
    assert forall|i: int| 0 <= i < p.len() implies (#[trigger] p[i]).len() > 0 && !p[i].contains(':') by {
        assert(is_group(p[i]));
        lemma_group_value(p[i]);
    }
    lemma_groups_by_value(p, dotted);
    if p.len() > 0 {
        lemma_split_join(p, ':');
        lemma_join_has_no_gap(p);
    } else {
        assert(p.map_values(|s: Seq<char>| value(s, 16)) =~= Seq::empty());
    }
}

/// An IPv6 address is read group by group, however its groups are written: eight of them, or fewer with
/// two colons in place of all the others, which are zero.
pub proof fn law_ipv6_groups_are_read_one_by_one(head: Seq<Seq<char>>, tail: Seq<Seq<char>>)
    requires
        forall|i: int| 0 <= i < head.len() ==> is_group(#[trigger] head[i]),
        forall|i: int| 0 <= i < tail.len() ==> is_group(#[trigger] tail[i]),
    ensures
        ({
            let (h, t) = (head.map_values(|s: Seq<char>| value(s, 16)), tail.map_values(|s: Seq<char>| value(s, 16)));
            let read = parse_v6(join(head, ':') + "::"@ + join(tail, ':'));
            &&& head.len() + tail.len() <= 7 ==> read == Some(
                bits_of(h + Seq::new((8 - head.len() - tail.len()) as nat, |i: int| 0nat) + t) as u128,
            )
            &&& head.len() + tail.len() > 7 ==> read is None
        }),
        head.len() == 8 ==> parse_v6(join(head, ':')) == Some(bits_of(head.map_values(|s: Seq<char>| value(s, 16))) as u128),
        head.len() > 0 && head.len() != 8 ==> parse_v6(join(head, ':')) is None,
{
    lemma_groups_joined(head, false);
    lemma_groups_joined(tail, true);
    lemma_gap(join(head, ':'), join(tail, ':'));
    let (h, t) = (head.map_values(|s: Seq<char>| value(s, 16)), tail.map_values(|s: Seq<char>| value(s, 16)));
    assert(h.len() == head.len() && t.len() == tail.len());
    if head.len() + tail.len() <= 7 {
        assert(zeros((8 - head.len() - tail.len()) as nat) =~= Seq::new((8 - head.len() - tail.len()) as nat, |i: int| 0nat));
    }
    lemma_groups_by_value(head, true);
    let whole = join(head, ':');
    assert(!exists|i: int| is_first_gap(whole, i)) by {
        if exists|i: int| is_first_gap(whole, i) {
            let i = choose|i: int| is_first_gap(whole, i);
            assert(gap_at(whole, i));
        }
    }
}

/// The number of an IPv6 address is made of its groups, sixteen bits each, the first one most significant.
pub proof fn law_groups_make_up_the_number(g: Seq<nat>, last: nat)
    ensures
        bits_of(Seq::empty()) == 0,
        bits_of(g.push(last)) == bits_of(g) * 65536 + last,
{
    assert(g.push(last).drop_last() =~= g);
}

/// What is written of an address is read as that address.
pub proof fn law_a_written_address_is_read(ip: IpAddr, written: String, text: &str, read: Option<IpAddr>)
    requires
        call_ensures(IpAddr::to_string, (&ip,), written),
        text@ == written@,
        call_ensures(IpAddr::parse, (text,), read),
    ensures
        read == Some(ip),
{
    law_ip_text_is_read_back(ip);
}

/// A written socket address is read as that address and port.
pub proof fn law_a_written_socket_address_is_read(ip: IpAddr, port: u16, text: &str, read: Option<SocketAddr>)
    requires
        text@ == socket_text(ip, port),
        call_ensures(SocketAddr::parse, (text,), read),
    ensures
        read == Some(SocketAddr { ip, port, scope_id: 0 }),
{
    law_socket_text_is_read_back(ip, port);
}

} // verus!
