//! Text as sequences of characters: decimal and hexadecimal numbers, building strings.

use vstd::prelude::*;

verus! {

/// [`String::push`] appends the character at the end.
pub assume_specification[ String::push ](s: &mut String, c: char)
    ensures
        final(s)@ == old(s)@.push(c),
;

/// The digit for a value below sixteen, lower case.
pub open spec fn digit(value: nat) -> char {
    if value < 10 { (value + 48) as char } else { (value + 87) as char }
}

/// A number written in a base, without leading zeros.
pub open spec fn numeral(n: nat, base: nat) -> Seq<char>
    decreases n,
{
    if n < base || base < 2 {
        seq![digit(n)]
    } else {
        proof { vstd::arithmetic::div_mod::lemma_div_decreases(n as int, base as int); }
        numeral(n / base, base).push(digit(n % base))
    }
}

pub open spec fn decimal(n: nat) -> Seq<char> {
    numeral(n, 10)
}

pub open spec fn hex(n: nat) -> Seq<char> {
    numeral(n, 16)
}

/// What a character counts for as a digit of a base up to sixteen. Letters may be of either case.
pub open spec fn digit_value(c: char, base: nat) -> Option<nat> {
    let value = if '0' <= c <= '9' {
        c as nat - 48
    } else if 'a' <= c <= 'f' {
        c as nat - 87
    } else if 'A' <= c <= 'F' {
        c as nat - 55
    } else {
        base as int
    };
    if value < base { Some(value as nat) } else { None }
}

/// Nothing but digits.
pub open spec fn all_digits(s: Seq<char>, base: nat) -> bool {
    forall|i: int| 0 <= i < s.len() ==> digit_value(#[trigger] s[i], base) is Some
}

/// The number that a sequence of digits stands for.
pub open spec fn value(s: Seq<char>, base: nat) -> nat
    decreases s.len(),
{
    if s.len() == 0 {
        0
    } else {
        value(s.drop_last(), base) * base + digit_value(s.last(), base)->0
    }
}

/// Reading a written number gives it back.
pub proof fn lemma_numeral(n: nat, base: nat)
    requires
        2 <= base <= 16,
    ensures
        value(numeral(n, base), base) == n,
        all_digits(numeral(n, base), base),
        numeral(n, base).len() > 0,
        numeral(n, base)[0] == '0' ==> n == 0 && numeral(n, base).len() == 1,
    decreases n,
{
    let s = numeral(n, base);
    if n < base {
        reveal_with_fuel(value, 2);
        assert(digit_value(digit(n), base) == Some(n));
        assert(s.drop_last() =~= Seq::empty());
        assert(0 * base == 0) by (nonlinear_arith);
    } else {
        let (q, r) = (n / base, n % base);
        vstd::arithmetic::div_mod::lemma_div_decreases(n as int, base as int);
        vstd::arithmetic::div_mod::lemma_fundamental_div_mod(n as int, base as int);
        vstd::arithmetic::div_mod::lemma_mod_bound(n as int, base as int);
        assert(q > 0) by {
            if q == 0 {
                assert(base * q == 0) by (nonlinear_arith)
                    requires
                        q == 0,
                ;
            }
        }
        lemma_numeral(q, base);
        let front = numeral(q, base);
        assert(s == front.push(digit(r)));
        assert(s.drop_last() =~= front);
        assert(digit_value(digit(r), base) == Some(r));
        assert(q * base == base * q) by (nonlinear_arith);
        assert(s[0] == front[0]);
    }
}

/// Different numbers are written differently.
pub proof fn lemma_numeral_injective(a: nat, b: nat, base: nat)
    requires
        2 <= base <= 16,
        numeral(a, base) == numeral(b, base),
    ensures
        a == b,
{
    lemma_numeral(a, base);
    lemma_numeral(b, base);
}

fn digit_char(value: u8) -> (c: char)
    requires
        value < 16,
    ensures
        c == digit(value as nat),
{
    if value < 10 {
        (value + 48) as char
    } else {
        (value + 87) as char
    }
}

/// Append a number.
fn push_numeral(s: &mut String, n: u128, base: u8)
    requires
        2 <= base <= 16,
    ensures
        final(s)@ == old(s)@ + numeral(n as nat, base as nat),
    decreases n,
{
    let b: u128 = base as u128;
    if n < b {
        s.push(digit_char(n as u8));
    } else {
        proof { vstd::arithmetic::div_mod::lemma_div_decreases(n as int, b as int); }
        push_numeral(s, n / b, base);
        s.push(digit_char((n % b) as u8));
    }
    assert(s@ =~= old(s)@ + numeral(n as nat, base as nat));
}

pub fn push_decimal(s: &mut String, n: u128)
    ensures
        final(s)@ == old(s)@ + decimal(n as nat),
{
    push_numeral(s, n, 10);
}

pub fn push_hex(s: &mut String, n: u128)
    ensures
        final(s)@ == old(s)@ + hex(n as nat),
{
    push_numeral(s, n, 16);
}

/// Append a string.
pub fn push_text(s: &mut String, t: &str)
    ensures
        final(s)@ == old(s)@ + t@,
{
    s.append(t);
}

/// The characters of a string.
pub fn chars_of(s: &str) -> (chars: Vec<char>)
    ensures
        chars@ == s@,
{
    let mut chars: Vec<char> = Vec::new();
    for c in it: s.chars()
        invariant
            chars@ == it.seq().take(it.index()),
    {
        chars.push(c);
        assert(it.seq().take(it.index() + 1) =~= it.seq().take(it.index()).push(c));
    }
    assert(chars@ =~= s@);
    chars
}

/// The string of these characters.
pub fn string_of(chars: &[char]) -> (s: String)
    ensures
        s@ == chars@,
{
    let mut s = String::new();
    let mut i: usize = 0;
    while i < chars.len()
        invariant
            i <= chars@.len(),
            s@ == chars@.take(i as int),
        decreases chars@.len() - i,
    {
        s.push(chars[i]);
        i += 1;
        assert(s@ =~= chars@.take(i as int));
    }
    assert(s@ =~= chars@);
    s
}

/// Two strings hold the same characters.
pub fn same_text(a: &str, b: &str) -> (same: bool)
    ensures
        same == (a@ == b@),
{
    a.to_owned() == b.to_owned()
}

/// The pieces between the separators, empty ones included.
pub open spec fn split(s: Seq<char>, sep: char) -> Seq<Seq<char>>
    decreases s.len(),
{
    if s.len() == 0 {
        seq![Seq::empty()]
    } else {
        let front = split(s.drop_last(), sep);
        if s.last() == sep {
            front.push(Seq::empty())
        } else {
            front.update(front.len() - 1, front.last().push(s.last()))
        }
    }
}

/// The pieces with a separator between each two.
pub open spec fn join(pieces: Seq<Seq<char>>, sep: char) -> Seq<char>
    decreases pieces.len(),
{
    if pieces.len() == 0 {
        Seq::empty()
    } else if pieces.len() == 1 {
        pieces[0]
    } else {
        join(pieces.drop_last(), sep).push(sep) + pieces.last()
    }
}

proof fn lemma_split_len(s: Seq<char>, sep: char)
    ensures
        split(s, sep).len() > 0,
    decreases s.len(),
{
    if s.len() > 0 {
        lemma_split_len(s.drop_last(), sep);
    }
}

/// A piece without separator behind a separator is the last one.
pub proof fn lemma_split_last(s: Seq<char>, piece: Seq<char>, sep: char)
    requires
        !piece.contains(sep),
    ensures
        split(s.push(sep) + piece, sep) == split(s, sep).push(piece),
    decreases piece.len(),
{
    let all = s.push(sep) + piece;
    if piece.len() == 0 {
        assert(piece =~= Seq::empty());
        assert(all =~= s.push(sep));
        assert(all.drop_last() =~= s);
        assert(split(all, sep) =~= split(s, sep).push(piece));
    } else {
        let front = piece.drop_last();
        assert(!front.contains(sep)) by {
            if front.contains(sep) {
                assert(piece[front.index_of(sep)] == sep);
            }
        }
        lemma_split_last(s, front, sep);
        assert(all.drop_last() =~= s.push(sep) + front);
        assert(all.last() == piece.last());
        assert(piece.contains(piece.last()));
        assert(front.push(piece.last()) =~= piece);
        assert(split(all, sep) =~= split(s, sep).push(piece));
    }
}

/// Text without separator is one piece.
pub proof fn lemma_split_whole(s: Seq<char>, sep: char)
    requires
        !s.contains(sep),
    ensures
        split(s, sep) == seq![s],
    decreases s.len(),
{
    if s.len() > 0 {
        let front = s.drop_last();
        assert(!front.contains(sep)) by {
            if front.contains(sep) {
                assert(s[front.index_of(sep)] == sep);
            }
        }
        lemma_split_whole(front, sep);
        assert(s.contains(s.last()));
        assert(front.push(s.last()) =~= s);
        assert(split(s, sep) =~= seq![s]);
    } else {
        assert(s =~= Seq::empty());
    }
}

/// Splitting what was joined gives the pieces back.
pub proof fn lemma_split_join(pieces: Seq<Seq<char>>, sep: char)
    requires
        pieces.len() > 0,
        forall|i: int| 0 <= i < pieces.len() ==> !(#[trigger] pieces[i]).contains(sep),
    ensures
        split(join(pieces, sep), sep) == pieces,
    decreases pieces.len(),
{
    if pieces.len() == 1 {
        assert(!pieces[0].contains(sep));
        lemma_split_whole(pieces[0], sep);
        assert(pieces =~= seq![pieces[0]]);
    } else {
        let front = pieces.drop_last();
        assert forall|i: int| 0 <= i < front.len() implies !(#[trigger] front[i]).contains(sep) by {
            assert(!pieces[i].contains(sep));
        }
        lemma_split_join(front, sep);
        assert(!pieces[pieces.len() - 1].contains(sep));
        lemma_split_last(join(front, sep), pieces.last(), sep);
        assert(front.push(pieces.last()) =~= pieces);
    }
}

/// The pieces of a text, as texts.
pub open spec fn pieces_view(pieces: Seq<Vec<char>>) -> Seq<Seq<char>> {
    pieces.map_values(|p: Vec<char>| p@)
}

/// Split a text at every separator.
pub fn split_at_each(s: &[char], sep: char) -> (pieces: Vec<Vec<char>>)
    ensures
        pieces_view(pieces@) == split(s@, sep),
        pieces@.len() > 0,
{
    let mut pieces: Vec<Vec<char>> = Vec::new();
    let mut piece: Vec<char> = Vec::new();
    let mut i: usize = 0;
    assert(split(s@.take(0), sep) =~= pieces_view(pieces@).push(piece@));
    while i < s.len()
        invariant
            i <= s@.len(),
            split(s@.take(i as int), sep) == pieces_view(pieces@).push(piece@),
        decreases s@.len() - i,
    {
        let ghost before = split(s@.take(i as int), sep);
        assert(s@.take(i + 1).drop_last() =~= s@.take(i as int));
        assert(s@.take(i + 1).last() == s@[i as int]);
        if s[i] == sep {
            pieces.push(piece);
            piece = Vec::new();
            assert(pieces_view(pieces@).push(piece@) =~= before.push(Seq::empty()));
        } else {
            piece.push(s[i]);
            assert(pieces_view(pieces@).push(piece@) =~= before.update(before.len() - 1, before.last().push(s@[i as int])));
        }
        i += 1;
    }
    assert(s@.take(i as int) =~= s@);
    let ghost found = pieces_view(pieces@).push(piece@);
    pieces.push(piece);
    assert(pieces_view(pieces@) =~= found);
    pieces
}

/// The number a text stands for: digits only, at least one, and no more than `max`.
pub open spec fn number(s: Seq<char>, base: nat, max: nat) -> Option<nat> {
    if s.len() > 0 && all_digits(s, base) && value(s, base) <= max { Some(value(s, base)) } else { None }
}

proof fn lemma_value_monotone(s: Seq<char>, base: nat, i: int)
    requires
        0 <= i <= s.len(),
        base >= 1,
        all_digits(s, base),
    ensures
        value(s.take(i), base) <= value(s, base),
    decreases s.len(),
{
    if i < s.len() {
        let front = s.drop_last();
        assert(all_digits(front, base));
        lemma_value_monotone(front, base, i);
        assert(front.take(i) =~= s.take(i));
        let v = value(front, base);
        assert(v * base >= v) by (nonlinear_arith)
            requires
                base >= 1,
        ;
    } else {
        assert(s.take(i) =~= s);
    }
}

fn char_value(c: char, base: u8) -> (v: Option<u8>)
    requires
        2 <= base <= 16,
    ensures
        match v {
            Some(d) => digit_value(c, base as nat) == Some(d as nat),
            None => digit_value(c, base as nat) is None,
        },
{
    let code: u32 = c as u32;
    let v: u32 = if 48 <= code && code <= 57 {
        code - 48
    } else if 97 <= code && code <= 102 {
        code - 87
    } else if 65 <= code && code <= 70 {
        code - 55
    } else {
        base as u32
    };
    if v < base as u32 {
        Some(v as u8)
    } else {
        None
    }
}

/// Read a number.
pub fn read_number(s: &[char], base: u8, max: u64) -> (n: Option<u64>)
    requires
        2 <= base <= 16,
    ensures
        match n {
            Some(v) => number(s@, base as nat, max as nat) == Some(v as nat),
            None => number(s@, base as nat, max as nat) is None,
        },
{
    if s.len() == 0 {
        return None;
    }
    let mut total: u64 = 0;
    let mut i: usize = 0;
    while i < s.len()
        invariant
            i <= s@.len(),
            2 <= base <= 16,
            total <= max,
            total == value(s@.take(i as int), base as nat),
            forall|j: int| 0 <= j < i ==> digit_value(#[trigger] s@[j], base as nat) is Some,
        decreases s@.len() - i,
    {
        let ghost upto = s@.take(i + 1);
        proof {
            assert(upto.drop_last() =~= s@.take(i as int));
            assert(upto.last() == s@[i as int]);
        }
        match char_value(s[i], base) {
            Some(d) => {
                proof {
                    assert(total * base <= 0x1_0000_0000_0000_0000 * 16) by (nonlinear_arith)
                        requires
                            total <= 0xffff_ffff_ffff_ffff,
                            base <= 16,
                    ;
                }
                let next: u128 = (total as u128) * (base as u128) + (d as u128);
                if next > max as u128 {
                    proof {
                        if all_digits(s@, base as nat) {
                            lemma_value_monotone(s@, base as nat, i + 1);
                        }
                    }
                    return None;
                }
                total = next as u64;
            },
            None => {
                return None;
            },
        }
        i += 1;
    }
    assert(s@.take(i as int) =~= s@);
    Some(total)
}

} // verus!
