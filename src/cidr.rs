use vstd::prelude::*;

use crate::tree::{block, lemma_block_bounds, lemma_block_le};

verus! {

/// Why a text is not a prefix in the form `a.b.c.d/n`.
#[derive(Debug, PartialEq, Eq, Structural)]
pub enum ParseError {
    /// Not exactly one `/`, or a prefix length that is not a number from 0 to 32.
    Length,
    /// The address does not have exactly four groups separated by `.`.
    Grouping,
    /// A group is not a number from 0 to 255.
    Octet,
}

/// The pieces of `s` between the occurrences of `sep`; there is always at least one.
pub open spec fn split(s: Seq<char>, sep: char) -> Seq<Seq<char>>
    decreases s.len(),
{
    if s.len() == 0 {
        seq![Seq::empty()]
    } else {
        let rest = split(s.drop_last(), sep);
        if s.last() == sep {
            rest.push(Seq::empty())
        } else {
            rest.update(rest.len() - 1, rest.last().push(s.last()))
        }
    }
}

pub open spec fn is_digit(c: char) -> bool {
    '0' <= c <= '9'
}

/// The value of a string of decimal digits.
pub open spec fn digits_value(s: Seq<char>) -> nat
    decreases s.len(),
{
    if s.len() == 0 {
        0
    } else {
        digits_value(s.drop_last()) * 10 + ((s.last() as u32 - '0' as u32) as nat)
    }
}

/// `s` is a non-empty string of decimal digits whose value is at most `max`.
pub open spec fn number(s: Seq<char>, max: nat) -> Option<nat> {
    if s.len() > 0 && (forall|i: int| 0 <= i < s.len() ==> is_digit(#[trigger] s[i]))
        && digits_value(s) <= max {
        Some(digits_value(s))
    } else {
        None
    }
}

/// The eight bits of `v`, most significant first.
pub open spec fn octet_bits(v: nat) -> Seq<bool> {
    Seq::new(8, |i: int| (v / block((7 - i) as nat)) % 2 == 1)
}

/// Every group is a number from 0 to 255.
pub open spec fn valid_groups(g: Seq<Seq<char>>) -> bool {
    forall|i: int| 0 <= i < g.len() ==> (#[trigger] number(g[i], 255)) is Some
}

/// The bits of the octets of valid groups, one after the other.
pub open spec fn groups_bits(g: Seq<Seq<char>>) -> Seq<bool>
    decreases g.len(),
{
    if g.len() == 0 {
        Seq::empty()
    } else {
        groups_bits(g.drop_last()) + octet_bits(number(g.last(), 255).unwrap())
    }
}

/// The 32 bits of a dotted-quad address `a.b.c.d`.
pub open spec fn address_bits(s: Seq<char>) -> Result<Seq<bool>, ParseError> {
    let g = split(s, '.');
    if g.len() != 4 {
        Err(ParseError::Grouping)
    } else if !valid_groups(g) {
        Err(ParseError::Octet)
    } else {
        Ok(groups_bits(g))
    }
}

/// The prefix that a text `a.b.c.d/n` names: the first `n` bits of the address.
pub open spec fn parse_text(s: Seq<char>) -> Result<Seq<bool>, ParseError> {
    let f = split(s, '/');
    if f.len() != 2 || number(f[1], 32) is None {
        Err(ParseError::Length)
    } else {
        match address_bits(f[0]) {
            Ok(b) => Ok(b.take(number(f[1], 32).unwrap() as int)),
            Err(e) => Err(e),
        }
    }
}

/// `s` does not hold `sep`.
pub open spec fn free_of(s: Seq<char>, sep: char) -> bool {
    forall|i: int| 0 <= i < s.len() ==> #[trigger] s[i] != sep
}

proof fn lemma_split_free_tail(x: Seq<char>, y: Seq<char>, sep: char)
    requires
        free_of(y, sep),
    ensures
        split(x + y, sep) == split(x, sep).update(
            split(x, sep).len() - 1,
            split(x, sep).last() + y,
        ),
        split(x + y, sep).len() == split(x, sep).len(),
    decreases y.len(),
{
    lemma_split_nonempty(x, sep);
    if y.len() == 0 {
        assert(x + y =~= x);
        assert(split(x, sep).last() + y =~= split(x, sep).last());
        assert(split(x, sep).update(split(x, sep).len() - 1, split(x, sep).last()) =~= split(
            x,
            sep,
        ));
    } else {
        let y0 = y.drop_last();
        assert(free_of(y0, sep)) by {
            assert forall|i: int| 0 <= i < y0.len() implies #[trigger] y0[i] != sep by {
                assert(y0[i] == y[i]);
            }
        }
        lemma_split_free_tail(x, y0, sep);
        assert((x + y).drop_last() =~= x + y0);
        assert((x + y).last() == y.last());
        assert(y.last() != sep);
        let a = split(x, sep);
        let rest = split(x + y0, sep);
        assert(split(x + y, sep) == rest.update(rest.len() - 1, rest.last().push(y.last())));
        assert(rest.last() == a.last() + y0);
        assert(rest.last().push(y.last()) =~= a.last() + y);
        assert(rest.update(rest.len() - 1, rest.last().push(y.last())) =~= a.update(
            a.len() - 1,
            a.last() + y,
        ));
    }
}

proof fn lemma_split_nonempty(x: Seq<char>, sep: char)
    ensures
        split(x, sep).len() >= 1,
    decreases x.len(),
{
    if x.len() > 0 {
        lemma_split_nonempty(x.drop_last(), sep);
    }
}

/// Splitting `x`, a separator and a piece `y` free of it adds `y` as one more piece.
proof fn lemma_split_sep(x: Seq<char>, y: Seq<char>, sep: char)
    requires
        free_of(y, sep),
    ensures
        split(x + seq![sep] + y, sep) == split(x, sep).push(y),
{
    let xs = x + seq![sep];
    assert(xs.drop_last() =~= x);
    lemma_split_free_tail(xs, y, sep);
    assert(split(xs, sep).last() + y =~= y);
    assert(split(xs, sep).update(split(xs, sep).len() - 1, y) =~= split(x, sep).push(y));
}

proof fn lemma_split_single(y: Seq<char>, sep: char)
    requires
        free_of(y, sep),
    ensures
        split(y, sep) == seq![y],
{
    lemma_split_free_tail(Seq::empty(), y, sep);
    assert(Seq::<char>::empty() + y =~= y);
    assert(split(Seq::empty(), sep).update(0, Seq::<char>::empty() + y) =~= seq![y]);
}

/// A decimal numeral is a non-empty string of digits with the value it renders.
proof fn lemma_decimal(n: nat)
    ensures
        decimal(n).len() >= 1,
        forall|i: int| 0 <= i < decimal(n).len() ==> is_digit(#[trigger] decimal(n)[i]),
        digits_value(decimal(n)) == n,
    decreases n,
{
    lemma_digit_char((n % 10) as nat);
    if n < 10 {
        assert(decimal(n).drop_last() =~= Seq::<char>::empty());
        assert(decimal(n).last() == digit_char(n));
        assert(digits_value(decimal(n)) == digits_value(Seq::<char>::empty()) * 10 + (digit_char(
            n,
        ) as u32 - '0' as u32) as nat);
    } else {
        lemma_decimal(n / 10);
        let d = decimal(n);
        assert(d.drop_last() =~= decimal(n / 10));
        assert forall|i: int| 0 <= i < d.len() implies is_digit(#[trigger] d[i]) by {
            if i < d.len() - 1 {
                assert(d[i] == decimal(n / 10)[i]);
            }
        }
        assert(d.last() == digit_char((n % 10) as nat));
        assert(digits_value(d) == digits_value(decimal(n / 10)) * 10 + (digit_char(
            (n % 10) as nat,
        ) as u32 - '0' as u32) as nat);
    }
}

proof fn lemma_digit_char(k: nat)
    requires
        k < 10,
    ensures
        is_digit(digit_char(k)),
        (digit_char(k) as u32 - '0' as u32) as nat == k,
{
}

proof fn lemma_decimal_number(n: nat, max: nat)
    requires
        n <= max,
    ensures
        number(decimal(n), max) == Some(n),
        free_of(decimal(n), '.'),
        free_of(decimal(n), '/'),
{
    lemma_decimal(n);
}

proof fn lemma_bits_value_bound(s: Seq<bool>)
    ensures
        bits_value(s) < block(s.len()),
    decreases s.len(),
{
    if s.len() > 0 {
        lemma_bits_value_bound(s.drop_last());
    }
}

/// The bits of a number are read back from it.
proof fn lemma_bits_value_bit(s: Seq<bool>, i: int)
    requires
        0 <= i < s.len(),
    ensures
        (bits_value(s) / block((s.len() - 1 - i) as nat)) % 2 == 1 <==> s[i],
    decreases s.len(),
{
    let n = s.len();
    let s0 = s.drop_last();
    let v0 = bits_value(s0);
    let e: nat = if s.last() {
        1
    } else {
        0
    };
    assert(bits_value(s) == 2 * v0 + e);
    if i == n - 1 {
        assert(block(0) == 1);
        assert((2 * v0 + e) / 1 == 2 * v0 + e);
        assert((2 * v0 + e) % 2 == e);
    } else {
        lemma_bits_value_bit(s0, i);
        let m = block((n - 2 - i) as nat);
        lemma_block_bounds_any((n - 2 - i) as nat);
        assert(block((n - 1 - i) as nat) == 2 * m);
        assert((2 * v0 + e) / (2 * m) == v0 / m) by {
            vstd::arithmetic::div_mod::lemma_div_denominator((2 * v0 + e) as int, 2, m as int);
            assert((2 * v0 + e) / 2 == v0);
        }
        assert(bits_value(s) / block((n - 1 - i) as nat) == v0 / m);
        assert(s0[i] == s[i]);
    }
}

proof fn lemma_block_bounds_any(k: nat)
    ensures
        block(k) >= 1,
    decreases k,
{
    if k > 0 {
        lemma_block_bounds_any((k - 1) as nat);
    }
}

proof fn lemma_octet_round_trip(s: Seq<bool>)
    requires
        s.len() == 8,
    ensures
        octet_bits(bits_value(s)) == s,
        bits_value(s) <= 255,
{
    lemma_bits_value_bound(s);
    reveal_with_fuel(block, 9);
    assert forall|i: int| 0 <= i < 8 implies #[trigger] octet_bits(bits_value(s))[i] == s[i] by {
        lemma_bits_value_bit(s, i);
    }
    assert(octet_bits(bits_value(s)) =~= s);
}

/// Round trip: reading the canonical text of a prefix gives the prefix back.
/// Hence the canonical text of what a text reads to is stable: rendering
/// and reading it again yields the same text.
pub proof fn lemma_canonical_round_trip(b: Seq<bool>)
    requires
        b.len() <= 32,
    ensures
        parse_text(canonical_text(b)) == Ok::<Seq<bool>, ParseError>(b),
{
    let p = padded(b);
    let d0 = decimal(group_value(b, 0));
    let d1 = decimal(group_value(b, 1));
    let d2 = decimal(group_value(b, 2));
    let d3 = decimal(group_value(b, 3));
    let dl = decimal(b.len());
    assert forall|k: int| 0 <= k < 4 implies octet_bits(#[trigger] group_value(b, k)) == p.subrange(
        8 * k,
        8 * k + 8,
    ) && group_value(b, k) <= 255 by {
        lemma_octet_round_trip(p.subrange(8 * k, 8 * k + 8));
    }
    lemma_decimal_number(group_value(b, 0), 255);
    lemma_decimal_number(group_value(b, 1), 255);
    lemma_decimal_number(group_value(b, 2), 255);
    lemma_decimal_number(group_value(b, 3), 255);
    lemma_decimal_number(b.len(), 32);
    let addr = d0 + seq!['.'] + d1 + seq!['.'] + d2 + seq!['.'] + d3;
    assert(canonical_text(b) == addr + seq!['/'] + dl);
    assert(free_of(addr, '/')) by {
        assert forall|i: int| 0 <= i < addr.len() implies #[trigger] addr[i] != '/' by {
            if i < d0.len() {
                assert(addr[i] == d0[i]);
            } else if i == d0.len() {
            } else if i < d0.len() + 1 + d1.len() {
                assert(addr[i] == d1[i - d0.len() - 1]);
            } else if i == d0.len() + 1 + d1.len() {
            } else if i < d0.len() + 2 + d1.len() + d2.len() {
                assert(addr[i] == d2[i - d0.len() - 2 - d1.len()]);
            } else if i == d0.len() + 2 + d1.len() + d2.len() {
            } else {
                assert(addr[i] == d3[i - d0.len() - 3 - d1.len() - d2.len()]);
            }
        }
    }
    lemma_split_single(addr, '/');
    lemma_split_sep(addr, dl, '/');
    lemma_split_single(d0, '.');
    lemma_split_sep(d0, d1, '.');
    lemma_split_sep(d0 + seq!['.'] + d1, d2, '.');
    lemma_split_sep(d0 + seq!['.'] + d1 + seq!['.'] + d2, d3, '.');
    let g = split(addr, '.');
    assert(g == seq![d0, d1, d2, d3]);
    assert(valid_groups(g));
    assert(g.drop_last().drop_last().drop_last().drop_last() =~= Seq::<Seq<char>>::empty());
    assert(groups_bits(g) =~= p) by {
        assert(octet_bits(group_value(b, 0)) == p.subrange(0, 8));
        assert(octet_bits(group_value(b, 1)) == p.subrange(8, 16));
        assert(octet_bits(group_value(b, 2)) == p.subrange(16, 24));
        assert(octet_bits(group_value(b, 3)) == p.subrange(24, 32));
        let g1 = seq![d0];
        let g2 = seq![d0, d1];
        let g3 = seq![d0, d1, d2];
        assert(g1.drop_last() =~= Seq::<Seq<char>>::empty());
        assert(g2.drop_last() =~= g1);
        assert(g3.drop_last() =~= g2);
        assert(g.drop_last() =~= g3);
        assert(g1.last() == d0);
        assert(g2.last() == d1);
        assert(g3.last() == d2);
        assert(g.last() == d3);
        assert(groups_bits(Seq::<Seq<char>>::empty()) == Seq::<bool>::empty());
        assert(groups_bits(g1) == groups_bits(g1.drop_last()) + octet_bits(
            number(d0, 255).unwrap(),
        ));
        assert(groups_bits(g1) =~= p.subrange(0, 8));
        assert(groups_bits(g2) =~= p.subrange(0, 8) + p.subrange(8, 16));
        assert(groups_bits(g3) =~= p.subrange(0, 8) + p.subrange(8, 16) + p.subrange(16, 24));
        assert(p =~= p.subrange(0, 8) + p.subrange(8, 16) + p.subrange(16, 24) + p.subrange(
            24,
            32,
        ));
    }
    assert(p.take(b.len() as int) =~= b);
}

proof fn lemma_groups_bits_len(g: Seq<Seq<char>>)
    ensures
        groups_bits(g).len() == 8 * g.len(),
    decreases g.len(),
{
    if g.len() > 0 {
        lemma_groups_bits_len(g.drop_last());
    }
}

/// Canonical form: whatever text reads to a prefix `b`, rendering `b` and
/// reading it again gives `b` back, so a second rendering changes nothing.
pub proof fn lemma_canonical_stable(s: Seq<char>)
    requires
        parse_text(s) is Ok,
    ensures
        parse_text(s)->Ok_0.len() <= 32,
        parse_text(canonical_text(parse_text(s)->Ok_0)) == parse_text(s),
        canonical_text(parse_text(canonical_text(parse_text(s)->Ok_0))->Ok_0) == canonical_text(
            parse_text(s)->Ok_0,
        ),
{
    let f = split(s, '/');
    lemma_groups_bits_len(split(f[0], '.'));
    let b = parse_text(s)->Ok_0;
    lemma_canonical_round_trip(b);
}

/// The characters of a string, in order.
fn chars_of(s: &str) -> (r: Vec<char>)
    ensures
        r@ == s@,
{
    let n = s.unicode_len();
    let mut r: Vec<char> = Vec::new();
    let mut i: usize = 0;
    while i < n
        invariant
            n == s@.len(),
            i <= n,
            r@ == s@.take(i as int),
        decreases n - i,
    {
        r.push(s.get_char(i));
        i = i + 1;
        assert(r@ =~= s@.take(i as int));
    }
    assert(r@ =~= s@);
    r
}

pub open spec fn views(v: Seq<Vec<char>>) -> Seq<Seq<char>> {
    v.map_values(|x: Vec<char>| x@)
}

/// Splits `s` at each `sep`.
fn split_chars(s: &Vec<char>, sep: char) -> (r: Vec<Vec<char>>)
    ensures
        views(r@) == split(s@, sep),
{
    let mut done: Vec<Vec<char>> = Vec::new();
    let mut cur: Vec<char> = Vec::new();
    let mut i: usize = 0;
    assert(s@.take(0) =~= Seq::<char>::empty());
    assert(views(done@).push(cur@) =~= split(s@.take(0), sep));
    while i < s.len()
        invariant
            i <= s@.len(),
            views(done@).push(cur@) == split(s@.take(i as int), sep),
        decreases s@.len() - i,
    {
        let c = s[i];
        let ghost before = views(done@).push(cur@);
        assert(s@.take(i + 1).drop_last() =~= s@.take(i as int));
        if c == sep {
            done.push(cur);
            cur = Vec::new();
            assert(views(done@) =~= before);
            assert(views(done@).push(cur@) =~= before.push(Seq::empty()));
        } else {
            cur.push(c);
            assert(views(done@).push(cur@) =~= before.update(
                before.len() - 1,
                before.last().push(c),
            ));
        }
        i = i + 1;
    }
    assert(s@.take(s@.len() as int) =~= s@);
    let ghost before = views(done@).push(cur@);
    done.push(cur);
    assert(views(done@) =~= before);
    done
}

proof fn lemma_digits_grow(s: Seq<char>, i: int)
    requires
        0 <= i <= s.len(),
    ensures
        digits_value(s.take(i)) <= digits_value(s),
    decreases s.len() - i,
{
    if i < s.len() {
        lemma_digits_grow(s, i + 1);
        assert(s.take(i + 1).drop_last() =~= s.take(i));
        let v = digits_value(s.take(i));
        assert(v * 10 >= v) by (nonlinear_arith);
        assert(digits_value(s.take(i + 1)) >= v);
    } else {
        assert(s.take(i) =~= s);
    }
}

/// Reads a decimal number of at most `max`.
fn parse_number(s: &Vec<char>, max: u32) -> (r: Option<u32>)
    requires
        max <= 255,
    ensures
        match r {
            Some(v) => number(s@, max as nat) == Some(v as nat),
            None => number(s@, max as nat) is None,
        },
{
    if s.len() == 0 {
        return None;
    }
    let mut v: u32 = 0;
    let mut i: usize = 0;
    assert(s@.take(0) =~= Seq::<char>::empty());
    while i < s.len()
        invariant
            i <= s@.len(),
            max <= 255,
            v <= max,
            v == digits_value(s@.take(i as int)),
            forall|j: int| 0 <= j < i ==> is_digit(#[trigger] s@[j]),
        decreases s@.len() - i,
    {
        let c = s[i];
        if !('0' <= c && c <= '9') {
            return None;
        }
        assert(s@.take(i + 1).drop_last() =~= s@.take(i as int));
        let d: u32 = c as u32 - '0' as u32;
        v = v * 10 + d;
        i = i + 1;
        if v > max {
            proof {
                lemma_digits_grow(s@, i as int);
            }
            return None;
        }
    }
    assert(s@.take(s@.len() as int) =~= s@);
    Some(v)
}

/// Appends the eight bits of `v`, most significant first.
fn push_octet(bits: &mut Vec<bool>, v: u32)
    requires
        v <= 255,
    ensures
        final(bits)@ == old(bits)@ + octet_bits(v as nat),
{
    let ghost start = bits@;
    let mut p: u32 = 128;
    let mut i: usize = 0;
    proof {
        reveal_with_fuel(block, 8);
    }
    while i < 8
        invariant
            i <= 8,
            p == block((7 - i) as nat) || (i == 8 && p == 0),
            bits@ == start + octet_bits(v as nat).take(i as int),
        decreases 8 - i,
    {
        proof {
            lemma_block_bounds((7 - i) as nat);
        }
        bits.push((v / p) % 2 == 1);
        proof {
            if i < 7 {
                assert(block((7 - i) as nat) == 2 * block((7 - i - 1) as nat));
            }
        }
        p = p / 2;
        i = i + 1;
        assert(bits@ =~= start + octet_bits(v as nat).take(i as int));
    }
    assert(octet_bits(v as nat).take(8) =~= octet_bits(v as nat));
}

/// The first `size` bits (at most 32) of the dotted-quad address in `text`.
fn address_prefix(text: &Vec<char>, size: usize) -> (r: Result<Vec<bool>, ParseError>)
    ensures
        match r {
            Ok(v) => {
                &&& address_bits(text@) is Ok
                &&& v@ == address_bits(text@)->Ok_0.take(
                    if size < 32 {
                        size as int
                    } else {
                        32
                    },
                )
                &&& v@.len() == if size < 32 {
                    size as int
                } else {
                    32
                }
            },
            Err(e) => address_bits(text@) == Err::<Seq<bool>, ParseError>(e),
        },
{
    let groups = split_chars(text, '.');
    if groups.len() != 4 {
        return Err(ParseError::Grouping);
    }
    let ghost g = views(groups@);
    let mut all: Vec<bool> = Vec::new();
    let mut k: usize = 0;
    assert(g.take(0) =~= Seq::<Seq<char>>::empty());
    while k < 4
        invariant
            groups@.len() == 4,
            g == views(groups@),
            g == split(text@, '.'),
            k <= 4,
            valid_groups(g.take(k as int)),
            all@ == groups_bits(g.take(k as int)),
            all@.len() == 8 * k,
        decreases 4 - k,
    {
        assert(g[k as int] == groups[k as int]@);
        match parse_number(&groups[k], 255) {
            Some(v) => push_octet(&mut all, v),
            None => {
                assert(number(g[k as int], 255) is None);
                return Err(ParseError::Octet);
            },
        }
        assert(g.take(k + 1).drop_last() =~= g.take(k as int));
        assert(valid_groups(g.take(k + 1))) by {
            assert forall|i: int| 0 <= i < k + 1 implies (#[trigger] number(
                g.take(k + 1)[i],
                255,
            )) is Some by {
                if i < k {
                    assert(g.take(k + 1)[i] == g.take(k as int)[i]);
                }
            }
        }
        k = k + 1;
    }
    assert(g.take(4) =~= g);
    let n: usize = if size < 32 {
        size
    } else {
        32
    };
    let mut r: Vec<bool> = Vec::new();
    let mut i: usize = 0;
    while i < n
        invariant
            n <= 32,
            all@.len() == 32,
            i <= n,
            r@ == all@.take(i as int),
        decreases n - i,
    {
        r.push(all[i]);
        i = i + 1;
        assert(r@ =~= all@.take(i as int));
    }
    Ok(r)
}

/// The value of bits read as a binary number, most significant first.
pub open spec fn bits_value(b: Seq<bool>) -> nat
    decreases b.len(),
{
    if b.len() == 0 {
        0
    } else {
        2 * bits_value(b.drop_last()) + if b.last() {
            1nat
        } else {
            0nat
        }
    }
}

/// The 32 bits of a prefix's network address: the bits past its length are 0.
pub open spec fn padded(b: Seq<bool>) -> Seq<bool> {
    b + Seq::new((32 - b.len()) as nat, |i: int| false)
}

/// Octet `k` (0 to 3) of a prefix's network address.
pub open spec fn group_value(b: Seq<bool>, k: int) -> nat {
    bits_value(padded(b).subrange(8 * k, 8 * k + 8))
}

pub open spec fn digit_char(d: nat) -> char {
    if d == 0 {
        '0'
    } else if d == 1 {
        '1'
    } else if d == 2 {
        '2'
    } else if d == 3 {
        '3'
    } else if d == 4 {
        '4'
    } else if d == 5 {
        '5'
    } else if d == 6 {
        '6'
    } else if d == 7 {
        '7'
    } else if d == 8 {
        '8'
    } else {
        '9'
    }
}

/// `n` in decimal, without leading zeros.
pub open spec fn decimal(n: nat) -> Seq<char>
    decreases n,
{
    if n < 10 {
        seq![digit_char(n)]
    } else {
        decimal(n / 10).push(digit_char(n % 10))
    }
}

/// The canonical text `a.b.c.d/n` of a prefix.
pub open spec fn canonical_text(b: Seq<bool>) -> Seq<char> {
    decimal(group_value(b, 0)) + seq!['.'] + decimal(group_value(b, 1)) + seq!['.'] + decimal(
        group_value(b, 2),
    ) + seq!['.'] + decimal(group_value(b, 3)) + seq!['/'] + decimal(b.len())
}

fn push_digit(s: &mut String, d: u32)
    requires
        d < 10,
    ensures
        final(s)@ == old(s)@.push(digit_char(d as nat)),
{
    proof {
        reveal_strlit("0");
        reveal_strlit("1");
        reveal_strlit("2");
        reveal_strlit("3");
        reveal_strlit("4");
        reveal_strlit("5");
        reveal_strlit("6");
        reveal_strlit("7");
        reveal_strlit("8");
        reveal_strlit("9");
    }
    let t = if d == 0 {
        "0"
    } else if d == 1 {
        "1"
    } else if d == 2 {
        "2"
    } else if d == 3 {
        "3"
    } else if d == 4 {
        "4"
    } else if d == 5 {
        "5"
    } else if d == 6 {
        "6"
    } else if d == 7 {
        "7"
    } else if d == 8 {
        "8"
    } else {
        "9"
    };
    assert(t@ =~= seq![digit_char(d as nat)]);
    s.append(t);
}

fn push_decimal(s: &mut String, n: u32)
    ensures
        final(s)@ == old(s)@ + decimal(n as nat),
    decreases n,
{
    if n < 10 {
        push_digit(s, n);
        assert(old(s)@.push(digit_char(n as nat)) =~= old(s)@ + decimal(n as nat));
    } else {
        push_decimal(s, n / 10);
        push_digit(s, n % 10);
        assert(old(s)@ + decimal((n / 10) as nat) + seq![digit_char((n % 10) as nat)] =~= old(s)@
            + decimal(n as nat));
    }
}

/// Octet `k` of the network address of the prefix `bits`.
fn group_of(bits: &Vec<bool>, k: usize) -> (v: u32)
    requires
        bits@.len() <= 32,
        k < 4,
    ensures
        v == group_value(bits@, k as int),
        v < 256,
{
    let ghost p = padded(bits@);
    let mut v: u32 = 0;
    let mut j: usize = 0;
    assert(p.subrange(8 * k, 8 * k) =~= Seq::<bool>::empty());
    while j < 8
        invariant
            bits@.len() <= 32,
            k < 4,
            j <= 8,
            p == padded(bits@),
            v == bits_value(p.subrange(8 * k as int, 8 * k + j)),
            v < block(j as nat),
        decreases 8 - j,
    {
        proof {
            lemma_block_le(j as nat, 7);
            reveal_with_fuel(block, 8);
        }
        let i = 8 * k + j;
        let bit = i < bits.len() && bits[i];
        assert(p[i as int] == bit);
        assert(p.subrange(8 * k as int, 8 * k + j + 1).drop_last() =~= p.subrange(
            8 * k as int,
            8 * k + j,
        ));
        v = 2 * v + if bit {
            1
        } else {
            0
        };
        j = j + 1;
    }
    proof {
        reveal_with_fuel(block, 9);
    }
    v
}

/// An IPv4 network prefix: its leading address bits, most significant first.
#[derive(Debug)]
pub struct Cidr {
    pub bits: Vec<bool>,
}

impl View for Cidr {
    type V = Seq<bool>;

    open spec fn view(&self) -> Seq<bool> {
        self.bits@
    }
}

impl Cidr {
    /// A prefix is well formed when it has at most 32 bits.
    pub open spec fn wf(&self) -> bool {
        self@.len() <= 32
    }

    /// The first `size` bits (at most 32) of the dotted-quad address `ipv4cidr`.
    pub fn get_bits(ipv4cidr: &str, size: usize) -> (r: Result<Vec<bool>, ParseError>)
        ensures
            match r {
                Ok(v) => {
                    &&& address_bits(ipv4cidr@) is Ok
                    &&& v@ == address_bits(ipv4cidr@)->Ok_0.take(
                        if size < 32 {
                            size as int
                        } else {
                            32
                        },
                    )
                    &&& v@.len() == if size < 32 {
                        size as int
                    } else {
                        32
                    }
                },
                Err(e) => address_bits(ipv4cidr@) == Err::<Seq<bool>, ParseError>(e),
            },
    {
        let text = chars_of(ipv4cidr);
        address_prefix(&text, size)
    }

    /// Reads a prefix written `a.b.c.d/n`: the first `n` bits of the address.
    pub fn parse(s: &str) -> (r: Result<Self, ParseError>)
        ensures
            match r {
                Ok(c) => parse_text(s@) == Ok::<Seq<bool>, ParseError>(c@) && c.wf(),
                Err(e) => parse_text(s@) == Err::<Seq<bool>, ParseError>(e),
            },
    {
        let text = chars_of(s);
        let fields = split_chars(&text, '/');
        if fields.len() != 2 {
            return Err(ParseError::Length);
        }
        assert(views(fields@)[1] == fields[1]@);
        assert(views(fields@)[0] == fields[0]@);
        let size = match parse_number(&fields[1], 32) {
            Some(v) => v,
            None => {
                return Err(ParseError::Length);
            },
        };
        match address_prefix(&fields[0], size as usize) {
            Ok(bits) => Ok(Cidr { bits }),
            Err(e) => Err(e),
        }
    }

    /// The canonical text `a.b.c.d/n`: the bits past the prefix length read as 0.
    pub fn to_pretty_string(&self) -> (r: String)
        requires
            self.wf(),
        ensures
            r@ == canonical_text(self@),
    {
        proof {
            reveal_strlit(".");
            reveal_strlit("/");
        }
        let mut r = String::new();
        push_decimal(&mut r, group_of(&self.bits, 0));
        r.append(".");
        push_decimal(&mut r, group_of(&self.bits, 1));
        r.append(".");
        push_decimal(&mut r, group_of(&self.bits, 2));
        r.append(".");
        push_decimal(&mut r, group_of(&self.bits, 3));
        r.append("/");
        push_decimal(&mut r, self.bits.len() as u32);
        assert(r@ =~= canonical_text(self@));
        r
    }

    pub fn bits(&self) -> (r: &Vec<bool>)
        ensures
            r@ == self@,
    {
        &self.bits
    }

    pub fn size(&self) -> (r: usize)
        ensures
            r == self@.len(),
    {
        self.bits.len()
    }

    /// The prefix one bit longer, with `b` as its last bit.
    pub fn push(&self, b: bool) -> (r: Self)
        ensures
            r@ == self@.push(b),
    {
        let mut new = self.clone();
        new.bits.push(b);
        new
    }

    /// The prefix one bit shorter; the empty prefix stays empty.
    pub fn pop(&self) -> (r: Self)
        ensures
            r@ == if self@.len() == 0 { self@ } else { self@.drop_last() },
    {
        let mut new = self.clone();
        let _ = new.bits.pop();
        new
    }
}

pub proof fn lemma_prefix_trans(p: Seq<bool>, q: Seq<bool>, r: Seq<bool>)
    requires
        p.is_prefix_of(q),
        q.is_prefix_of(r),
    ensures
        p.is_prefix_of(r),
{
    assert(p =~= r.subrange(0, p.len() as int)) by {
        assert forall|i: int| 0 <= i < p.len() implies p[i] == r[i] by {
            assert(p[i] == q[i]);
            assert(q[i] == r[i]);
        }
    }
}

/// A prefix extends into an address through one of its two one-bit extensions.
pub proof fn lemma_prefix_children(p: Seq<bool>, a: Seq<bool>)
    requires
        p.len() < a.len(),
    ensures
        p.is_prefix_of(a) <==> (p.push(false).is_prefix_of(a) || p.push(true).is_prefix_of(a)),
        p.push(a[p.len() as int]).is_prefix_of(a) <==> p.is_prefix_of(a),
{
    let n = p.len() as int;
    if p.is_prefix_of(a) {
        assert(p.push(a[n]) =~= a.subrange(0, n + 1)) by {
            assert forall|i: int| 0 <= i < n implies p[i] == a[i] by {
                assert(p[i] == a.subrange(0, n)[i]);
            }
        }
    }
    if p.push(false).is_prefix_of(a) {
        lemma_prefix_trans(p, p.push(false), a);
    }
    if p.push(true).is_prefix_of(a) {
        lemma_prefix_trans(p, p.push(true), a);
    }
}

impl Clone for Cidr {
    fn clone(&self) -> (r: Self)
        ensures
            r@ == self@,
    {
        let bits = self.bits.clone();
        assert(bits@ =~= self.bits@);
        Cidr { bits }
    }
}

} // verus!
