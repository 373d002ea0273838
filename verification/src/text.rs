//! Text rendering shared by the modules: decimal and hexadecimal numbers,
//! and joining parts with a separator.

use vstd::prelude::*;

verus! {

/// The character of a decimal digit `d` (`0 <= d < 10`).
pub open spec fn digit_char(d: int) -> char {
    (48 + d) as char
}

/// The character of a lower-case hexadecimal digit `d` (`0 <= d < 16`).
pub open spec fn hex_char(d: int) -> char {
    if d < 10 {
        (48 + d) as char
    } else {
        (87 + d) as char
    }
}

/// Decimal digits of a natural number, most significant first, no leading zeros.
pub open spec fn nat_decimal(n: nat) -> Seq<char>
    decreases n,
{
    if n < 10 {
        seq![digit_char(n as int)]
    } else {
        nat_decimal(n / 10).push(digit_char((n % 10) as int))
    }
}

proof fn lemma_nat_decimal_nonempty(n: nat)
    ensures
        nat_decimal(n).len() >= 1,
        n >= 10 ==> nat_decimal(n).len() >= 2,
    decreases n,
{
    if n >= 10 {
        lemma_nat_decimal_nonempty(n / 10);
    }
}

/// Different numbers have different decimal renderings.
pub proof fn lemma_nat_decimal_injective(a: nat, b: nat)
    requires
        nat_decimal(a) == nat_decimal(b),
    ensures
        a == b,
    decreases a,
{
    lemma_nat_decimal_nonempty(a);
    lemma_nat_decimal_nonempty(b);
    if a < 10 && b < 10 {
        assert(nat_decimal(a) == seq![digit_char(a as int)]);
        assert(nat_decimal(b) == seq![digit_char(b as int)]);
        assert(seq![digit_char(a as int)][0] == digit_char(a as int));
        assert(seq![digit_char(b as int)][0] == digit_char(b as int));
        assert(nat_decimal(a)[0] == nat_decimal(b)[0]);
        assert(digit_char(a as int) == digit_char(b as int));
        assert((48 + a) as char == (48 + b) as char);
        assert(((48 + a) as char) as int == 48 + a);
        assert(((48 + b) as char) as int == 48 + b);
    } else if a >= 10 && b >= 10 {
        let da = nat_decimal(a);
        let db = nat_decimal(b);
        assert(da.last() == db.last());
        assert(digit_char((a % 10) as int) == digit_char((b % 10) as int));
        assert(((48 + (a % 10)) as char) as int == 48 + (a % 10));
        assert(((48 + (b % 10)) as char) as int == 48 + (b % 10));
        assert(da.drop_last() =~= nat_decimal(a / 10));
        assert(db.drop_last() =~= nat_decimal(b / 10));
        lemma_nat_decimal_injective(a / 10, b / 10);
    } else {
        assert(nat_decimal(a).len() != nat_decimal(b).len());
    }
}

/// Decimal rendering of an integer, with a leading `-` when negative.
pub open spec fn int_decimal(n: int) -> Seq<char> {
    if n < 0 {
        seq!['-'] + nat_decimal((-n) as nat)
    } else {
        nat_decimal(n as nat)
    }
}

/// Two lower-case hexadecimal digits of a byte, high nibble first.
pub open spec fn byte_hex(b: u8) -> Seq<char> {
    seq![hex_char(b as int / 16), hex_char(b as int % 16)]
}

/// Hexadecimal rendering of a byte string, two digits per byte.
pub open spec fn bytes_hex(bs: Seq<u8>) -> Seq<char>
    decreases bs.len(),
{
    if bs.len() == 0 {
        Seq::empty()
    } else {
        bytes_hex(bs.drop_last()) + byte_hex(bs.last())
    }
}

/// The parts, in order, with `sep` between each two neighbours.
pub open spec fn join(parts: Seq<Seq<char>>, sep: Seq<char>) -> Seq<char>
    decreases parts.len(),
{
    if parts.len() == 0 {
        Seq::empty()
    } else if parts.len() == 1 {
        parts[0]
    } else {
        join(parts.drop_last(), sep) + sep + parts.last()
    }
}

/// Appends one character (std's `String::push`).
#[verifier::external_body]
pub(crate) fn push_char(s: &mut String, c: char)
    ensures
        final(s)@ == old(s)@.push(c),
{
    s.push(c);
}

fn digit(d: u8) -> (c: char)
    requires
        d < 10,
    ensures
        c == digit_char(d as int),
{
    (48u8 + d) as char
}

fn hex_digit(d: u8) -> (c: char)
    requires
        d < 16,
    ensures
        c == hex_char(d as int),
{
    if d < 10 {
        (48u8 + d) as char
    } else {
        (87u8 + d) as char
    }
}

/// Appends the decimal digits of `n`.
pub fn push_decimal(s: &mut String, n: u128)
    ensures
        final(s)@ == old(s)@ + nat_decimal(n as nat),
    decreases n,
{
    if n >= 10 {
        push_decimal(s, n / 10);
    }
    let d = (n % 10) as u8;
    push_char(s, digit(d));
    assert(final(s)@ =~= old(s)@ + nat_decimal(n as nat));
}

/// Appends the decimal rendering of a signed number.
pub fn push_signed(s: &mut String, n: i64)
    ensures
        final(s)@ == old(s)@ + int_decimal(n as int),
{
    if n < 0 {
        push_char(s, '-');
        let m: u128 = (0i128 - (n as i128)) as u128;
        push_decimal(s, m);
        assert(final(s)@ =~= old(s)@ + int_decimal(n as int));
    } else {
        push_decimal(s, n as u128);
    }
}

/// Appends two lower-case hexadecimal digits of `b`.
pub fn push_hex_byte(s: &mut String, b: u8)
    ensures
        final(s)@ == old(s)@ + byte_hex(b),
{
    push_char(s, hex_digit(b / 16));
    push_char(s, hex_digit(b % 16));
    assert(final(s)@ =~= old(s)@ + byte_hex(b));
}

/// Joins the parts with `sep` between neighbours.
pub fn join_strings(parts: &Vec<String>, sep: &str) -> (r: String)
    ensures
        r@ == join(parts@.map_values(|p: String| p@), sep@),
{
    let ghost views = parts@.map_values(|p: String| p@);
    let mut r = String::new();
    let mut i: usize = 0;
    while i < parts.len()
        invariant
            i <= parts.len(),
            views == parts@.map_values(|p: String| p@),
            r@ == join(views.take(i as int), sep@),
        decreases parts.len() - i,
    {
        if i != 0 {
            r.append(sep);
        }
        r.append(parts[i].as_str());
        assert(views.take(i + 1).drop_last() =~= views.take(i as int));
        i = i + 1;
    }
    assert(views.take(parts.len() as int) =~= views);
    r
}

} // verus!
