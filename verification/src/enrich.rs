use vstd::prelude::*;
use vstd::std_specs::bits::{axiom_u16_trailing_zeros, u16_trailing_zeros};
use vstd::string::StringExecFns;
use crate::chars::{push_char, to_char_vec};
use crate::mapping::Mapping;

verus! {

/// The fixed mask applied to each decoded value before the recurrence and to
/// the derived value afterwards.
pub const XOR_KEY: u16 = 0x17F;

/// The numeric value of one hexadecimal digit, upper or lower case.
pub open spec fn hex_digit_value(c: char) -> Option<u8> {
    match c {
        '0' => Some(0u8),
        '1' => Some(1u8),
        '2' => Some(2u8),
        '3' => Some(3u8),
        '4' => Some(4u8),
        '5' => Some(5u8),
        '6' => Some(6u8),
        '7' => Some(7u8),
        '8' => Some(8u8),
        '9' => Some(9u8),
        'a' => Some(10u8),
        'b' => Some(11u8),
        'c' => Some(12u8),
        'd' => Some(13u8),
        'e' => Some(14u8),
        'f' => Some(15u8),
        'A' => Some(10u8),
        'B' => Some(11u8),
        'C' => Some(12u8),
        'D' => Some(13u8),
        'E' => Some(14u8),
        'F' => Some(15u8),
        _ => None,
    }
}

/// Decodes one hexadecimal digit.
pub fn hex_digit(c: char) -> (r: Option<u8>)
    ensures
        r == hex_digit_value(c),
{
    match c {
        '0' => Some(0u8),
        '1' => Some(1u8),
        '2' => Some(2u8),
        '3' => Some(3u8),
        '4' => Some(4u8),
        '5' => Some(5u8),
        '6' => Some(6u8),
        '7' => Some(7u8),
        '8' => Some(8u8),
        '9' => Some(9u8),
        'a' => Some(10u8),
        'b' => Some(11u8),
        'c' => Some(12u8),
        'd' => Some(13u8),
        'e' => Some(14u8),
        'f' => Some(15u8),
        'A' => Some(10u8),
        'B' => Some(11u8),
        'C' => Some(12u8),
        'D' => Some(13u8),
        'E' => Some(14u8),
        'F' => Some(15u8),
        _ => None,
    }
}

/// The input with every leading `0x` removed.
pub open spec fn strip_hex_prefixes(s: Seq<char>) -> Seq<char>
    decreases s.len(),
{
    if s.len() >= 2 && s[0] == '0' && s[1] == 'x' {
        strip_hex_prefixes(s.drop_first().drop_first())
    } else {
        s
    }
}

/// The value of a sequence of hexadecimal digits, most significant first;
/// `None` when some character is not a digit.  The empty sequence counts as
/// zero.
pub open spec fn hex_digits_value(s: Seq<char>) -> Option<int>
    decreases s.len(),
{
    if s.len() == 0 {
        Some(0int)
    } else {
        match (hex_digits_value(s.drop_last()), hex_digit_value(s.last())) {
            (Some(hi), Some(d)) => Some(hi * 16 + d),
            _ => None,
        }
    }
}

/// A value decoded the way the enrichment reads it: leading `0x` prefixes
/// removed, then one or more hexadecimal digits whose value fits in sixteen
/// bits.
pub open spec fn parse_hex_u16(s: Seq<char>) -> Option<u16> {
    let t = strip_hex_prefixes(s);
    if t.len() == 0 {
        None
    } else {
        match hex_digits_value(t) {
            Some(v) => if v <= 0xFFFF {
                Some(v as u16)
            } else {
                None
            },
            None => None,
        }
    }
}

/// A defined digit-sequence value is never negative.
proof fn lemma_hex_digits_nonneg(s: Seq<char>)
    ensures
        hex_digits_value(s) is Some ==> hex_digits_value(s)->0 >= 0,
    decreases s.len(),
{
    if s.len() > 0 {
        lemma_hex_digits_nonneg(s.drop_last());
    }
}

/// Every prefix of a defined digit sequence is defined and no larger.
proof fn lemma_hex_digits_prefix(s: Seq<char>, j: int)
    requires
        0 <= j <= s.len(),
        hex_digits_value(s) is Some,
    ensures
        hex_digits_value(s.subrange(0, j)) is Some,
        hex_digits_value(s.subrange(0, j))->0 <= hex_digits_value(s)->0,
    decreases s.len(),
{
    if j == s.len() {
        assert(s.subrange(0, j) =~= s);
    } else {
        let dl = s.drop_last();
        lemma_hex_digits_prefix(dl, j);
        lemma_hex_digits_nonneg(dl);
        assert(s.subrange(0, j) =~= dl.subrange(0, j));
    }
}

/// One character that is no digit makes the whole sequence undefined.
proof fn lemma_hex_digits_bad(s: Seq<char>, j: int)
    requires
        0 <= j < s.len(),
        hex_digit_value(s[j]) is None,
    ensures
        hex_digits_value(s) is None,
    decreases s.len(),
{
    if j < s.len() - 1 {
        lemma_hex_digits_bad(s.drop_last(), j);
    }
}

/// Decodes a value as the enrichment reads it: any leading `0x` prefixes
/// removed, then one or more hexadecimal digits fitting in sixteen bits.
pub fn parse_hex(s: &String) -> (r: Option<u16>)
    ensures
        r == parse_hex_u16(s@),
{
    let text = to_char_vec(s.as_str());
    let n = text.len();
    let mut start: usize = 0;
    proof {
        assert(text@.subrange(0, n as int) =~= s@);
    }
    loop
        invariant
            text@ == s@,
            n == text@.len(),
            start <= n,
            strip_hex_prefixes(s@) == strip_hex_prefixes(
                text@.subrange(start as int, n as int),
            ),
        ensures
            start <= n,
            text@ == s@,
            n == text@.len(),
            strip_hex_prefixes(s@) == text@.subrange(start as int, n as int),
        decreases n - start,
    {
        let ghost t = text@.subrange(start as int, n as int);
        if n - start < 2 {
            proof {
                assert(t.len() < 2);
            }
            break ;
        }
        let c0 = text[start];
        let c1 = text[start + 1];
        proof {
            assert(t[0] == c0);
            assert(t[1] == c1);
        }
        if !(c0 == '0' && c1 == 'x') {
            break ;
        }
        proof {
            assert(t.drop_first().drop_first() =~= text@.subrange(start + 2, n as int));
        }
        start = start + 2;
    }
    let ghost t = text@.subrange(start as int, n as int);
    if start == n {
        proof {
            assert(t =~= Seq::<char>::empty());
        }
        return None;
    }
    let mut acc: u16 = 0;
    let mut i: usize = start;
    proof {
        assert(t.subrange(0, 0) =~= Seq::<char>::empty());
    }
    loop
        invariant
            text@ == s@,
            n == text@.len(),
            start <= i <= n,
            start < n,
            t == text@.subrange(start as int, n as int),
            t == strip_hex_prefixes(s@),
            hex_digits_value(t.subrange(0, i - start)) == Some(acc as int),
        decreases n - i,
    {
        if i == n {
            proof {
                assert(t.subrange(0, i - start) =~= t);
            }
            return Some(acc);
        }
        let c = text[i];
        let ghost j = i - start;
        proof {
            assert(t[j] == c);
        }
        let d = match hex_digit(c) {
            Some(d) => d,
            None => {
                proof {
                    lemma_hex_digits_bad(t, j);
                }
                return None;
            },
        };
        proof {
            assert(t.subrange(0, j + 1).drop_last() =~= t.subrange(0, j));
            assert(t.subrange(0, j + 1).last() == c);
        }
        let next = match acc.checked_mul(16) {
            Some(a16) => a16.checked_add(d as u16),
            None => None,
        };
        match next {
            Some(a2) => {
                acc = a2;
            },
            None => {
                proof {
                    assert(hex_digits_value(t.subrange(0, j + 1)) == Some(
                        acc as int * 16 + d as int,
                    ));
                    assert(acc as int * 16 + d as int > 0xFFFF);
                    if hex_digits_value(t) is Some {
                        lemma_hex_digits_prefix(t, j + 1);
                    }
                }
                return None;
            },
        }
        i = i + 1;
    }
}

/// The one-based index of the lowest bit where `a` and `b` differ; one more
/// than the width when they agree everywhere.
pub open spec fn first_mismatch_index(a: u16, b: u16) -> u32 {
    (u16_trailing_zeros(a ^ b) + 1) as u32
}

/// The derived value of the recurrence, already re-masked: the fourth value
/// plus four times the index of the first mismatching bit of the third and
/// fourth, the whole XORed with the mask.  `None` when the sum does not fit
/// in sixteen bits.
pub open spec fn fifth_from(three: u16, four: u16) -> Option<u16> {
    let t = four + first_mismatch_index(three, four) * 4;
    if t <= 0xFFFF {
        Some((t as u16) ^ XOR_KEY)
    } else {
        None
    }
}

/// The fifth value a parsed mapping yields: the values of the keys `one`,
/// `two`, `three` and `four` decoded as hexadecimal integers and unmasked
/// with `XOR_KEY`, then the recurrence applied to the third and fourth.
/// `None` when a key is missing, a value does not decode, or the recurrence
/// overflows.
pub open spec fn spec_fifth(m: Map<Seq<char>, Seq<char>>) -> Option<u16> {
    if m.contains_key("one"@) && m.contains_key("two"@) && m.contains_key("three"@)
        && m.contains_key("four"@) {
        match (parse_hex_u16(m["one"@]), parse_hex_u16(m["two"@]), parse_hex_u16(m["three"@]),
        parse_hex_u16(m["four"@])) {
            (Some(h1), Some(h2), Some(h3), Some(h4)) => fifth_from(
                h3 ^ XOR_KEY,
                h4 ^ XOR_KEY,
            ),
            _ => None,
        }
    } else {
        None
    }
}

/// Computes the fifth value from a parsed mapping.
pub fn figure_fifth_value(m: &Mapping) -> (r: Option<u16>)
    requires
        m.wf(),
    ensures
        r == spec_fifth(m@),
{
    let k1 = String::from_str("one");
    let k2 = String::from_str("two");
    let k3 = String::from_str("three");
    let k4 = String::from_str("four");
    let v1 = match m.get(&k1) {
        Some(v) => v,
        None => { return None },
    };
    let v2 = match m.get(&k2) {
        Some(v) => v,
        None => { return None },
    };
    let v3 = match m.get(&k3) {
        Some(v) => v,
        None => { return None },
    };
    let v4 = match m.get(&k4) {
        Some(v) => v,
        None => { return None },
    };
    if parse_hex(&v1).is_none() {
        return None;
    }
    if parse_hex(&v2).is_none() {
        return None;
    }
    let h3 = match parse_hex(&v3) {
        Some(h) => h,
        None => { return None },
    };
    let h4 = match parse_hex(&v4) {
        Some(h) => h,
        None => { return None },
    };
    let x3 = h3 ^ XOR_KEY;
    let x4 = h4 ^ XOR_KEY;
    proof {
        axiom_u16_trailing_zeros(x3 ^ x4);
    }
    let idx: u32 = (x3 ^ x4).trailing_zeros() + 1;
    let t: u32 = x4 as u32 + idx * 4;
    if t <= 0xFFFF {
        Some((t as u16) ^ XOR_KEY)
    } else {
        None
    }
}

/// One digit written as a lowercase hexadecimal character.
pub open spec fn hex_digit_char(d: int) -> char {
    if d == 0 {
        '0'
    } else if d == 1 {
        '1'
    } else if d == 2 {
        '2'
    } else if d == 3 {
        '3'
    } else if d == 4 {
        '4'
    } else if d == 5 {
        '5'
    } else if d == 6 {
        '6'
    } else if d == 7 {
        '7'
    } else if d == 8 {
        '8'
    } else if d == 9 {
        '9'
    } else if d == 10 {
        'a'
    } else if d == 11 {
        'b'
    } else if d == 12 {
        'c'
    } else if d == 13 {
        'd'
    } else if d == 14 {
        'e'
    } else {
        'f'
    }
}

/// A positive value written in lowercase hexadecimal, most significant digit
/// first, without leading zeros; the empty sequence for zero.
pub open spec fn hex_digits_of(n: int) -> Seq<char>
    decreases n,
{
    if n <= 0 {
        Seq::<char>::empty()
    } else {
        hex_digits_of(n / 16).push(hex_digit_char(n % 16))
    }
}

/// A value written as the enriched entry stores it: `0x`, then the digits,
/// a single `0` for zero.
pub open spec fn hex_literal(n: int) -> Seq<char> {
    if n == 0 {
        seq!['0', 'x', '0']
    } else {
        seq!['0', 'x'] + hex_digits_of(n)
    }
}

/// One digit as a lowercase hexadecimal character.
fn hex_digit_char_of(d: u16) -> (c: char)
    requires
        d < 16,
    ensures
        c == hex_digit_char(d as int),
{
    match d {
        0 => '0',
        1 => '1',
        2 => '2',
        3 => '3',
        4 => '4',
        5 => '5',
        6 => '6',
        7 => '7',
        8 => '8',
        9 => '9',
        10 => 'a',
        11 => 'b',
        12 => 'c',
        13 => 'd',
        14 => 'e',
        _ => 'f',
    }
}

/// Appends the hexadecimal digits of `n`, most significant first.
fn push_hex_digits(n: u16, out: &mut String)
    ensures
        final(out)@ == old(out)@ + hex_digits_of(n as int),
    decreases n,
{
    if n == 0 {
        proof {
            assert(old(out)@ + hex_digits_of(0) =~= old(out)@);
        }
        return ;
    }
    push_hex_digits(n / 16, out);
    let d = n % 16;
    push_char(out, hex_digit_char_of(d));
    proof {
        assert(hex_digits_of(n as int) == hex_digits_of(n as int / 16).push(
            hex_digit_char(n as int % 16),
        ));
        assert((old(out)@ + hex_digits_of(n as int / 16)).push(hex_digit_char(d as int)) =~= old(
            out,
        )@ + hex_digits_of(n as int));
    }
}

/// Writes a value the way the enriched entry stores it.
pub fn to_hex_string(n: u16) -> (r: String)
    ensures
        r@ == hex_literal(n as int),
{
    let mut out = String::new();
    push_char(&mut out, '0');
    push_char(&mut out, 'x');
    if n == 0 {
        push_char(&mut out, '0');
        proof {
            assert(out@ =~= hex_literal(0));
        }
    } else {
        push_hex_digits(n, &mut out);
        proof {
            assert(Seq::<char>::empty().push('0').push('x') =~= seq!['0', 'x']);
            assert(out@ =~= hex_literal(n as int));
        }
    }
    out
}

/// Derives the fifth value from the mapping and inserts it under the key
/// `five`, written in hexadecimal; reports whether an entry was added.
pub fn enrich(m: &mut Mapping) -> (added: bool)
    requires
        old(m).wf(),
    ensures
        final(m).wf(),
        match spec_fifth(old(m)@) {
            Some(v) => added && final(m)@ == old(m)@.insert("five"@, hex_literal(v as int)),
            None => !added && final(m)@ == old(m)@,
        },
{
    match figure_fifth_value(m) {
        Some(v) => {
            let key = String::from_str("five");
            let value = to_hex_string(v);
            m.insert(key, value);
            true
        },
        None => false,
    }
}

} // verus!
