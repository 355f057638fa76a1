//! Decimal and hexadecimal byte-string parsing and decimal formatting.

use vstd::prelude::*;

verus! {

/// ASCII decimal digit.
pub open spec fn is_digit(c: u8) -> bool {
    48 <= c && c <= 57
}

/// ASCII hexadecimal digit, either case.
pub open spec fn is_hex(c: u8) -> bool {
    is_digit(c) || (97 <= c && c <= 102) || (65 <= c && c <= 70)
}

/// Numeric value of one hexadecimal digit.
pub open spec fn hex_digit_val(c: u8) -> int {
    if is_digit(c) {
        c - 48
    } else if 97 <= c && c <= 102 {
        c - 87
    } else {
        c - 55
    }
}

pub open spec fn all_digits(s: Seq<u8>) -> bool {
    forall|i: int| 0 <= i < s.len() ==> is_digit(s[i])
}

pub open spec fn all_hex(s: Seq<u8>) -> bool {
    forall|i: int| 0 <= i < s.len() ==> is_hex(s[i])
}

/// Value of a decimal digit string.
pub open spec fn dec_val(s: Seq<u8>) -> int
    decreases s.len(),
{
    if s.len() == 0 {
        0
    } else {
        dec_val(s.take(s.len() - 1)) * 10 + (s[s.len() - 1] - 48)
    }
}

/// Value of a hexadecimal digit string.
pub open spec fn hex_val(s: Seq<u8>) -> int
    decreases s.len(),
{
    if s.len() == 0 {
        0
    } else {
        hex_val(s.take(s.len() - 1)) * 16 + hex_digit_val(s[s.len() - 1])
    }
}

pub proof fn lemma_dec_val_nonneg(s: Seq<u8>)
    requires
        all_digits(s),
    ensures
        dec_val(s) >= 0,
    decreases s.len(),
{
    if s.len() > 0 {
        assert(all_digits(s.take(s.len() - 1)));
        lemma_dec_val_nonneg(s.take(s.len() - 1));
    }
}

pub proof fn lemma_hex_val_nonneg(s: Seq<u8>)
    requires
        all_hex(s),
    ensures
        hex_val(s) >= 0,
    decreases s.len(),
{
    if s.len() > 0 {
        assert(all_hex(s.take(s.len() - 1)));
        lemma_hex_val_nonneg(s.take(s.len() - 1));
    }
}

/// A digit string is worth at least its prefix.
pub proof fn lemma_dec_val_prefix(s: Seq<u8>, i: int)
    requires
        all_digits(s),
        0 <= i <= s.len(),
    ensures
        dec_val(s) >= dec_val(s.take(i)),
    decreases s.len() - i,
{
    if i < s.len() {
        let t1 = s.take(s.len() - 1);
        assert(all_digits(t1));
        assert(t1.take(i) =~= s.take(i));
        lemma_dec_val_prefix(t1, i);
        lemma_dec_val_nonneg(t1);
        assert(is_digit(s[s.len() - 1]));
        assert(dec_val(t1) * 10 >= dec_val(t1));
    } else {
        assert(s.take(i) =~= s);
    }
}

pub proof fn lemma_hex_val_prefix(s: Seq<u8>, i: int)
    requires
        all_hex(s),
        0 <= i <= s.len(),
    ensures
        hex_val(s) >= hex_val(s.take(i)),
    decreases s.len() - i,
{
    if i < s.len() {
        let t1 = s.take(s.len() - 1);
        assert(all_hex(t1));
        assert(t1.take(i) =~= s.take(i));
        lemma_hex_val_prefix(t1, i);
        lemma_hex_val_nonneg(t1);
        assert(is_hex(s[s.len() - 1]));
        assert(hex_digit_val(s[s.len() - 1]) >= 0);
        assert(hex_val(t1) * 16 >= hex_val(t1));
    } else {
        assert(s.take(i) =~= s);
    }
}

/// Value of the decimal digits `s[from..to)`, when they are all digits, at
/// least one, and worth at most `cap`.
pub fn dec_value_capped(s: &[u8], from: usize, to: usize, cap: u32) -> (r: Option<u32>)
    requires
        from <= to <= s@.len(),
    ensures
        ({
            let t = s@.subrange(from as int, to as int);
            r == if t.len() > 0 && all_digits(t) && dec_val(t) <= cap {
                Some(dec_val(t) as u32)
            } else {
                None::<u32>
            }
        }),
{
    let ghost t = s@.subrange(from as int, to as int);
    if from == to {
        return None;
    }
    let mut acc: u64 = 0;
    let mut i: usize = from;
    while i < to
        invariant
            from <= i <= to <= s@.len(),
            t == s@.subrange(from as int, to as int),
            all_digits(t.take(i - from)),
            acc == dec_val(t.take(i - from)),
            acc <= cap,
        decreases to - i,
    {
        let c = s[i];
        if c < 48 || c > 57 {
            proof {
                assert(t[i - from] == c);
            }
            return None;
        }
        acc = acc * 10 + ((c - 48) as u64);
        proof {
            assert(t.take(i - from + 1).take(i - from) =~= t.take(i - from));
            assert(t.take(i - from + 1)[i - from] == c);
        }
        i = i + 1;
        if acc > cap as u64 {
            proof {
                if all_digits(t) {
                    lemma_dec_val_prefix(t, i - from);
                }
            }
            return None;
        }
    }
    proof {
        assert(t.take(to - from) =~= t);
    }
    Some(acc as u32)
}

/// Value of the hexadecimal digits `s[from..to)`: one to four hex digits.
pub fn hex16_value(s: &[u8], from: usize, to: usize) -> (r: Option<u16>)
    requires
        from <= to <= s@.len(),
    ensures
        ({
            let t = s@.subrange(from as int, to as int);
            r == spec_hex16(t)
        }),
{
    let ghost t = s@.subrange(from as int, to as int);
    if from == to || to - from > 4 {
        return None;
    }
    let mut acc: u32 = 0;
    let mut i: usize = from;
    while i < to
        invariant
            from <= i <= to <= s@.len(),
            to - from <= 4,
            t == s@.subrange(from as int, to as int),
            all_hex(t.take(i - from)),
            acc == hex_val(t.take(i - from)),
            acc < 0x10000,
        decreases to - i,
    {
        let c = s[i];
        let d: u32 = if 48 <= c && c <= 57 {
            (c - 48) as u32
        } else if 97 <= c && c <= 102 {
            (c - 87) as u32
        } else if 65 <= c && c <= 70 {
            (c - 55) as u32
        } else {
            proof {
                assert(t[i - from] == c);
            }
            return None;
        };
        acc = acc * 16 + d;
        proof {
            assert(t.take(i - from + 1).take(i - from) =~= t.take(i - from));
            assert(t.take(i - from + 1)[i - from] == c);
            assert(hex_val(t.take(i - from + 1)) < 0x10000) by {
                lemma_hex_bound(t.take(i - from + 1));
            }
        }
        i = i + 1;
    }
    proof {
        assert(t.take(to - from) =~= t);
    }
    Some(acc as u16)
}

/// A hex string of at most four digits is worth less than 2^16.
pub proof fn lemma_hex_bound(s: Seq<u8>)
    requires
        all_hex(s),
        s.len() <= 4,
    ensures
        hex_val(s) < 0x10000,
        hex_val(s) >= 0,
    decreases s.len(),
{
    if s.len() > 0 {
        assert(all_hex(s.take(s.len() - 1)));
        lemma_hex_bound(s.take(s.len() - 1));
        assert(hex_val(s.take(s.len() - 1)) < 0x1000) by {
            lemma_hex_small(s.take(s.len() - 1));
        }
    }
}

/// A hex string of at most three digits is worth less than 2^12.
pub proof fn lemma_hex_small(s: Seq<u8>)
    requires
        all_hex(s),
        s.len() <= 3,
    ensures
        0 <= hex_val(s) < 0x1000,
    decreases s.len(),
{
    if s.len() > 0 {
        assert(all_hex(s.take(s.len() - 1)));
        lemma_hex_small2(s.take(s.len() - 1));
    }
}

/// A hex string of at most two digits is worth less than 2^8.
pub proof fn lemma_hex_small2(s: Seq<u8>)
    requires
        all_hex(s),
        s.len() <= 2,
    ensures
        0 <= hex_val(s) < 0x100,
    decreases s.len(),
{
    if s.len() > 0 {
        assert(all_hex(s.take(s.len() - 1)));
        lemma_hex_small1(s.take(s.len() - 1));
    }
}

/// A hex string of at most one digit is worth less than 16.
pub proof fn lemma_hex_small1(s: Seq<u8>)
    requires
        all_hex(s),
        s.len() <= 1,
    ensures
        0 <= hex_val(s) < 16,
{
    if s.len() > 0 {
        assert(s.take(s.len() - 1) =~= Seq::<u8>::empty());
        assert(hex_val(Seq::<u8>::empty()) == 0);
        assert(is_hex(s[0]));
        assert(0 <= hex_digit_val(s[0]) < 16);
        assert(hex_val(s) == hex_val(s.take(s.len() - 1)) * 16 + hex_digit_val(s[s.len() - 1]));
    }
}

/// One 16-bit group of an IPv6 address: one to four hex digits.
pub open spec fn spec_hex16(s: Seq<u8>) -> Option<u16> {
    if 1 <= s.len() <= 4 && all_hex(s) {
        Some(hex_val(s) as u16)
    } else {
        None
    }
}

/// An unsigned 16-bit decimal number with an optional leading plus sign, as
/// `str::parse::<u16>` accepts it.
pub open spec fn spec_parse_u16(s: Seq<u8>) -> Option<u16> {
    let d = if s.len() > 0 && s[0] == 43 {
        s.skip(1)
    } else {
        s
    };
    if d.len() > 0 && all_digits(d) && dec_val(d) <= 0xffff {
        Some(dec_val(d) as u16)
    } else {
        None
    }
}

/// Parse `s[from..to)` as an unsigned 16-bit decimal number.
pub fn parse_u16(s: &[u8], from: usize, to: usize) -> (r: Option<u16>)
    requires
        from <= to <= s@.len(),
    ensures
        r == spec_parse_u16(s@.subrange(from as int, to as int)),
{
    let ghost t = s@.subrange(from as int, to as int);
    let start: usize = if from < to && s[from] == 43 {
        from + 1
    } else {
        from
    };
    proof {
        if from < to && t[0] == 43 {
            assert(t.skip(1) =~= s@.subrange(start as int, to as int));
        }
    }
    let ghost d = s@.subrange(start as int, to as int);
    match dec_value_capped(s, start, to, 0xffff) {
        Some(v) => {
            proof {
                lemma_dec_val_nonneg(d);
            }
            Some(v as u16)
        },
        None => None,
    }
}

/// The canonical decimal digits of a non-negative number.
pub open spec fn dec_digits(n: int) -> Seq<u8>
    decreases n,
{
    if n < 10 {
        seq![(48 + if n >= 0 { n } else { 0 }) as u8]
    } else {
        dec_digits(n / 10).push((48 + n % 10) as u8)
    }
}

/// Format a 16-bit number in decimal.
pub fn u16_dec(n: u16) -> (r: Vec<u8>)
    ensures
        r@ == dec_digits(n as int),
    decreases n,
{
    if n < 10 {
        let mut v: Vec<u8> = Vec::new();
        v.push(48 + (n as u8));
        v
    } else {
        let mut v = u16_dec(n / 10);
        v.push(48 + ((n % 10) as u8));
        v
    }
}

} // verus!
