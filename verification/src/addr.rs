//! Literal IP address parsing for the SOCKS5 destination encoding: a host
//! that reads as an IPv4 literal is sent as four octets, an IPv6 literal as
//! sixteen, and anything else as a domain name.

use vstd::prelude::*;
use crate::scan::{find_byte, find_pat, find_pattern};
use crate::num::{
    all_digits, dec_val, hex16_value, lemma_dec_val_nonneg, spec_hex16, dec_value_capped,
};

verus! {

/// One decimal octet of a dotted quad: one to three digits, no leading zero,
/// value at most 255.
pub open spec fn spec_dec_octet(s: Seq<u8>) -> Option<u8> {
    if s.len() > 0 && all_digits(s) && !(s.len() > 1 && s[0] == 48) && dec_val(s) <= 255 {
        Some(dec_val(s) as u8)
    } else {
        None
    }
}

/// The octets of a dot-separated list of decimal octets.
pub open spec fn spec_dotted(s: Seq<u8>) -> Option<Seq<u8>>
    decreases s.len(),
{
    match s.index_of_first(46u8) {
        None => match spec_dec_octet(s) {
            Some(o) => Some(seq![o]),
            None => None,
        },
        Some(i) => if 0 <= i < s.len() {
            match spec_dec_octet(s.take(i)) {
                None => None,
                Some(o) => match spec_dotted(s.skip(i + 1)) {
                    None => None,
                    Some(rest) => Some(seq![o] + rest),
                },
            }
        } else {
            None
        },
    }
}

/// The four octets of an IPv4 literal, if `s` is one.
pub open spec fn spec_ipv4(s: Seq<u8>) -> Option<Seq<u8>> {
    match spec_dotted(s) {
        Some(o) => if o.len() == 4 {
            Some(o)
        } else {
            None
        },
        None => None,
    }
}

/// The 16-bit groups of a colon-separated group list. The final element may
/// be an embedded IPv4 literal, worth two groups, when `v4tail` is set.
pub open spec fn spec_groups(s: Seq<u8>, v4tail: bool) -> Option<Seq<u16>>
    decreases s.len(),
{
    match s.index_of_first(58u8) {
        None => match spec_hex16(s) {
            Some(v) => Some(seq![v]),
            None => if v4tail {
                match spec_ipv4(s) {
                    Some(o) => Some(
                        seq![
                            (o[0] as int * 256 + o[1] as int) as u16,
                            (o[2] as int * 256 + o[3] as int) as u16,
                        ],
                    ),
                    None => None,
                }
            } else {
                None
            },
        },
        Some(i) => if 0 <= i < s.len() {
            match spec_hex16(s.take(i)) {
                None => None,
                Some(v) => match spec_groups(s.skip(i + 1), v4tail) {
                    None => None,
                    Some(g) => Some(seq![v] + g),
                },
            }
        } else {
            None
        },
    }
}

pub open spec fn coloncolon() -> Seq<u8> {
    seq![58u8, 58u8]
}

pub open spec fn zero_groups(n: int) -> Seq<u16> {
    Seq::new(n as nat, |i: int| 0u16)
}

/// The sixteen bytes of a group list, each group big-endian.
pub open spec fn groups_bytes(g: Seq<u16>) -> Seq<u8> {
    Seq::new(
        g.len() * 2,
        |i: int|
            if i % 2 == 0 {
                (g[i / 2] / 256) as u8
            } else {
                (g[i / 2] % 256) as u8
            },
    )
}

/// The sixteen bytes of an IPv6 literal, if `s` is one: at most one `::`,
/// standing for at least one zero group; eight groups in all; an embedded
/// IPv4 literal allowed in the last position after the `::` (or of a full
/// eight-group form).
pub open spec fn spec_ipv6(s: Seq<u8>) -> Option<Seq<u8>> {
    match find_pat(s, coloncolon()) {
        None => match spec_groups(s, true) {
            Some(g) => if g.len() == 8 {
                Some(groups_bytes(g))
            } else {
                None
            },
            None => None,
        },
        Some(d) => if 0 <= d && d + 2 <= s.len() {
            let lg = if d == 0 {
                Some(Seq::<u16>::empty())
            } else {
                spec_groups(s.take(d), false)
            };
            let rg = if d + 2 == s.len() {
                Some(Seq::<u16>::empty())
            } else {
                spec_groups(s.skip(d + 2), true)
            };
            match (lg, rg) {
                (Some(l), Some(r)) => if l.len() + r.len() <= 7 {
                    Some(groups_bytes(l + zero_groups(8 - l.len() - r.len()) + r))
                } else {
                    None
                },
                _ => None,
            }
        } else {
            None
        },
    }
}

/// Parse the decimal octet `s[a..b)`.
fn dec_octet(s: &[u8], a: usize, b: usize) -> (r: Option<u8>)
    requires
        a <= b <= s@.len(),
    ensures
        r == spec_dec_octet(s@.subrange(a as int, b as int)),
{
    let ghost t = s@.subrange(a as int, b as int);
    if a == b {
        return None;
    }
    if b - a > 1 && s[a] == 48 {
        return None;
    }
    match dec_value_capped(s, a, b, 255) {
        Some(v) => {
            proof {
                lemma_dec_val_nonneg(t);
            }
            Some(v as u8)
        },
        None => None,
    }
}

/// Parse the dotted octet list `s[a..b)`, mirroring `spec_dotted`.
fn dotted(s: &[u8], a: usize, b: usize) -> (r: Option<Vec<u8>>)
    requires
        a <= b <= s@.len(),
    ensures
        ({
            let t = s@.subrange(a as int, b as int);
            match r {
                Some(v) => spec_dotted(t) == Some(v@),
                None => spec_dotted(t) is None,
            }
        }),
    decreases b - a,
{
    let ghost t = s@.subrange(a as int, b as int);
    let dot = find_byte(s, a, b, 46);
    match dot {
        None => match dec_octet(s, a, b) {
            Some(o) => {
                let mut v: Vec<u8> = Vec::new();
                v.push(o);
                proof {
                    assert(v@ =~= seq![o]);
                }
                Some(v)
            },
            None => None,
        },
        Some(i) => {
            proof {
                assert(t.take(i - a) =~= s@.subrange(a as int, i as int));
                assert(t.skip(i - a + 1) =~= s@.subrange(i + 1, b as int));
            }
            match dec_octet(s, a, i) {
                None => None,
                Some(o) => match dotted(s, i + 1, b) {
                    None => None,
                    Some(rest) => {
                        let mut v: Vec<u8> = Vec::new();
                        v.push(o);
                        let mut w = rest;
                        let mut k: usize = 0;
                        while k < w.len()
                            invariant
                                k <= w@.len(),
                                v@ == seq![o] + w@.take(k as int),
                            decreases w@.len() - k,
                        {
                            v.push(w[k]);
                            proof {
                                assert(seq![o] + w@.take(k + 1) =~= (seq![o] + w@.take(
                                    k as int,
                                )).push(w@[k as int]));
                            }
                            k = k + 1;
                        }
                        proof {
                            assert(w@.take(w@.len() as int) =~= w@);
                        }
                        Some(v)
                    },
                },
            }
        },
    }
}

/// Parse `s` whole as an IPv4 literal.
pub fn parse_ipv4(s: &[u8]) -> (r: Option<Vec<u8>>)
    ensures
        match r {
            Some(v) => spec_ipv4(s@) == Some(v@) && v@.len() == 4,
            None => spec_ipv4(s@) is None,
        },
{
    proof {
        assert(s@.subrange(0, s@.len() as int) =~= s@);
    }
    match dotted(s, 0, s.len()) {
        Some(v) => {
            if v.len() == 4 {
                Some(v)
            } else {
                None
            }
        },
        None => None,
    }
}

/// Parse the group list `s[a..b)`, mirroring `spec_groups`.
fn groups(s: &[u8], a: usize, b: usize, v4tail: bool) -> (r: Option<Vec<u16>>)
    requires
        a <= b <= s@.len(),
    ensures
        ({
            let t = s@.subrange(a as int, b as int);
            match r {
                Some(v) => spec_groups(t, v4tail) == Some(v@),
                None => spec_groups(t, v4tail) is None,
            }
        }),
    decreases b - a,
{
    let ghost t = s@.subrange(a as int, b as int);
    let colon = find_byte(s, a, b, 58);
    match colon {
        None => match hex16_value(s, a, b) {
            Some(v) => {
                let mut out: Vec<u16> = Vec::new();
                out.push(v);
                proof {
                    assert(out@ =~= seq![v]);
                }
                Some(out)
            },
            None => {
                if v4tail {
                    proof {
                        assert(s@.subrange(a as int, b as int) =~= s@.subrange(
                            a as int,
                            b as int,
                        ).subrange(0, b - a));
                    }
                    match ipv4_range(s, a, b) {
                        Some(o) => {
                            let g0: u16 = (o[0] as u16) * 256 + (o[1] as u16);
                            let g1: u16 = (o[2] as u16) * 256 + (o[3] as u16);
                            let mut out: Vec<u16> = Vec::new();
                            out.push(g0);
                            out.push(g1);
                            proof {
                                assert(out@ =~= seq![g0, g1]);
                            }
                            Some(out)
                        },
                        None => None,
                    }
                } else {
                    None
                }
            },
        },
        Some(i) => {
            proof {
                assert(t.take(i - a) =~= s@.subrange(a as int, i as int));
                assert(t.skip(i - a + 1) =~= s@.subrange(i + 1, b as int));
            }
            match hex16_value(s, a, i) {
                None => None,
                Some(v) => match groups(s, i + 1, b, v4tail) {
                    None => None,
                    Some(rest) => {
                        let mut out: Vec<u16> = Vec::new();
                        out.push(v);
                        let mut k: usize = 0;
                        while k < rest.len()
                            invariant
                                k <= rest@.len(),
                                out@ == seq![v] + rest@.take(k as int),
                            decreases rest@.len() - k,
                        {
                            out.push(rest[k]);
                            proof {
                                assert(seq![v] + rest@.take(k + 1) =~= (seq![v] + rest@.take(
                                    k as int,
                                )).push(rest@[k as int]));
                            }
                            k = k + 1;
                        }
                        proof {
                            assert(rest@.take(rest@.len() as int) =~= rest@);
                        }
                        Some(out)
                    },
                },
            }
        },
    }
}

/// Parse `s[a..b)` as an IPv4 literal.
fn ipv4_range(s: &[u8], a: usize, b: usize) -> (r: Option<Vec<u8>>)
    requires
        a <= b <= s@.len(),
    ensures
        ({
            let t = s@.subrange(a as int, b as int);
            match r {
                Some(v) => spec_ipv4(t) == Some(v@) && v@.len() == 4,
                None => spec_ipv4(t) is None,
            }
        }),
{
    match dotted(s, a, b) {
        Some(v) => {
            if v.len() == 4 {
                Some(v)
            } else {
                None
            }
        },
        None => None,
    }
}

/// Parse `s` whole as an IPv6 literal, yielding its sixteen bytes.
pub fn parse_ipv6(s: &[u8]) -> (r: Option<Vec<u8>>)
    ensures
        match r {
            Some(v) => spec_ipv6(s@) == Some(v@) && v@.len() == 16,
            None => spec_ipv6(s@) is None,
        },
{
    let slen = s.len();
    let mut cc: Vec<u8> = Vec::new();
    cc.push(58);
    cc.push(58);
    proof {
        assert(cc@ =~= coloncolon());
        assert(s@.skip(0) =~= s@);
        assert(s@.subrange(0, slen as int) =~= s@);
    }
    let dc = find_pattern(s, 0, cc.as_slice());
    match dc {
        None => {
            match groups(s, 0, slen, true) {
                Some(g) => {
                    if g.len() == 8 {
                        Some(groups_to_bytes(&g))
                    } else {
                        None
                    }
                },
                None => None,
            }
        },
        Some(d) => {
            let left: Option<Vec<u16>> = if d == 0 {
                Some(Vec::new())
            } else {
                proof {
                    assert(s@.take(d as int) =~= s@.subrange(0, d as int));
                }
                groups(s, 0, d, false)
            };
            let right: Option<Vec<u16>> = if d + 2 == slen {
                Some(Vec::new())
            } else {
                proof {
                    assert(s@.skip(d + 2) =~= s@.subrange(d + 2, slen as int));
                }
                groups(s, d + 2, slen, true)
            };
            match (left, right) {
                (Some(l), Some(r)) => {
                    if l.len() <= 7 && r.len() <= 7 - l.len() {
                        let fill: usize = 8 - l.len() - r.len();
                        let mut all: Vec<u16> = l;
                        let ghost lv = all@;
                        let mut k: usize = 0;
                        while k < fill
                            invariant
                                k <= fill,
                                all@ == lv + zero_groups(k as int),
                            decreases fill - k,
                        {
                            all.push(0);
                            proof {
                                assert(lv + zero_groups(k + 1) =~= (lv + zero_groups(
                                    k as int,
                                )).push(0u16));
                            }
                            k = k + 1;
                        }
                        let ghost mid = all@;
                        let mut k2: usize = 0;
                        while k2 < r.len()
                            invariant
                                k2 <= r@.len(),
                                all@ == mid + r@.take(k2 as int),
                            decreases r@.len() - k2,
                        {
                            all.push(r[k2]);
                            proof {
                                assert(mid + r@.take(k2 + 1) =~= (mid + r@.take(k2 as int)).push(
                                    r@[k2 as int],
                                ));
                            }
                            k2 = k2 + 1;
                        }
                        proof {
                            assert(r@.take(r@.len() as int) =~= r@);
                            assert(all@ =~= lv + zero_groups(fill as int) + r@);
                        }
                        Some(groups_to_bytes(&all))
                    } else {
                        None
                    }
                },
                _ => None,
            }
        },
    }
}

/// The big-endian bytes of a group list.
fn groups_to_bytes(g: &Vec<u16>) -> (r: Vec<u8>)
    ensures
        r@ == groups_bytes(g@),
{
    let mut out: Vec<u8> = Vec::new();
    let mut i: usize = 0;
    while i < g.len()
        invariant
            i <= g@.len(),
            out@.len() == 2 * i,
            forall|k: int| 0 <= k < 2 * i ==> out@[k] == groups_bytes(g@)[k],
        decreases g@.len() - i,
    {
        let hi: u8 = (g[i] / 256) as u8;
        let lo: u8 = (g[i] % 256) as u8;
        out.push(hi);
        out.push(lo);
        proof {
            assert(groups_bytes(g@)[2 * i] == hi);
            assert(groups_bytes(g@)[2 * i + 1] == lo);
        }
        i = i + 1;
    }
    proof {
        assert(out@ =~= groups_bytes(g@));
    }
    out
}

} // verus!
