//! Byte-level scanning primitives shared by the request parser and the
//! rewriter: character classes, case-insensitive comparison, substring
//! search, whitespace tokens and trimming.

use vstd::prelude::*;

verus! {

/// The ASCII whitespace bytes; `ws_front` extends the class with the
/// multi-byte Unicode whitespace characters.
pub open spec fn is_ws(c: u8) -> bool {
    c == 32 || (9 <= c && c <= 13)
}

/// ASCII lower-casing of one byte.
pub open spec fn to_lower(c: u8) -> u8 {
    if 65 <= c && c <= 90 {
        (c + 32) as u8
    } else {
        c
    }
}

/// ASCII lower-casing of a byte sequence.
pub open spec fn lower(s: Seq<u8>) -> Seq<u8> {
    Seq::new(s.len(), |i: int| to_lower(s[i]))
}

/// ASCII case-insensitive equality of byte sequences.
pub open spec fn eq_ci(a: Seq<u8>, b: Seq<u8>) -> bool {
    lower(a) == lower(b)
}

/// Index of the first occurrence of the pattern `p` in `s`, if any.
pub open spec fn find_pat(s: Seq<u8>, p: Seq<u8>) -> Option<int>
    decreases s.len(),
{
    if p.len() == 0 {
        Some(0)
    } else if s.len() < p.len() {
        None
    } else if s.subrange(0, p.len() as int) == p {
        Some(0)
    } else {
        match find_pat(s.skip(1), p) {
            Some(j) => Some(j + 1),
            None => None,
        }
    }
}

/// What `find_pat` returns: the first match position, or a proof that no
/// window of `s` equals `p`.
pub proof fn lemma_find_pat(s: Seq<u8>, p: Seq<u8>)
    requires
        p.len() >= 1,
    ensures
        match find_pat(s, p) {
            Some(j) => 0 <= j && j + p.len() <= s.len() && s.subrange(j, j + p.len() as int) == p
                && forall|k: int| 0 <= k < j ==> #[trigger] s.subrange(k, k + p.len() as int) != p,
            None => forall|k: int|
                0 <= k && k + p.len() <= s.len() ==> #[trigger] s.subrange(k, k + p.len() as int) != p,
        },
    decreases s.len(),
{
    if s.len() >= p.len() && s.subrange(0, p.len() as int) != p {
        lemma_find_pat(s.skip(1), p);
        assert forall|k: int| 1 <= k && k + p.len() <= s.len() implies #[trigger] s.subrange(
            k,
            k + p.len() as int,
        ) == s.skip(1).subrange(k - 1, k - 1 + p.len() as int) by {
            assert(s.subrange(k, k + p.len() as int) =~= s.skip(1).subrange(
                k - 1,
                k - 1 + p.len() as int,
            ));
        }
    }
}

/// True when the window of `s` at `j` equals `pat`.
pub fn match_at(s: &[u8], j: usize, pat: &[u8]) -> (r: bool)
    requires
        j <= s@.len(),
    ensures
        r == (j + pat@.len() <= s@.len() && s@.subrange(j as int, j + pat@.len()) == pat@),
{
    if s.len() - j < pat.len() {
        return false;
    }
    let n = s.len();
    let mut i: usize = 0;
    while i < pat.len()
        invariant
            n == s@.len(),
            j + pat@.len() <= s@.len(),
            i <= pat@.len(),
            forall|k: int| 0 <= k < i ==> s@[j + k] == pat@[k],
        decreases pat@.len() - i,
    {
        if s[j + i] != pat[i] {
            proof {
                assert(s@.subrange(j as int, j + pat@.len())[i as int] == s@[j + i]);
            }
            return false;
        }
        i = i + 1;
    }
    proof {
        assert(s@.subrange(j as int, j + pat@.len()) =~= pat@);
    }
    true
}

/// First position at or after `from` where `pat` occurs in `s`.
pub fn find_pattern(s: &[u8], from: usize, pat: &[u8]) -> (r: Option<usize>)
    requires
        from <= s@.len(),
        pat@.len() >= 1,
    ensures
        match r {
            Some(j) => from <= j && j + pat@.len() <= s@.len() && find_pat(
                s@.skip(from as int),
                pat@,
            ) == Some(j - from),
            None => find_pat(s@.skip(from as int), pat@) is None,
        },
{
    let ghost t = s@.skip(from as int);
    let mut j: usize = from;
    loop
        invariant
            from <= j <= s@.len(),
            from <= s@.len(),
            pat@.len() >= 1,
            t == s@.skip(from as int),
            forall|k: int|
                0 <= k < j - from ==> #[trigger] t.subrange(k, k + pat@.len() as int) != pat@,
        decreases s@.len() - j,
    {
        if s.len() - j < pat.len() {
            proof {
                lemma_find_pat(t, pat@);
                if find_pat(t, pat@) is Some {
                    let w = find_pat(t, pat@)->Some_0;
                    assert(w + pat@.len() <= t.len());
                    assert(w < j - from);
                }
            }
            return None;
        }
        if match_at(s, j, pat) {
            proof {
                lemma_find_pat(t, pat@);
                assert(t.subrange(j - from, j - from + pat@.len() as int) =~= s@.subrange(
                    j as int,
                    j + pat@.len(),
                ));
                match find_pat(t, pat@) {
                    Some(w) => {
                        if w < j - from {
                            assert(t.subrange(w, w + pat@.len() as int) == pat@);
                        }
                        if w > j - from {
                            assert(t.subrange(j - from, j - from + pat@.len() as int) != pat@);
                        }
                    },
                    None => {
                        assert(t.subrange(j - from, j - from + pat@.len() as int) != pat@);
                    },
                }
            }
            return Some(j);
        }
        proof {
            assert(t.subrange(j - from, j - from + pat@.len() as int) =~= s@.subrange(
                j as int,
                j + pat@.len(),
            ));
        }
        j = j + 1;
    }
}

/// First position of byte `c` in `s[from..to)`, as `index_of_first` on the
/// subrange.
pub fn find_byte(s: &[u8], from: usize, to: usize, c: u8) -> (r: Option<usize>)
    requires
        from <= to <= s@.len(),
    ensures
        match r {
            Some(j) => from <= j < to && s@.subrange(from as int, to as int).index_of_first(c)
                == Some(j - from),
            None => s@.subrange(from as int, to as int).index_of_first(c) is None,
        },
{
    let ghost t = s@.subrange(from as int, to as int);
    let mut j: usize = from;
    while j < to
        invariant
            from <= j <= to <= s@.len(),
            t == s@.subrange(from as int, to as int),
            forall|k: int| 0 <= k < j - from ==> t[k] != c,
        decreases to - j,
    {
        if s[j] == c {
            proof {
                t.index_of_first_ensures(c);
                assert(t[j - from] == c);
                match t.index_of_first(c) {
                    Some(w) => {},
                    None => {
                        assert(t.contains(c)) by {
                            assert(t[j - from] == c);
                        }
                    },
                }
            }
            return Some(j);
        }
        j = j + 1;
    }
    proof {
        t.index_of_first_ensures(c);
        if t.index_of_first(c) is Some {
            let w = t.index_of_first(c)->Some_0;
            assert(t[w] == c);
        }
    }
    None
}

/// Last position of byte `c` in `s[from..to)`, as `index_of_last` on the
/// subrange.
pub fn rfind_byte(s: &[u8], from: usize, to: usize, c: u8) -> (r: Option<usize>)
    requires
        from <= to <= s@.len(),
    ensures
        match r {
            Some(j) => from <= j < to && s@.subrange(from as int, to as int).index_of_last(c)
                == Some(j - from),
            None => s@.subrange(from as int, to as int).index_of_last(c) is None,
        },
{
    let ghost t = s@.subrange(from as int, to as int);
    let mut j: usize = to;
    while j > from
        invariant
            from <= j <= to <= s@.len(),
            t == s@.subrange(from as int, to as int),
            forall|k: int| j - from <= k < t.len() ==> t[k] != c,
        decreases j,
    {
        j = j - 1;
        if s[j] == c {
            proof {
                t.index_of_last_ensures(c);
                assert(t[j - from] == c);
                match t.index_of_last(c) {
                    Some(w) => {},
                    None => {
                        assert(t.contains(c)) by {
                            assert(t[j - from] == c);
                        }
                    },
                }
            }
            return Some(j);
        }
    }
    proof {
        t.index_of_last_ensures(c);
        if t.index_of_last(c) is Some {
            let w = t.index_of_last(c)->Some_0;
            assert(t[w] == c);
        }
    }
    None
}

/// Length of the whitespace prefix of `s`: whole whitespace characters, as
/// `ws_front` recognizes them.
pub open spec fn ws_len(s: Seq<u8>) -> int
    decreases s.len(),
{
    let w = ws_front(s);
    if w > 0 {
        w + ws_len(s.skip(w))
    } else {
        0
    }
}

/// Length of the prefix of `s` in which no whitespace character starts.
pub open spec fn nonws_len(s: Seq<u8>) -> int
    decreases s.len(),
{
    if s.len() > 0 && ws_front(s) == 0 {
        1 + nonws_len(s.skip(1))
    } else {
        0
    }
}

/// `nonws_len` is the first position where a whitespace character starts,
/// or the length.
pub proof fn lemma_nonws_len(s: Seq<u8>)
    ensures
        0 <= nonws_len(s) <= s.len(),
        forall|k: int| 0 <= k < nonws_len(s) ==> ws_front(#[trigger] s.skip(k)) == 0,
        nonws_len(s) < s.len() ==> ws_front(s.skip(nonws_len(s))) > 0,
    decreases s.len(),
{
    if s.len() > 0 && ws_front(s) == 0 {
        lemma_nonws_len(s.skip(1));
        assert forall|k: int| 0 <= k < nonws_len(s) implies ws_front(#[trigger] s.skip(k))
            == 0 by {
            if k > 0 {
                assert(s.skip(k) =~= s.skip(1).skip(k - 1));
            } else {
                assert(s.skip(0) =~= s);
            }
        }
        if nonws_len(s) < s.len() {
            assert(s.skip(nonws_len(s)) =~= s.skip(1).skip(nonws_len(s) - 1));
        }
    } else if s.len() > 0 {
        assert(s.skip(0) =~= s);
    }
}

/// The next whitespace-separated token of `s` and the remainder after it.
pub open spec fn next_token(s: Seq<u8>) -> Option<(Seq<u8>, Seq<u8>)> {
    let t = s.skip(ws_len(s));
    if t.len() == 0 {
        None
    } else {
        Some((t.take(nonws_len(t)), t.skip(nonws_len(t))))
    }
}

/// `nonws_len` of `s` is `n` when no whitespace starts before `n` and one
/// starts at `n` (or `n` is the length).
pub proof fn lemma_nonws_len_is(s: Seq<u8>, n: int)
    requires
        0 <= n <= s.len(),
        forall|k: int| 0 <= k < n ==> ws_front(#[trigger] s.skip(k)) == 0,
        n < s.len() ==> ws_front(s.skip(n)) > 0,
    ensures
        nonws_len(s) == n,
{
    lemma_nonws_len(s);
    if nonws_len(s) < n {
        assert(ws_front(s.skip(nonws_len(s))) == 0);
    }
    if nonws_len(s) > n {
        assert(ws_front(s.skip(n)) == 0);
    }
}

/// Bounds `[a, b)` of the next token of `s[from..to)`, mirroring
/// `next_token` on the subrange.
pub fn take_token(s: &[u8], from: usize, to: usize) -> (r: Option<(usize, usize)>)
    requires
        from <= to <= s@.len(),
    ensures
        match r {
            Some((a, b)) => {
                let t = s@.subrange(from as int, to as int);
                from <= a < b <= to && next_token(t) == Some(
                    (s@.subrange(a as int, b as int), s@.subrange(b as int, to as int)),
                )
            },
            None => next_token(s@.subrange(from as int, to as int)) is None,
        },
{
    let ghost t = s@.subrange(from as int, to as int);
    let mut a: usize = from;
    loop
        invariant
            from <= a <= to <= s@.len(),
            t == s@.subrange(from as int, to as int),
            ws_len(t) == (a - from) + ws_len(s@.subrange(a as int, to as int)),
        ensures
            from <= a <= to,
            ws_len(t) == a - from,
            ws_front(s@.subrange(a as int, to as int)) == 0,
        decreases to - a,
    {
        let w = ws_front_at(s, a, to);
        if w == 0 {
            break;
        }
        proof {
            assert(s@.subrange(a as int, to as int).skip(w as int) =~= s@.subrange(
                a + w,
                to as int,
            ));
        }
        a = a + w;
    }
    if a == to {
        proof {
            assert(t.skip(a - from).len() == 0);
        }
        return None;
    }
    let ghost u = t.skip(a - from);
    proof {
        assert(u =~= s@.subrange(a as int, to as int));
    }
    let mut b: usize = a;
    loop
        invariant
            from <= a <= b <= to <= s@.len(),
            t == s@.subrange(from as int, to as int),
            u == t.skip(a - from),
            u == s@.subrange(a as int, to as int),
            forall|k: int| 0 <= k < b - a ==> ws_front(#[trigger] u.skip(k)) == 0,
        ensures
            a <= b <= to,
            nonws_len(u) == b - a,
        decreases to - b,
    {
        if b == to {
            proof {
                lemma_nonws_len_is(u, b - a);
            }
            break;
        }
        let w = ws_front_at(s, b, to);
        if w > 0 {
            proof {
                assert(u.skip(b - a) =~= s@.subrange(b as int, to as int));
                lemma_nonws_len_is(u, b - a);
            }
            break;
        }
        proof {
            assert(u.skip(b - a) =~= s@.subrange(b as int, to as int));
        }
        b = b + 1;
    }
    proof {
        assert(nonws_len(u) > 0) by {
            lemma_nonws_len(u.skip(1));
        }
        assert(u.take(b - a) =~= s@.subrange(a as int, b as int));
        assert(u.skip(b - a) =~= s@.subrange(b as int, to as int));
    }
    Some((a, b))
}

/// Executable form of `is_ws`.
pub fn is_ws_byte(c: u8) -> (r: bool)
    ensures
        r == is_ws(c),
{
    c == 32 || (9 <= c && c <= 13)
}

/// The three-byte UTF-8 encodings of the Unicode whitespace code points:
/// U+1680, U+2000 to U+200A, U+2028, U+2029, U+202F, U+205F and U+3000.
pub open spec fn is_ws3(a: u8, b: u8, c: u8) -> bool {
    (a == 0xe1 && b == 0x9a && c == 0x80) || (a == 0xe2 && b == 0x80 && (0x80 <= c && c <= 0x8a))
        || (a == 0xe2 && b == 0x80 && (c == 0xa8 || c == 0xa9 || c == 0xaf)) || (a == 0xe2 && b
        == 0x81 && c == 0x9f) || (a == 0xe3 && b == 0x80 && c == 0x80)
}

/// Width of the Unicode whitespace character at the front of `s`, or zero:
/// one byte of ASCII whitespace, or the two-byte encodings of U+0085 and
/// U+00A0, or a three-byte encoding of `is_ws3`. On valid UTF-8 this is
/// exactly `char::is_whitespace` of the first character.
pub open spec fn ws_front(s: Seq<u8>) -> int {
    if s.len() >= 1 && is_ws(s[0]) {
        1
    } else if s.len() >= 2 && s[0] == 0xc2 && (s[1] == 0x85 || s[1] == 0xa0) {
        2
    } else if s.len() >= 3 && is_ws3(s[0], s[1], s[2]) {
        3
    } else {
        0
    }
}

/// Width of the Unicode whitespace character at the back of `s`, or zero.
/// On valid UTF-8 the three cases are disjoint: a continuation byte is never
/// ASCII whitespace, and the lead bytes 0xC2, 0xE1 to 0xE3 never stand
/// inside a character.
pub open spec fn ws_back(s: Seq<u8>) -> int {
    if s.len() >= 3 && is_ws3(s[s.len() - 3], s[s.len() - 2], s[s.len() - 1]) {
        3
    } else if s.len() >= 2 && s[s.len() - 2] == 0xc2 && (s[s.len() - 1] == 0x85 || s[s.len() - 1]
        == 0xa0) {
        2
    } else if s.len() >= 1 && is_ws(s[s.len() - 1]) {
        1
    } else {
        0
    }
}

/// `s` without its leading whitespace characters.
pub open spec fn trim_start(s: Seq<u8>) -> Seq<u8>
    decreases s.len(),
{
    let w = ws_front(s);
    if w > 0 {
        trim_start(s.skip(w))
    } else {
        s
    }
}

/// `s` without its trailing whitespace characters.
pub open spec fn trim_end(s: Seq<u8>) -> Seq<u8>
    decreases s.len(),
{
    let w = ws_back(s);
    if w > 0 {
        trim_end(s.take(s.len() - w))
    } else {
        s
    }
}

/// `s` with leading and trailing whitespace removed, as `str::trim` removes
/// it on valid UTF-8 text.
pub open spec fn trimmed(s: Seq<u8>) -> Seq<u8> {
    trim_end(trim_start(s))
}

/// Executable form of `ws_front` on the subrange `s[a..to)`.
fn ws_front_at(s: &[u8], a: usize, to: usize) -> (w: usize)
    requires
        a <= to <= s@.len(),
    ensures
        w == ws_front(s@.subrange(a as int, to as int)),
{
    if a < to && is_ws_byte(s[a]) {
        1
    } else if to - a >= 2 && s[a] == 0xc2 && (s[a + 1] == 0x85 || s[a + 1] == 0xa0) {
        2
    } else if to - a >= 3 && is_ws3_bytes(s[a], s[a + 1], s[a + 2]) {
        3
    } else {
        0
    }
}

/// Executable form of `ws_back` on the subrange `s[a..b)`.
fn ws_back_at(s: &[u8], a: usize, b: usize) -> (w: usize)
    requires
        a <= b <= s@.len(),
    ensures
        w == ws_back(s@.subrange(a as int, b as int)),
{
    if b - a >= 3 && is_ws3_bytes(s[b - 3], s[b - 2], s[b - 1]) {
        3
    } else if b - a >= 2 && s[b - 2] == 0xc2 && (s[b - 1] == 0x85 || s[b - 1] == 0xa0) {
        2
    } else if a < b && is_ws_byte(s[b - 1]) {
        1
    } else {
        0
    }
}

/// Executable form of `is_ws3`.
fn is_ws3_bytes(a: u8, b: u8, c: u8) -> (r: bool)
    ensures
        r == is_ws3(a, b, c),
{
    (a == 0xe1 && b == 0x9a && c == 0x80) || (a == 0xe2 && b == 0x80 && (0x80 <= c && c <= 0x8a))
        || (a == 0xe2 && b == 0x80 && (c == 0xa8 || c == 0xa9 || c == 0xaf)) || (a == 0xe2 && b
        == 0x81 && c == 0x9f) || (a == 0xe3 && b == 0x80 && c == 0x80)
}

/// Copy of `s[from..to)` with surrounding whitespace removed, mirroring
/// `trimmed` on the subrange.
pub fn trim_range(s: &[u8], from: usize, to: usize) -> (r: Vec<u8>)
    requires
        from <= to <= s@.len(),
    ensures
        r@ == trimmed(s@.subrange(from as int, to as int)),
{
    let ghost t = s@.subrange(from as int, to as int);
    let mut a: usize = from;
    loop
        invariant
            from <= a <= to <= s@.len(),
            t == s@.subrange(from as int, to as int),
            trim_start(t) == trim_start(s@.subrange(a as int, to as int)),
        ensures
            from <= a <= to,
            trim_start(t) == s@.subrange(a as int, to as int),
        decreases to - a,
    {
        let w = ws_front_at(s, a, to);
        if w == 0 {
            break;
        }
        proof {
            assert(s@.subrange(a as int, to as int).skip(w as int) =~= s@.subrange(
                a + w,
                to as int,
            ));
        }
        a = a + w;
    }
    let ghost u = s@.subrange(a as int, to as int);
    let mut b: usize = to;
    loop
        invariant
            from <= a <= b <= to <= s@.len(),
            u == s@.subrange(a as int, to as int),
            trim_end(u) == trim_end(s@.subrange(a as int, b as int)),
        ensures
            a <= b <= to,
            trim_end(u) == s@.subrange(a as int, b as int),
        decreases b,
    {
        let w = ws_back_at(s, a, b);
        if w == 0 {
            break;
        }
        proof {
            let v = s@.subrange(a as int, b as int);
            assert(v.take(v.len() - w) =~= s@.subrange(a as int, b - w));
        }
        b = b - w;
    }
    copy_range(s, a, b)
}

/// Copy of `s[from..to)` as an owned vector.
pub fn copy_range(s: &[u8], from: usize, to: usize) -> (r: Vec<u8>)
    requires
        from <= to <= s@.len(),
    ensures
        r@ == s@.subrange(from as int, to as int),
{
    let mut v: Vec<u8> = Vec::new();
    let mut i: usize = from;
    while i < to
        invariant
            from <= i <= to <= s@.len(),
            v@ == s@.subrange(from as int, i as int),
        decreases to - i,
    {
        v.push(s[i]);
        proof {
            assert(s@.subrange(from as int, i as int).push(s@[i as int]) =~= s@.subrange(
                from as int,
                i + 1,
            ));
        }
        i = i + 1;
    }
    v
}

/// ASCII case-insensitive equality of two byte slices.
pub fn eq_ignore_case(a: &[u8], b: &[u8]) -> (r: bool)
    ensures
        r == eq_ci(a@, b@),
{
    if a.len() != b.len() {
        proof {
            assert(lower(a@).len() != lower(b@).len());
        }
        return false;
    }
    let mut i: usize = 0;
    while i < a.len()
        invariant
            a@.len() == b@.len(),
            i <= a@.len(),
            forall|k: int| 0 <= k < i ==> to_lower(a@[k]) == to_lower(b@[k]),
        decreases a@.len() - i,
    {
        let ca = lower_byte(a[i]);
        let cb = lower_byte(b[i]);
        if ca != cb {
            proof {
                assert(lower(a@)[i as int] != lower(b@)[i as int]);
            }
            return false;
        }
        i = i + 1;
    }
    proof {
        assert(lower(a@) =~= lower(b@));
    }
    true
}

/// Executable form of `to_lower`.
pub fn lower_byte(c: u8) -> (r: u8)
    ensures
        r == to_lower(c),
{
    if 65 <= c && c <= 90 {
        c + 32
    } else {
        c
    }
}

/// Append `src` to `out`.
pub fn extend_bytes(out: &mut Vec<u8>, src: &[u8])
    ensures
        final(out)@ == old(out)@ + src@,
{
    let mut i: usize = 0;
    while i < src.len()
        invariant
            i <= src@.len(),
            out@ == old(out)@ + src@.take(i as int),
        decreases src@.len() - i,
    {
        out.push(src[i]);
        proof {
            assert(old(out)@ + src@.take(i + 1) =~= (old(out)@ + src@.take(i as int)).push(
                src@[i as int],
            ));
        }
        i = i + 1;
    }
    proof {
        assert(src@.take(src@.len() as int) =~= src@);
    }
}

} // verus!
