//! Byte-level text helpers shared by the MSF, cue sheet and CHD metadata parsers.
use vstd::prelude::*;

verus! {

/// ASCII white space: tab, line feed, vertical tab, form feed, carriage
/// return and space.
pub open spec fn is_space(c: u8) -> bool {
    c == 32 || (9 <= c && c <= 13)
}

/// The two-byte UTF-8 encodings of white space: U+0085 and U+00A0.
pub open spec fn is_space2(a: u8, b: u8) -> bool {
    a == 0xC2 && (b == 0x85 || b == 0xA0)
}

/// The three-byte UTF-8 encodings of white space: U+1680, U+2000 to U+200A,
/// U+2028, U+2029, U+202F, U+205F and U+3000.
pub open spec fn is_space3(a: u8, b: u8, c: u8) -> bool {
    (a == 0xE1 && b == 0x9A && c == 0x80) || (a == 0xE2 && b == 0x80 && ((0x80 <= c && c <= 0x8A)
        || c == 0xA8 || c == 0xA9 || c == 0xAF)) || (a == 0xE2 && b == 0x81 && c == 0x9F) || (a
        == 0xE3 && b == 0x80 && c == 0x80)
}

/// Length in bytes of the white-space character that `t` starts with, or 0.
/// White space is Unicode's White_Space property, over the UTF-8 encoding.
pub open spec fn space_prefix(t: Seq<u8>) -> nat {
    if t.len() >= 1 && is_space(t[0]) {
        1
    } else if t.len() >= 2 && is_space2(t[0], t[1]) {
        2
    } else if t.len() >= 3 && is_space3(t[0], t[1], t[2]) {
        3
    } else {
        0
    }
}

/// Length in bytes of the white-space character that `t` ends with, or 0.
pub open spec fn space_suffix(t: Seq<u8>) -> nat {
    let n = t.len();
    if n >= 1 && is_space(t[n - 1]) {
        1
    } else if n >= 2 && is_space2(t[n - 2], t[n - 1]) {
        2
    } else if n >= 3 && is_space3(t[n - 3], t[n - 2], t[n - 1]) {
        3
    } else {
        0
    }
}

/// Length of the white-space character at position `i` of `s`, or 0.
pub open spec fn space_at(s: Seq<u8>, i: int) -> nat {
    space_prefix(s.subrange(i, s.len() as int))
}

pub fn prefix_space(s: &[u8], a: usize, hi: usize) -> (n: usize)
    requires
        a <= hi <= s@.len(),
    ensures
        n == space_prefix(s@.subrange(a as int, hi as int)),
        n <= hi - a,
{
    let ghost t = s@.subrange(a as int, hi as int);
    let len = hi - a;
    if len >= 1 && (s[a] == 32 || (9 <= s[a] && s[a] <= 13)) {
        assert(t[0] == s@[a as int]);
        1
    } else if len >= 2 && s[a] == 0xC2 && (s[a + 1] == 0x85 || s[a + 1] == 0xA0) {
        assert(t[0] == s@[a as int] && t[1] == s@[a + 1]);
        2
    } else if len >= 3 && ((s[a] == 0xE1 && s[a + 1] == 0x9A && s[a + 2] == 0x80) || (s[a] == 0xE2
        && s[a + 1] == 0x80 && ((0x80 <= s[a + 2] && s[a + 2] <= 0x8A) || s[a + 2] == 0xA8 || s[a
        + 2] == 0xA9 || s[a + 2] == 0xAF)) || (s[a] == 0xE2 && s[a + 1] == 0x81 && s[a + 2] == 0x9F)
        || (s[a] == 0xE3 && s[a + 1] == 0x80 && s[a + 2] == 0x80)) {
        assert(t[0] == s@[a as int] && t[1] == s@[a + 1] && t[2] == s@[a + 2]);
        3
    } else {
        proof {
            if len >= 1 {
                assert(t[0] == s@[a as int]);
            }
            if len >= 2 {
                assert(t[1] == s@[a + 1]);
            }
            if len >= 3 {
                assert(t[2] == s@[a + 2]);
            }
        }
        0
    }
}

pub fn suffix_space(s: &[u8], lo: usize, b: usize) -> (n: usize)
    requires
        lo <= b <= s@.len(),
    ensures
        n == space_suffix(s@.subrange(lo as int, b as int)),
        n <= b - lo,
{
    let ghost t = s@.subrange(lo as int, b as int);
    let len = b - lo;
    if len >= 1 && (s[b - 1] == 32 || (9 <= s[b - 1] && s[b - 1] <= 13)) {
        assert(t[len - 1] == s@[b - 1]);
        1
    } else if len >= 2 && s[b - 2] == 0xC2 && (s[b - 1] == 0x85 || s[b - 1] == 0xA0) {
        assert(t[len - 2] == s@[b - 2] && t[len - 1] == s@[b - 1]);
        2
    } else if len >= 3 && ((s[b - 3] == 0xE1 && s[b - 2] == 0x9A && s[b - 1] == 0x80) || (s[b - 3]
        == 0xE2 && s[b - 2] == 0x80 && ((0x80 <= s[b - 1] && s[b - 1] <= 0x8A) || s[b - 1] == 0xA8
        || s[b - 1] == 0xA9 || s[b - 1] == 0xAF)) || (s[b - 3] == 0xE2 && s[b - 2] == 0x81 && s[b
        - 1] == 0x9F) || (s[b - 3] == 0xE3 && s[b - 2] == 0x80 && s[b - 1] == 0x80)) {
        assert(t[len - 3] == s@[b - 3] && t[len - 2] == s@[b - 2] && t[len - 1] == s@[b - 1]);
        3
    } else {
        proof {
            if len >= 1 {
                assert(t[len - 1] == s@[b - 1]);
            }
            if len >= 2 {
                assert(t[len - 2] == s@[b - 2]);
            }
            if len >= 3 {
                assert(t[len - 3] == s@[b - 3]);
            }
        }
        0
    }
}

pub open spec fn is_digit(c: u8) -> bool {
    48 <= c && c <= 57
}

/// The text with leading white space removed.
pub open spec fn trim_start(s: Seq<u8>) -> Seq<u8>
    decreases s.len(),
{
    if space_prefix(s) > 0 {
        trim_start(s.subrange(space_prefix(s) as int, s.len() as int))
    } else {
        s
    }
}

/// The text with trailing white space removed.
pub open spec fn trim_end(s: Seq<u8>) -> Seq<u8>
    decreases s.len(),
{
    if space_suffix(s) > 0 {
        trim_end(s.subrange(0, s.len() - space_suffix(s)))
    } else {
        s
    }
}

pub open spec fn trim(s: Seq<u8>) -> Seq<u8> {
    trim_end(trim_start(s))
}

/// Value of a string of decimal digits.
pub open spec fn digits_value(s: Seq<u8>) -> nat
    decreases s.len(),
{
    if s.len() == 0 {
        0
    } else {
        digits_value(s.drop_last()) * 10 + (s.last() - 48) as nat
    }
}

/// The digits of an unsigned decimal field: an optional leading `+` is dropped.
pub open spec fn unsigned_digits(s: Seq<u8>) -> Seq<u8> {
    if s.len() > 0 && s[0] == 43 {
        s.drop_first()
    } else {
        s
    }
}

/// The value of an unsigned decimal field (`+` sign optional), if it is well formed.
pub open spec fn decimal_value(s: Seq<u8>) -> Option<nat> {
    let d = unsigned_digits(s);
    if d.len() > 0 && (forall|i: int| 0 <= i < d.len() ==> is_digit(#[trigger] d[i])) {
        Some(digits_value(d))
    } else {
        None
    }
}

/// A decimal field read into an integer type whose largest value is `max`.
pub open spec fn decimal_in(s: Seq<u8>, max: nat) -> Option<nat> {
    match decimal_value(s) {
        Some(v) => if v <= max { Some(v) } else { None },
        None => None,
    }
}

/// Index of the first `c` at or after `start`, or the length when there is none.
pub open spec fn find_from(s: Seq<u8>, c: u8, start: int) -> int
    decreases s.len() - start,
{
    if start >= s.len() {
        s.len() as int
    } else if s[start] == c {
        start
    } else {
        find_from(s, c, start + 1)
    }
}

proof fn lemma_digits_prefix_monotone(s: Seq<u8>, i: int)
    requires
        0 <= i <= s.len(),
    ensures
        digits_value(s.subrange(0, i)) <= digits_value(s),
    decreases s.len() - i,
{
    if i < s.len() {
        lemma_digits_prefix_monotone(s, i + 1);
        let p = s.subrange(0, i + 1);
        assert(p.drop_last() =~= s.subrange(0, i));
    } else {
        assert(s.subrange(0, i) =~= s);
    }
}

/// Finds the bounds of `s[lo..hi]` with surrounding whitespace removed.
pub fn trim_bounds(s: &[u8], lo: usize, hi: usize) -> (r: (usize, usize))
    requires
        lo <= hi <= s@.len(),
    ensures
        lo <= r.0 <= r.1 <= hi,
        s@.subrange(r.0 as int, r.1 as int) == trim(s@.subrange(lo as int, hi as int)),
{
    let mut a = lo;
    loop
        invariant
            lo <= a <= hi <= s@.len(),
            trim_start(s@.subrange(lo as int, hi as int)) == trim_start(s@.subrange(a as int, hi as int)),
        ensures
            lo <= a <= hi,
            space_prefix(s@.subrange(a as int, hi as int)) == 0,
            trim_start(s@.subrange(lo as int, hi as int)) == trim_start(s@.subrange(a as int, hi as int)),
        decreases hi - a,
    {
        let n = prefix_space(s, a, hi);
        if n == 0 {
            break;
        }
        assert(s@.subrange(a as int, hi as int).subrange(n as int, hi - a) =~= s@.subrange(a + n, hi as int));
        a = a + n;
    }
    let ghost t = s@.subrange(a as int, hi as int);
    assert(trim_start(t) == t);
    let mut b = hi;
    loop
        invariant
            lo <= a <= b <= hi <= s@.len(),
            t == s@.subrange(a as int, hi as int),
            trim_start(s@.subrange(lo as int, hi as int)) == t,
            trim_end(t) == trim_end(s@.subrange(a as int, b as int)),
        ensures
            a <= b <= hi,
            space_suffix(s@.subrange(a as int, b as int)) == 0,
            trim_end(t) == trim_end(s@.subrange(a as int, b as int)),
        decreases b - a,
    {
        let n = suffix_space(s, a, b);
        if n == 0 {
            break;
        }
        assert(s@.subrange(a as int, b as int).subrange(0, b - a - n) =~= s@.subrange(a as int, b - n));
        b = b - n;
    }
    (a, b)
}

/// Reads the unsigned decimal field `s[lo..hi]` into an integer no larger than `max`.
pub fn parse_decimal(s: &[u8], lo: usize, hi: usize, max: u32) -> (r: Option<u32>)
    requires
        lo <= hi <= s@.len(),
    ensures
        match decimal_in(s@.subrange(lo as int, hi as int), max as nat) {
            Some(v) => r == Some(v as u32),
            None => r is None,
        },
{
    let ghost f = s@.subrange(lo as int, hi as int);
    let mut i = lo;
    if i < hi && s[i] == 43 {
        i = i + 1;
    }
    let ghost start = i as int;
    let ghost d = unsigned_digits(f);
    assert(d =~= s@.subrange(start, hi as int));
    if i == hi {
        return None;
    }
    let mut acc: u64 = 0;
    while i < hi
        invariant
            start <= i <= hi <= s@.len(),
            lo <= start,
            d == s@.subrange(start, hi as int),
            f == s@.subrange(lo as int, hi as int),
            d == unsigned_digits(f),
            d.len() > 0,
            acc <= max,
            acc == digits_value(s@.subrange(start, i as int)),
            forall|k: int| start <= k < i ==> is_digit(s@[k]),
        decreases hi - i,
    {
        let c = s[i];
        if c < 48 || c > 57 {
            assert(!is_digit(d[i - start]));
            assert(decimal_value(f) is None);
            return None;
        }
        let ghost p = s@.subrange(start, i + 1);
        assert(p.drop_last() =~= s@.subrange(start, i as int));
        let next: u64 = acc * 10 + (c - 48) as u64;
        if next > max as u64 {
            proof {
                assert(d.subrange(0, i + 1 - start) =~= p);
                lemma_digits_prefix_monotone(d, i + 1 - start);
                assert(digits_value(p) == acc * 10 + (c - 48));
                assert(digits_value(d) > max);
                assert(decimal_in(f, max as nat) is None);
            }
            return None;
        }
        acc = next;
        i = i + 1;
    }
    assert(s@.subrange(start, i as int) =~= d);
    assert(forall|k: int| 0 <= k < d.len() ==> is_digit(#[trigger] d[k])) by {
        assert(forall|k: int| 0 <= k < d.len() ==> d[k] == s@[start + k]);
    }
    Some(acc as u32)
}


/// The whitespace-separated tokens of `s[i..]`; `start` is where the token
/// being read began, if one is being read.
pub open spec fn tokens_from(s: Seq<u8>, i: int, start: Option<int>) -> Seq<Seq<u8>>
    decreases s.len() - i,
{
    if i < 0 {
        Seq::empty()
    } else if i >= s.len() {
        match start {
            Some(a) => seq![s.subrange(a, s.len() as int)],
            None => Seq::empty(),
        }
    } else if space_at(s, i) > 0 {
        match start {
            Some(a) => seq![s.subrange(a, i)] + tokens_from(s, i + space_at(s, i), None),
            None => tokens_from(s, i + space_at(s, i), None),
        }
    } else {
        match start {
            Some(a) => tokens_from(s, i + 1, Some(a)),
            None => tokens_from(s, i + 1, Some(i)),
        }
    }
}

/// The whitespace-separated tokens of a line.
pub open spec fn tokens(s: Seq<u8>) -> Seq<Seq<u8>> {
    tokens_from(s, 0, None)
}

pub open spec fn upper(c: u8) -> u8 {
    if 97 <= c && c <= 122 {
        (c - 32) as u8
    } else {
        c
    }
}

/// ASCII upper case of a byte string.
pub open spec fn upper_seq(s: Seq<u8>) -> Seq<u8> {
    Seq::new(s.len(), |i: int| upper(s[i]))
}

/// The subranges of `s` that the bounds in `b` select.
pub open spec fn pieces(s: Seq<u8>, b: Seq<(usize, usize)>) -> Seq<Seq<u8>> {
    Seq::new(b.len(), |k: int| s.subrange(b[k].0 as int, b[k].1 as int))
}

/// The lines of `t[i..]`, the current one having begun at `start`.
pub open spec fn lines_from(t: Seq<u8>, i: int, start: int) -> Seq<Seq<u8>>
    decreases t.len() - i,
{
    if i >= t.len() {
        if start < t.len() {
            seq![strip_cr(t.subrange(start, t.len() as int))]
        } else {
            Seq::empty()
        }
    } else if t[i] == 10 {
        seq![strip_cr(t.subrange(start, i))] + lines_from(t, i + 1, i + 1)
    } else {
        lines_from(t, i + 1, start)
    }
}

/// The lines of a text: split at `\n`, a `\r` before it dropped, no line after
/// a final `\n`.
pub open spec fn lines_of(t: Seq<u8>) -> Seq<Seq<u8>> {
    lines_from(t, 0, 0)
}

pub open spec fn strip_cr(l: Seq<u8>) -> Seq<u8> {
    if l.len() > 0 && l.last() == 13 {
        l.drop_last()
    } else {
        l
    }
}

/// Bounds of the whitespace-separated tokens of `s[lo..hi]`.
pub fn split_tokens(s: &[u8], lo: usize, hi: usize) -> (r: Vec<(usize, usize)>)
    requires
        lo <= hi <= s@.len(),
    ensures
        pieces(s@, r@) == tokens(s@.subrange(lo as int, hi as int)),
        forall|k: int| 0 <= k < r@.len() ==> lo <= #[trigger] r@[k].0 <= r@[k].1 <= hi,
{
    let ghost t = s@.subrange(lo as int, hi as int);
    let mut out: Vec<(usize, usize)> = Vec::new();
    let mut start: Option<usize> = None;
    let mut i = lo;
    while i < hi
        invariant
            lo <= i <= hi <= s@.len(),
            t == s@.subrange(lo as int, hi as int),
            forall|k: int| 0 <= k < out@.len() ==> lo <= #[trigger] out@[k].0 <= out@[k].1 <= hi,
            match start {
                Some(a) => lo <= a < i,
                None => true,
            },
            tokens(t) == pieces(s@, out@) + tokens_from(
                t,
                i - lo,
                match start {
                    Some(a) => Some(a - lo),
                    None => None::<int>,
                },
            ),
        decreases hi - i,
    {
        let n = prefix_space(s, i, hi);
        assert(t.subrange(i - lo, t.len() as int) =~= s@.subrange(i as int, hi as int));
        if n > 0 {
            if let Some(a) = start {
                let ghost old_out = out@;
                out.push((a, i));
                assert(t.subrange(a - lo, i - lo) =~= s@.subrange(a as int, i as int));
                assert(pieces(s@, out@) =~= pieces(s@, old_out) + seq![t.subrange(a - lo, i - lo)]);
            }
            start = None;
            i = i + n;
        } else {
            if start.is_none() {
                start = Some(i);
            }
            i = i + 1;
        }
    }
    if let Some(a) = start {
        let ghost old_out = out@;
        out.push((a, hi));
        assert(t.subrange(a - lo, t.len() as int) =~= s@.subrange(a as int, hi as int));
        assert(pieces(s@, out@) =~= pieces(s@, old_out) + seq![t.subrange(a - lo, t.len() as int)]);
    } else {
        assert(pieces(s@, out@) + Seq::<Seq<u8>>::empty() =~= pieces(s@, out@));
    }
    out
}

/// ASCII upper case of `s[lo..hi]`.
pub fn upper_range(s: &[u8], lo: usize, hi: usize) -> (r: Vec<u8>)
    requires
        lo <= hi <= s@.len(),
    ensures
        r@ == upper_seq(s@.subrange(lo as int, hi as int)),
{
    let mut out: Vec<u8> = Vec::new();
    let mut i = lo;
    while i < hi
        invariant
            lo <= i <= hi <= s@.len(),
            out@ =~= upper_seq(s@.subrange(lo as int, i as int)),
        decreases hi - i,
    {
        let c = s[i];
        let u = if 97 <= c && c <= 122 { c - 32 } else { c };
        out.push(u);
        i = i + 1;
    }
    out
}

/// Copy of `s[lo..hi]`.
pub fn copy_range(s: &[u8], lo: usize, hi: usize) -> (r: Vec<u8>)
    requires
        lo <= hi <= s@.len(),
    ensures
        r@ == s@.subrange(lo as int, hi as int),
{
    let mut out: Vec<u8> = Vec::new();
    let mut i = lo;
    while i < hi
        invariant
            lo <= i <= hi <= s@.len(),
            out@ =~= s@.subrange(lo as int, i as int),
        decreases hi - i,
    {
        out.push(s[i]);
        i = i + 1;
    }
    out
}

pub fn bytes_eq(a: &[u8], b: &[u8]) -> (r: bool)
    ensures
        r == (a@ == b@),
{
    if a.len() != b.len() {
        return false;
    }
    let mut i: usize = 0;
    while i < a.len()
        invariant
            a@.len() == b@.len(),
            i <= a@.len(),
            a@.subrange(0, i as int) == b@.subrange(0, i as int),
        decreases a@.len() - i,
    {
        if a[i] != b[i] {
            assert(a@[i as int] != b@[i as int]);
            return false;
        }
        assert(a@.subrange(0, i + 1) =~= a@.subrange(0, i as int).push(a@[i as int]));
        assert(b@.subrange(0, i + 1) =~= b@.subrange(0, i as int).push(b@[i as int]));
        i = i + 1;
    }
    assert(a@ =~= a@.subrange(0, i as int));
    assert(b@ =~= b@.subrange(0, i as int));
    true
}


fn line_end(s: &[u8], a: usize, e: usize) -> (r: usize)
    requires
        a <= e <= s@.len(),
    ensures
        a <= r <= e,
        s@.subrange(a as int, r as int) == strip_cr(s@.subrange(a as int, e as int)),
{
    if e > a && s[e - 1] == 13 {
        assert(s@.subrange(a as int, e as int).drop_last() =~= s@.subrange(a as int, e - 1));
        e - 1
    } else {
        e
    }
}

/// Bounds of the lines of `s`.
pub fn split_lines(s: &[u8]) -> (r: Vec<(usize, usize)>)
    ensures
        pieces(s@, r@) == lines_of(s@),
        forall|k: int| 0 <= k < r@.len() ==> #[trigger] r@[k].0 <= r@[k].1 <= s@.len(),
{
    let mut out: Vec<(usize, usize)> = Vec::new();
    let mut start: usize = 0;
    let mut i: usize = 0;
    while i < s.len()
        invariant
            start <= i <= s@.len(),
            forall|k: int| 0 <= k < out@.len() ==> #[trigger] out@[k].0 <= out@[k].1 <= s@.len(),
            lines_of(s@) == pieces(s@, out@) + lines_from(s@, i as int, start as int),
        decreases s@.len() - i,
    {
        if s[i] == 10 {
            let e = line_end(s, start, i);
            let ghost old_out = out@;
            out.push((start, e));
            assert(pieces(s@, out@) =~= pieces(s@, old_out) + seq![
                strip_cr(s@.subrange(start as int, i as int)),
            ]);
            start = i + 1;
        }
        i = i + 1;
    }
    if start < s.len() {
        let e = line_end(s, start, s.len());
        let ghost old_out = out@;
        out.push((start, e));
        assert(pieces(s@, out@) =~= pieces(s@, old_out) + seq![
            strip_cr(s@.subrange(start as int, s@.len() as int)),
        ]);
    } else {
        assert(pieces(s@, out@) + Seq::<Seq<u8>>::empty() =~= pieces(s@, out@));
    }
    out
}

} // verus!
