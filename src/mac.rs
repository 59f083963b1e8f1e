//! Parsing of MAC addresses written as six colon-separated hex bytes.

use vstd::prelude::*;

verus! {

/// Whether `c` is a hexadecimal digit, in either case.
pub open spec fn is_hex_digit(c: char) -> bool {
    ('0' <= c && c <= '9') || ('a' <= c && c <= 'f') || ('A' <= c && c <= 'F')
}

/// The value of the hexadecimal digit `c`.
pub open spec fn hex_digit_value(c: char) -> nat {
    if '0' <= c && c <= '9' {
        (c as nat - '0' as nat) as nat
    } else if 'a' <= c && c <= 'f' {
        (c as nat - 'a' as nat + 10) as nat
    } else {
        (c as nat - 'A' as nat + 10) as nat
    }
}

/// The number written by the hexadecimal digits `d`, most significant first.
pub open spec fn digits_value(d: Seq<char>) -> nat
    decreases d.len(),
{
    if d.len() == 0 {
        0
    } else {
        digits_value(d.drop_last()) * 16 + hex_digit_value(d.last())
    }
}

/// Whether `seg` writes a byte in hexadecimal: one or more hex digits whose
/// value is at most `0xFF` (leading zeros allowed).
pub open spec fn is_byte_segment(seg: Seq<char>) -> bool {
    &&& seg.len() > 0
    &&& forall|i: int| 0 <= i < seg.len() ==> is_hex_digit(#[trigger] seg[i])
    &&& digits_value(seg) <= 0xFF
}

/// The byte that the segment `seg` writes.
pub open spec fn segment_byte(seg: Seq<char>) -> u8 {
    digits_value(seg) as u8
}

/// The byte written by `seg`, if it writes one.
pub open spec fn parse_segment(seg: Seq<char>) -> Option<u8> {
    if is_byte_segment(seg) {
        Some(segment_byte(seg))
    } else {
        None
    }
}

fn hex_digit(c: char) -> (r: Option<u8>)
    ensures
        r is Some <==> is_hex_digit(c),
        r is Some ==> r->0 as nat == hex_digit_value(c) && r->0 < 16,
{
    if '0' <= c && c <= '9' {
        Some(((c as u32) - ('0' as u32)) as u8)
    } else if 'a' <= c && c <= 'f' {
        Some(((c as u32) - ('a' as u32) + 10) as u8)
    } else if 'A' <= c && c <= 'F' {
        Some(((c as u32) - ('A' as u32) + 10) as u8)
    } else {
        None
    }
}

/// Parses one segment of a MAC address as a hexadecimal byte.
pub fn parse_hex_byte(seg: &str) -> (r: Option<u8>)
    ensures
        r == parse_segment(seg@),
{
    let n = seg.unicode_len();
    if n == 0 {
        return None;
    }
    // `acc` saturates at 256, which already rules the segment out.
    let mut acc: u32 = 0;
    let mut i: usize = 0;
    for c in it: seg.chars()
        invariant
            n == seg@.len(),
            it.seq() == seg@,
            i == it.index(),
            forall|k: int| 0 <= k < i ==> is_hex_digit(#[trigger] seg@[k]),
            acc as nat == if digits_value(seg@.subrange(0, i as int)) <= 0xFF {
                digits_value(seg@.subrange(0, i as int))
            } else {
                256
            },
    {
        match hex_digit(c) {
            None => {
                assert(!is_hex_digit(seg@[i as int]));
                return None;
            },
            Some(v) => {
                let ghost prefix = seg@.subrange(0, i as int);
                let ghost next = seg@.subrange(0, i + 1);
                assert(next.drop_last() =~= prefix);
                assert(digits_value(next) == digits_value(prefix) * 16 + v);
                acc = if acc * 16 + (v as u32) > 0xFF { 256 } else { acc * 16 + (v as u32) };
            },
        }
        i = i + 1;
    }
    assert(seg@.subrange(0, n as int) =~= seg@);
    if acc > 0xFF {
        None
    } else {
        Some(acc as u8)
    }
}

/// Number of segments in a MAC address.
pub const MAC_SEGMENTS: usize = 6;

/// Why a string is not a MAC address.
#[derive(Debug, PartialEq, Eq)]
pub enum MacError {
    /// The string does not split into exactly six colon-separated segments.
    WrongSegmentCount,
    /// The segment at `index`, whose text is `segment`, is not a hex byte.
    InvalidSegment { index: usize, segment: String },
}

/// The segments of `s` between colons, as `str::split(':')` yields them:
/// a string with `k` colons has `k + 1` segments, some possibly empty.
pub open spec fn split_colon(s: Seq<char>) -> Seq<Seq<char>>
    decreases s.len(),
{
    if s.len() == 0 {
        seq![Seq::empty()]
    } else {
        let p = split_colon(s.drop_last());
        if s.last() == ':' {
            p.push(Seq::empty())
        } else {
            p.update(p.len() - 1, p.last().push(s.last()))
        }
    }
}

/// Whether `s` is a MAC address: six segments, each a hex byte.
pub open spec fn is_mac(s: Seq<char>) -> bool {
    let parts = split_colon(s);
    &&& parts.len() == MAC_SEGMENTS
    &&& forall|i: int| 0 <= i < MAC_SEGMENTS ==> is_byte_segment(#[trigger] parts[i])
}

/// The bytes that the segments of `s` write, in order.
pub open spec fn mac_bytes(s: Seq<char>) -> Seq<u8> {
    split_colon(s).map_values(|seg: Seq<char>| segment_byte(seg))
}

/// Whether `index` is the first segment of `s` that is not a hex byte.
pub open spec fn is_first_bad_segment(s: Seq<char>, index: int) -> bool {
    let parts = split_colon(s);
    &&& 0 <= index < parts.len()
    &&& !is_byte_segment(parts[index])
    &&& forall|j: int| 0 <= j < index ==> is_byte_segment(#[trigger] parts[j])
}

/// Whether `e` is the error that parsing `s` as a MAC address gives: a wrong
/// segment count takes precedence, then the first segment that is not a byte.
pub open spec fn is_mac_error(s: Seq<char>, e: MacError) -> bool {
    match e {
        MacError::WrongSegmentCount => split_colon(s).len() != MAC_SEGMENTS,
        MacError::InvalidSegment { index, segment } => {
            &&& split_colon(s).len() == MAC_SEGMENTS
            &&& is_first_bad_segment(s, index as int)
            &&& segment@ == split_colon(s)[index as int]
        },
    }
}

/// Whether `a` and `b` are the same character up to ASCII letter case.
pub open spec fn same_char_ignoring_case(a: char, b: char) -> bool {
    ||| a == b
    ||| ('A' <= a && a <= 'Z' && b as u32 == a as u32 + 32)
    ||| ('A' <= b && b <= 'Z' && a as u32 == b as u32 + 32)
}

/// Whether `s` and `t` differ at most in the ASCII case of their letters.
pub open spec fn same_ignoring_case(s: Seq<char>, t: Seq<char>) -> bool {
    &&& s.len() == t.len()
    &&& forall|i: int| 0 <= i < s.len() ==> same_char_ignoring_case(#[trigger] s[i], t[i])
}

proof fn lemma_hex_char_ignores_case(a: char, b: char)
    requires
        same_char_ignoring_case(a, b),
        is_hex_digit(a),
    ensures
        is_hex_digit(b),
        hex_digit_value(a) == hex_digit_value(b),
{
}

proof fn lemma_digits_ignore_case(d: Seq<char>, e: Seq<char>)
    requires
        same_ignoring_case(d, e),
        forall|i: int| 0 <= i < d.len() ==> is_hex_digit(#[trigger] d[i]),
    ensures
        forall|i: int| 0 <= i < e.len() ==> is_hex_digit(#[trigger] e[i]),
        digits_value(d) == digits_value(e),
    decreases d.len(),
{
    assert forall|i: int| 0 <= i < e.len() implies is_hex_digit(#[trigger] e[i]) && hex_digit_value(d[i]) == hex_digit_value(e[i]) by {
        lemma_hex_char_ignores_case(d[i], e[i]);
    }
    if d.len() > 0 {
        let (dp, ep) = (d.drop_last(), e.drop_last());
        assert(same_ignoring_case(dp, ep)) by {
            assert forall|i: int| 0 <= i < dp.len() implies same_char_ignoring_case(#[trigger] dp[i], ep[i]) by {
                assert(dp[i] == d[i] && ep[i] == e[i]);
            }
        }
        lemma_digits_ignore_case(dp, ep);
        assert(hex_digit_value(d.last()) == hex_digit_value(e.last()));
    }
}

proof fn lemma_segment_ignores_case(seg: Seq<char>, other: Seq<char>)
    requires
        same_ignoring_case(seg, other),
    ensures
        is_byte_segment(seg) == is_byte_segment(other),
        is_byte_segment(seg) ==> segment_byte(seg) == segment_byte(other),
{
    assert(same_ignoring_case(other, seg)) by {
        assert forall|i: int| 0 <= i < other.len() implies same_char_ignoring_case(#[trigger] other[i], seg[i]) by {
            assert(same_char_ignoring_case(seg[i], other[i]));
        }
    }
    if forall|i: int| 0 <= i < seg.len() ==> is_hex_digit(#[trigger] seg[i]) {
        lemma_digits_ignore_case(seg, other);
    }
    if forall|i: int| 0 <= i < other.len() ==> is_hex_digit(#[trigger] other[i]) {
        lemma_digits_ignore_case(other, seg);
    }
}

proof fn lemma_split_ignores_case(s: Seq<char>, t: Seq<char>)
    requires
        same_ignoring_case(s, t),
    ensures
        split_colon(s).len() == split_colon(t).len(),
        forall|i: int| 0 <= i < split_colon(s).len() ==> same_ignoring_case(#[trigger] split_colon(s)[i], split_colon(t)[i]),
    decreases s.len(),
{
    if s.len() > 0 {
        let (sp, tp) = (s.drop_last(), t.drop_last());
        assert(same_ignoring_case(sp, tp)) by {
            assert forall|i: int| 0 <= i < sp.len() implies same_char_ignoring_case(#[trigger] sp[i], tp[i]) by {
                assert(sp[i] == s[i] && tp[i] == t[i]);
            }
        }
        lemma_split_ignores_case(sp, tp);
        lemma_split_prefix_len(sp, 0);
        let (a, b) = (split_colon(sp), split_colon(tp));
        assert(same_char_ignoring_case(s.last(), t.last()));
        if s.last() != ':' {
            let (x, y) = (a.last().push(s.last()), b.last().push(t.last()));
            assert(same_ignoring_case(a[a.len() - 1], b[b.len() - 1]));
            assert(same_ignoring_case(x, y)) by {
                assert forall|i: int| 0 <= i < x.len() implies same_char_ignoring_case(#[trigger] x[i], y[i]) by {
                    if i < a.last().len() {
                        assert(same_char_ignoring_case(a.last()[i], b.last()[i]));
                    }
                }
            }
        }
    }
}

/// MAC parsing ignores the case of hex letters: two strings that differ only
/// in letter case are both MAC addresses or neither, and write the same bytes.
pub proof fn lemma_mac_ignores_case(s: Seq<char>, t: Seq<char>)
    requires
        same_ignoring_case(s, t),
    ensures
        is_mac(s) == is_mac(t),
        is_mac(s) ==> mac_bytes(s) == mac_bytes(t),
{
    lemma_split_ignores_case(s, t);
    let (a, b) = (split_colon(s), split_colon(t));
    assert forall|i: int| 0 <= i < a.len() implies is_byte_segment(#[trigger] a[i]) == is_byte_segment(b[i]) && (is_byte_segment(a[i]) ==> segment_byte(a[i]) == segment_byte(b[i])) by {
        lemma_segment_ignores_case(a[i], b[i]);
    }
    if is_mac(s) {
        assert forall|i: int| 0 <= i < MAC_SEGMENTS implies is_byte_segment(#[trigger] b[i]) by {
            assert(is_byte_segment(a[i]));
        }
        assert(mac_bytes(s) =~= mac_bytes(t));
    }
    if is_mac(t) {
        assert forall|i: int| 0 <= i < MAC_SEGMENTS implies is_byte_segment(#[trigger] a[i]) by {
            assert(is_byte_segment(b[i]));
        }
    }
}

/// A prefix of `s` never has more segments than `s` itself.
pub proof fn lemma_split_prefix_len(s: Seq<char>, j: int)
    requires
        0 <= j <= s.len(),
    ensures
        1 <= split_colon(s.subrange(0, j)).len() <= split_colon(s).len(),
    decreases s.len(),
{
    if j < s.len() {
        let t = s.drop_last();
        assert(t.subrange(0, j) =~= s.subrange(0, j));
        lemma_split_prefix_len(t, j);
    } else {
        assert(s.subrange(0, j) =~= s);
        if s.len() > 0 {
            lemma_split_prefix_len(s.drop_last(), 0);
        }
    }
}

/// Parses a MAC address written as six colon-separated hexadecimal bytes
/// (`AA:bb:0C:...`), in either case.
pub fn parse_mac_address(mac: &str) -> (r: Result<[u8; 6], MacError>)
    ensures
        r is Ok <==> is_mac(mac@),
        match r {
            Ok(bytes) => bytes@ == mac_bytes(mac@),
            Err(e) => is_mac_error(mac@, e),
        },
{
    let n = mac.unicode_len();
    let mut bytes: [u8; 6] = [0u8; 6];
    let mut bad: Option<(usize, String)> = None;
    let mut seg_start: usize = 0;
    let mut k: usize = 0;
    let mut i: usize = 0;
    let ghost mut done: Seq<Seq<char>> = Seq::empty();
    assert(mac@.subrange(0, 0) =~= Seq::<char>::empty());
    for c in it: mac.chars()
        invariant
            n == mac@.len(),
            it.seq() == mac@,
            i == it.index(),
            seg_start <= i <= n,
            k < MAC_SEGMENTS,
            done.len() == k,
            split_colon(mac@.subrange(0, i as int)) == done.push(mac@.subrange(seg_start as int, i as int)),
            bad is None ==> forall|j: int| 0 <= j < k ==> is_byte_segment(#[trigger] done[j]) && bytes@[j] == segment_byte(done[j]),
            bad matches Some((bi, bs)) ==> {
                &&& bi < k
                &&& bs@ == done[bi as int]
                &&& !is_byte_segment(done[bi as int])
                &&& forall|j: int| 0 <= j < bi ==> is_byte_segment(#[trigger] done[j])
            },
    {
        let ghost prefix = mac@.subrange(0, i as int);
        let ghost next = mac@.subrange(0, i + 1);
        assert(next.drop_last() =~= prefix);
        if c == ':' {
            if k + 1 == MAC_SEGMENTS {
                proof {
                    lemma_split_prefix_len(mac@, i + 1);
                }
                return Err(MacError::WrongSegmentCount);
            }
            let seg = mac.substring_char(seg_start, i);
            if bad.is_none() {
                match parse_hex_byte(seg) {
                    Some(b) => {
                        bytes[k] = b;
                    },
                    None => {
                        bad = Some((k, seg.to_owned()));
                    },
                }
            }
            proof {
                done = done.push(mac@.subrange(seg_start as int, i as int));
            }
            k = k + 1;
            seg_start = i + 1;
            assert(mac@.subrange(seg_start as int, i + 1) =~= Seq::<char>::empty());
        } else {
            assert(mac@.subrange(seg_start as int, i + 1) =~= mac@.subrange(seg_start as int, i as int).push(c));
            assert(done.push(mac@.subrange(seg_start as int, i as int)).update(k as int, mac@.subrange(seg_start as int, i + 1))
                =~= done.push(mac@.subrange(seg_start as int, i + 1)));
        }
        i = i + 1;
    }
    assert(mac@.subrange(0, n as int) =~= mac@);
    if k + 1 != MAC_SEGMENTS {
        return Err(MacError::WrongSegmentCount);
    }
    let last = mac.substring_char(seg_start, n);
    let ghost parts = split_colon(mac@);
    assert(forall|j: int| 0 <= j < k ==> parts[j] == done[j]);
    match bad {
        Some((index, segment)) => {
            return Err(MacError::InvalidSegment { index, segment });
        },
        None => {},
    }
    match parse_hex_byte(last) {
        Some(b) => {
            bytes[k] = b;
            assert(forall|j: int| 0 <= j < MAC_SEGMENTS ==> is_byte_segment(#[trigger] parts[j]));
            assert(bytes@ =~= mac_bytes(mac@));
            Ok(bytes)
        },
        None => {
            assert(!is_byte_segment(parts[k as int]));
            Err(MacError::InvalidSegment { index: k, segment: last.to_owned() })
        },
    }
}

} // verus!
