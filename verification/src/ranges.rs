//! The `Range` header grammar: `bytes=start-end[,start-end...]`, each part
//! trimmed of ASCII whitespace, an empty start meaning 0 and an empty end
//! meaning the largest 32-bit value.

use vstd::prelude::*;
use vstd::slice::{slice_index_get, slice_subrange};

verus! {

/// First position of `b` in `s`, or the length when `b` does not occur.
pub open spec fn find_byte(s: Seq<u8>, b: u8) -> nat
    decreases s.len(),
{
    if s.len() == 0 {
        0
    } else if s[0] == b {
        0
    } else {
        1 + find_byte(s.skip(1), b)
    }
}

pub proof fn lemma_find_byte(s: Seq<u8>, b: u8)
    ensures
        find_byte(s, b) <= s.len(),
        forall|i: int| 0 <= i < find_byte(s, b) ==> (#[trigger] s[i]) != b,
        find_byte(s, b) < s.len() ==> s[find_byte(s, b) as int] == b,
    decreases s.len(),
{
    if s.len() > 0 && s[0] != b {
        lemma_find_byte(s.skip(1), b);
        assert forall|i: int| 0 <= i < find_byte(s, b) implies (#[trigger] s[i]) != b by {
            if i > 0 {
                assert(s.skip(1)[i - 1] == s[i]);
            }
        }
        if find_byte(s, b) < s.len() {
            assert(s.skip(1)[find_byte(s, b) - 1] == s[find_byte(s, b) as int]);
        }
    }
}

pub proof fn lemma_find_byte_unique(s: Seq<u8>, b: u8, j: nat)
    requires
        j <= s.len(),
        forall|i: int| 0 <= i < j ==> (#[trigger] s[i]) != b,
        j < s.len() ==> s[j as int] == b,
    ensures
        find_byte(s, b) == j,
{
    lemma_find_byte(s, b);
    if find_byte(s, b) < j {
        assert(s[find_byte(s, b) as int] != b);
    } else if j < find_byte(s, b) {
        assert(s[j as int] != b);
    }
}

/// The ASCII whitespace bytes that `str::trim` removes.
pub open spec fn is_ws(b: u8) -> bool {
    b == 32 || (9 <= b && b <= 13)
}

/// Bytes left after dropping leading ASCII whitespace.
pub open spec fn trim_start_spec(s: Seq<u8>) -> Seq<u8>
    decreases s.len(),
{
    if s.len() > 0 && is_ws(s[0]) {
        trim_start_spec(s.skip(1))
    } else {
        s
    }
}

/// Bytes left after dropping trailing ASCII whitespace.
pub open spec fn trim_end_spec(s: Seq<u8>) -> Seq<u8>
    decreases s.len(),
{
    if s.len() > 0 && is_ws(s.last()) {
        trim_end_spec(s.drop_last())
    } else {
        s
    }
}

/// Bytes left after trimming both ends.
pub open spec fn trim_spec(s: Seq<u8>) -> Seq<u8> {
    trim_end_spec(trim_start_spec(s))
}

proof fn lemma_trim_start_fixed(s: Seq<u8>, lo: int)
    requires
        0 <= lo <= s.len(),
        forall|i: int| 0 <= i < lo ==> is_ws(#[trigger] s[i]),
        lo < s.len() ==> !is_ws(s[lo]),
    ensures
        trim_start_spec(s) =~= s.skip(lo),
    decreases lo,
{
    if lo > 0 {
        assert(is_ws(s[0]));
        assert forall|i: int| 0 <= i < lo - 1 implies is_ws(#[trigger] s.skip(1)[i]) by {
            assert(s.skip(1)[i] == s[i + 1]);
        }
        if lo - 1 < s.skip(1).len() {
            assert(s.skip(1)[lo - 1] == s[lo]);
        }
        lemma_trim_start_fixed(s.skip(1), lo - 1);
        assert(s.skip(1).skip(lo - 1) =~= s.skip(lo));
    } else {
        if s.len() > 0 {
            assert(!is_ws(s[0]));
        }
        assert(s.skip(0) =~= s);
    }
}

proof fn lemma_trim_end_fixed(s: Seq<u8>, hi: int)
    requires
        0 <= hi <= s.len(),
        forall|i: int| hi <= i < s.len() ==> is_ws(#[trigger] s[i]),
        hi > 0 ==> !is_ws(s[hi - 1]),
    ensures
        trim_end_spec(s) =~= s.subrange(0, hi),
    decreases s.len(),
{
    if s.len() > 0 && is_ws(s.last()) {
        assert(hi < s.len());
        assert forall|i: int| hi <= i < s.drop_last().len() implies is_ws(
            #[trigger] s.drop_last()[i],
        ) by {
            assert(s.drop_last()[i] == s[i]);
        }
        if hi > 0 {
            assert(s.drop_last()[hi - 1] == s[hi - 1]);
        }
        lemma_trim_end_fixed(s.drop_last(), hi);
        assert(s.drop_last().subrange(0, hi) =~= s.subrange(0, hi));
    } else {
        assert(hi == s.len());
        assert(s.subrange(0, s.len() as int) =~= s);
    }
}

fn is_ws_byte(b: u8) -> (r: bool)
    ensures
        r == is_ws(b),
{
    b == 32 || (9 <= b && b <= 13)
}

/// Trims ASCII whitespace from both ends of a byte slice.
pub fn trim_slice<'a>(s: &'a [u8]) -> (r: &'a [u8])
    ensures
        r@ == trim_spec(s@),
{
    let mut lo: usize = 0;
    while lo < s.len() && is_ws_byte(*slice_index_get(s, lo))
        invariant
            lo <= s@.len(),
            forall|i: int| 0 <= i < lo ==> is_ws(#[trigger] s@[i]),
        decreases s@.len() - lo,
    {
        lo += 1;
    }
    let mut hi: usize = s.len();
    while hi > lo && is_ws_byte(*slice_index_get(s, hi - 1))
        invariant
            lo <= hi <= s@.len(),
            forall|i: int| 0 <= i < lo ==> is_ws(#[trigger] s@[i]),
            forall|i: int| hi <= i < s@.len() ==> is_ws(#[trigger] s@[i]),
        decreases hi,
    {
        hi -= 1;
    }
    proof {
        lemma_trim_start_fixed(s@, lo as int);
        let t = s@.skip(lo as int);
        assert(forall|i: int| 0 <= i < t.len() ==> (#[trigger] t[i]) == s@[lo + i]);
        lemma_trim_end_fixed(t, hi - lo);
        assert(t.subrange(0, hi - lo) =~= s@.subrange(lo as int, hi as int));
    }
    slice_subrange(s, lo, hi)
}

pub open spec fn is_dec_digit(b: u8) -> bool {
    48 <= b && b <= 57
}

pub open spec fn dec_digit_val(b: u8) -> u8 {
    if is_dec_digit(b) {
        (b - 48) as u8
    } else {
        0
    }
}

pub open spec fn all_dec_digits(s: Seq<u8>) -> bool {
    forall|i: int| 0 <= i < s.len() ==> is_dec_digit(#[trigger] s[i])
}

/// Value of a big-endian string of decimal digits.
pub open spec fn dec_seq_val(s: Seq<u8>) -> nat
    decreases s.len(),
{
    if s.len() == 0 {
        0
    } else {
        dec_seq_val(s.drop_last()) * 10 + dec_digit_val(s.last()) as nat
    }
}

proof fn lemma_dec_seq_val_mono(s: Seq<u8>, j: int)
    requires
        0 <= j <= s.len(),
    ensures
        dec_seq_val(s.subrange(0, j)) <= dec_seq_val(s),
    decreases s.len() - j,
{
    if j < s.len() {
        lemma_dec_seq_val_mono(s, j + 1);
        let p = s.subrange(0, j + 1);
        assert(p.drop_last() =~= s.subrange(0, j));
    } else {
        assert(s.subrange(0, j) =~= s);
    }
}

/// A decimal number as `str::parse::<u32>` reads it: an optional leading
/// `+`, then one or more digits, rejected on any other byte or overflow.
pub open spec fn parse_u32_dec_spec(s: Seq<u8>) -> Option<u32> {
    let t = if s.len() > 0 && s[0] == 43 {
        s.skip(1)
    } else {
        s
    };
    if t.len() > 0 && all_dec_digits(t) && dec_seq_val(t) <= 0xFFFF_FFFF {
        Some(dec_seq_val(t) as u32)
    } else {
        None
    }
}

/// Reads a decimal `u32`, accepting an optional leading `+`.
pub fn parse_u32_dec(s: &[u8]) -> (r: Option<u32>)
    ensures
        r == parse_u32_dec_spec(s@),
{
    let t: &[u8] = if s.len() > 0 && *slice_index_get(s, 0) == 43 {
        proof {
            assert(s@.skip(1) =~= s@.subrange(1, s@.len() as int));
        }
        slice_subrange(s, 1, s.len())
    } else {
        s
    };
    if t.len() == 0 {
        return None;
    }
    let mut acc: u64 = 0;
    let mut i: usize = 0;
    while i < t.len()
        invariant
            i <= t@.len(),
            t@.len() > 0,
            if s@.len() > 0 && s@[0] == 43 {
                t@ == s@.skip(1)
            } else {
                t@ == s@
            },
            acc == dec_seq_val(t@.subrange(0, i as int)),
            acc <= 0xFFFF_FFFF,
            all_dec_digits(t@.subrange(0, i as int)),
        decreases t@.len() - i,
    {
        let b = *slice_index_get(t, i);
        if !(48 <= b && b <= 57) {
            assert(!is_dec_digit(t@[i as int]));
            return None;
        }
        let d = (b - 48) as u64;
        proof {
            assert(t@.subrange(0, i + 1).drop_last() =~= t@.subrange(0, i as int));
        }
        acc = acc * 10 + d;
        i += 1;
        if acc > 0xFFFF_FFFF {
            proof {
                lemma_dec_seq_val_mono(t@, i as int);
            }
            return None;
        }
    }
    proof {
        assert(t@.subrange(0, t@.len() as int) =~= t@);
    }
    Some(acc as u32)
}

/// One `start-end` part, trimmed; an empty start is 0, an empty end is the
/// largest 32-bit value, and a part without `-` is rejected.
pub open spec fn parse_range_part_spec(p: Seq<u8>) -> Option<(u32, u32)> {
    let t = trim_spec(p);
    let d = find_byte(t, 45);
    if d == t.len() {
        None
    } else {
        let start_s = t.subrange(0, d as int);
        let end_s = t.skip(d as int + 1);
        let start = if start_s.len() == 0 {
            Some(0u32)
        } else {
            parse_u32_dec_spec(start_s)
        };
        let end = if end_s.len() == 0 {
            Some(0xFFFF_FFFFu32)
        } else {
            parse_u32_dec_spec(end_s)
        };
        match (start, end) {
            (Some(a), Some(b)) => Some((a, b)),
            _ => None,
        }
    }
}

fn parse_range_part(p: &[u8]) -> (r: Option<(u32, u32)>)
    ensures
        r == parse_range_part_spec(p@),
{
    let t = trim_slice(p);
    let mut d: usize = 0;
    while d < t.len() && *slice_index_get(t, d) != 45
        invariant
            d <= t@.len(),
            forall|i: int| 0 <= i < d ==> (#[trigger] t@[i]) != 45,
        decreases t@.len() - d,
    {
        d += 1;
    }
    proof {
        lemma_find_byte_unique(t@, 45, d as nat);
    }
    if d == t.len() {
        return None;
    }
    let start_s = slice_subrange(t, 0, d);
    let end_s = slice_subrange(t, d + 1, t.len());
    proof {
        assert(end_s@ =~= t@.skip(d as int + 1));
    }
    let start: Option<u32> = if start_s.len() == 0 {
        Some(0u32)
    } else {
        parse_u32_dec(start_s)
    };
    let end: Option<u32> = if end_s.len() == 0 {
        Some(0xFFFF_FFFFu32)
    } else {
        parse_u32_dec(end_s)
    };
    match (start, end) {
        (Some(a), Some(b)) => Some((a, b)),
        _ => None,
    }
}

/// The parts after `bytes=`, split on commas; every part must parse.
pub open spec fn parse_parts_spec(s: Seq<u8>) -> Option<Seq<(u32, u32)>>
    decreases s.len(),
{
    let c = find_byte(s, 44);
    let part = s.subrange(0, c as int);
    match parse_range_part_spec(part) {
        None => None,
        Some(r) => if c < s.len() {
            match parse_parts_spec(s.skip(c as int + 1)) {
                None => None,
                Some(rest) => Some(seq![r] + rest),
            }
        } else {
            Some(seq![r])
        },
    }
}

/// A whole `Range` header: the `bytes=` prefix and its comma-separated
/// parts. `None` is every malformed case.
pub open spec fn parse_range_header_spec(h: Seq<u8>) -> Option<Seq<(u32, u32)>> {
    if h.len() >= 6 && h.subrange(0, 6) == seq![98u8, 121u8, 116u8, 101u8, 115u8, 61u8] {
        parse_parts_spec(h.skip(6))
    } else {
        None
    }
}

/// Parses a `Range` header value.
pub fn parse_range_header(h: &[u8]) -> (r: Option<Vec<(u32, u32)>>)
    ensures
        match r {
            Some(v) => parse_range_header_spec(h@) == Some(v@),
            None => parse_range_header_spec(h@) is None,
        },
{
    if h.len() < 6 {
        return None;
    }
    let p0 = *slice_index_get(h, 0);
    let p1 = *slice_index_get(h, 1);
    let p2 = *slice_index_get(h, 2);
    let p3 = *slice_index_get(h, 3);
    let p4 = *slice_index_get(h, 4);
    let p5 = *slice_index_get(h, 5);
    if !(p0 == 98 && p1 == 121 && p2 == 116 && p3 == 101 && p4 == 115 && p5 == 61) {
        proof {
            assert(h@.subrange(0, 6) != seq![98u8, 121u8, 116u8, 101u8, 115u8, 61u8]) by {
                if h@.subrange(0, 6) == seq![98u8, 121u8, 116u8, 101u8, 115u8, 61u8] {
                    assert(h@.subrange(0, 6)[0] == 98u8);
                    assert(h@.subrange(0, 6)[1] == 121u8);
                    assert(h@.subrange(0, 6)[2] == 116u8);
                    assert(h@.subrange(0, 6)[3] == 101u8);
                    assert(h@.subrange(0, 6)[4] == 115u8);
                    assert(h@.subrange(0, 6)[5] == 61u8);
                }
            }
        }
        return None;
    }
    proof {
        assert(h@.subrange(0, 6) =~= seq![98u8, 121u8, 116u8, 101u8, 115u8, 61u8]);
    }
    let mut out: Vec<(u32, u32)> = Vec::new();
    let mut idx: usize = 6;
    proof {
        assert(h@.skip(6).skip(0) =~= h@.skip(6));
        assert(out@ =~= Seq::<(u32, u32)>::empty());
    }
    loop
        invariant
            6 <= idx <= h@.len(),
            parse_range_header_spec(h@) == parse_parts_spec(h@.skip(6)),
            match parse_parts_spec(h@.skip(idx as int)) {
                Some(rest) => parse_parts_spec(h@.skip(6)) == Some(out@ + rest),
                None => parse_parts_spec(h@.skip(6)) is None,
            },
        ensures
            match parse_parts_spec(h@.skip(6)) {
                Some(all) => all == out@,
                None => false,
            },
        decreases h@.len() - idx,
    {
        let ghost s = h@.skip(idx as int);
        proof {
            assert(forall|i: int| 0 <= i < s.len() ==> (#[trigger] s[i]) == h@[idx + i]);
        }
        // scan to the next comma
        let mut c = idx;
        while c < h.len() && *slice_index_get(h, c) != 44
            invariant
                idx <= c <= h@.len(),
                forall|i: int| idx <= i < c ==> (#[trigger] h@[i]) != 44,
            decreases h@.len() - c,
        {
            c += 1;
        }
        proof {
            lemma_find_byte_unique(s, 44, (c - idx) as nat);
        }
        let part = slice_subrange(h, idx, c);
        proof {
            assert(part@ =~= s.subrange(0, (c - idx) as int));
        }
        match parse_range_part(part) {
            None => {
                return None;
            },
            Some(rp) => {
                let ghost out_old = out@;
                out.push(rp);
                if c == h.len() {
                    proof {
                        assert(parse_parts_spec(s) == Some(seq![rp]));
                        assert(out_old + seq![rp] =~= out@);
                    }
                    return Some(out);
                }
                proof {
                    assert(s.skip((c - idx + 1) as int) =~= h@.skip((c + 1) as int));
                    match parse_parts_spec(h@.skip((c + 1) as int)) {
                        Some(r2) => {
                            assert(parse_parts_spec(s) == Some(seq![rp] + r2));
                            assert(out_old + (seq![rp] + r2) =~= out@ + r2);
                        },
                        None => {
                            assert(parse_parts_spec(s) is None);
                        },
                    }
                }
                idx = c + 1;
            },
        }
    }
}

} // verus!
