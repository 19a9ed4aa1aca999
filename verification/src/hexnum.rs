//! Hexadecimal digits: the byte-level grammar shared by signature tokens
//! (8-digit expiry, 64-digit MAC, 16-digit range pairs) and content ids.

use vstd::prelude::*;

verus! {

/// The ASCII bytes that stand for a hexadecimal digit, either case.
pub open spec fn is_hex_digit(b: u8) -> bool {
    (48 <= b && b <= 57) || (97 <= b && b <= 102) || (65 <= b && b <= 70)
}

/// Numeric value of a hexadecimal digit byte (0 on non-digits).
pub open spec fn hex_digit_val(b: u8) -> u8 {
    if 48 <= b && b <= 57 {
        (b - 48) as u8
    } else if 97 <= b && b <= 102 {
        (b - 87) as u8
    } else if 65 <= b && b <= 70 {
        (b - 55) as u8
    } else {
        0
    }
}

pub open spec fn all_hex_digits(s: Seq<u8>) -> bool {
    forall|i: int| 0 <= i < s.len() ==> is_hex_digit(#[trigger] s[i])
}

/// Value of a big-endian string of hexadecimal digits.
pub open spec fn hex_seq_val(s: Seq<u8>) -> nat
    decreases s.len(),
{
    if s.len() == 0 {
        0
    } else {
        hex_seq_val(s.drop_last()) * 16 + hex_digit_val(s.last()) as nat
    }
}

pub open spec fn pow16(k: nat) -> nat
    decreases k,
{
    if k == 0 {
        1
    } else {
        16 * pow16((k - 1) as nat)
    }
}

/// Exactly eight hexadecimal digits, read as a 32-bit value.
pub open spec fn parse_hex_u32_spec(s: Seq<u8>) -> Option<u32> {
    if s.len() == 8 && all_hex_digits(s) {
        Some(hex_seq_val(s) as u32)
    } else {
        None
    }
}

pub proof fn lemma_hex_seq_val_bound(s: Seq<u8>)
    ensures
        hex_seq_val(s) < pow16(s.len()),
    decreases s.len(),
{
    if s.len() > 0 {
        lemma_hex_seq_val_bound(s.drop_last());
    }
}

pub proof fn lemma_pow16_8()
    ensures
        pow16(8) == 0x1_0000_0000,
{
    reveal_with_fuel(pow16, 9);
}

pub proof fn lemma_pow16_mono(a: nat, b: nat)
    requires
        a <= b,
    ensures
        pow16(a) <= pow16(b),
    decreases b,
{
    if a < b && b > 0 {
        lemma_pow16_mono(a, (b - 1) as nat);
    }
}

/// Reads a 32-bit value from exactly eight hexadecimal digit bytes, either
/// case; anything else is rejected.
pub fn parse_hex_u32(hex_bytes: &[u8]) -> (r: Option<u32>)
    ensures
        r == parse_hex_u32_spec(hex_bytes@),
{
    if hex_bytes.len() != 8 {
        return None;
    }
    let mut result: u32 = 0;
    let mut i: usize = 0;
    while i < 8
        invariant
            hex_bytes@.len() == 8,
            i <= 8,
            all_hex_digits(hex_bytes@.subrange(0, i as int)),
            result == hex_seq_val(hex_bytes@.subrange(0, i as int)),
        decreases 8 - i,
    {
        let byte = hex_bytes[i];
        let v: u8 = if 48 <= byte && byte <= 57 {
            byte - 48
        } else if 97 <= byte && byte <= 102 {
            byte - 97 + 10
        } else if 65 <= byte && byte <= 70 {
            byte - 65 + 10
        } else {
            assert(!is_hex_digit(hex_bytes@[i as int]));
            return None;
        };
        proof {
            lemma_hex_seq_val_bound(hex_bytes@.subrange(0, i as int));
            lemma_pow16_mono((i + 1) as nat, 8);
            lemma_pow16_8();
            assert(hex_bytes@.subrange(0, i + 1).drop_last() =~= hex_bytes@.subrange(0, i as int));
        }
        result = result * 16 + v as u32;
        i += 1;
    }
    proof {
        assert(hex_bytes@.subrange(0, 8) =~= hex_bytes@);
        lemma_hex_seq_val_bound(hex_bytes@);
        lemma_pow16_8();
    }
    Some(result)
}

/// Lowercase hexadecimal digit byte for a value below 16.
pub open spec fn hex_digit_byte(v: u8) -> u8 {
    if v < 10 {
        (48 + v) as u8
    } else {
        (87 + v) as u8
    }
}

/// Big-endian rendering of `v` as `k` lowercase hexadecimal digit bytes.
pub open spec fn hex_render(v: nat, k: nat) -> Seq<u8>
    decreases k,
{
    if k == 0 {
        Seq::empty()
    } else {
        hex_render(v / 16, (k - 1) as nat).push(hex_digit_byte((v % 16) as u8))
    }
}

/// A 32-bit value as eight lowercase hexadecimal digit bytes.
pub open spec fn u32_hex8(n: u32) -> Seq<u8> {
    hex_render(n as nat, 8)
}

/// Lowercase hex encoding of a byte string, two digits per byte.
pub open spec fn hex_bytes(s: Seq<u8>) -> Seq<u8>
    decreases s.len(),
{
    if s.len() == 0 {
        Seq::empty()
    } else {
        hex_bytes(s.drop_last())
            + seq![hex_digit_byte((s.last() / 16) as u8), hex_digit_byte((s.last() % 16) as u8)]
    }
}

pub proof fn lemma_hex_bytes_len(s: Seq<u8>)
    ensures
        hex_bytes(s).len() == 2 * s.len(),
    decreases s.len(),
{
    if s.len() > 0 {
        lemma_hex_bytes_len(s.drop_last());
    }
}

/// Rendering then parsing gives the value back: the digits are hexadecimal
/// and their big-endian value is `v` whenever `v` fits in `k` digits.
pub proof fn lemma_hex_render_parses(v: nat, k: nat)
    requires
        v < pow16(k),
    ensures
        hex_render(v, k).len() == k,
        all_hex_digits(hex_render(v, k)),
        hex_seq_val(hex_render(v, k)) == v,
    decreases k,
{
    if k > 0 {
        assert(pow16(k) == 16 * pow16((k - 1) as nat));
        lemma_hex_render_parses(v / 16, (k - 1) as nat);
        let r = hex_render(v, k);
        assert(r.drop_last() =~= hex_render(v / 16, (k - 1) as nat));
        assert forall|i: int| 0 <= i < r.len() implies is_hex_digit(#[trigger] r[i]) by {
            if i < r.len() - 1 {
                assert(r[i] == hex_render(v / 16, (k - 1) as nat)[i]);
            }
        }
    }
}

fn hex_digit_byte_exec(v: u8) -> (r: u8)
    requires
        v < 16,
    ensures
        r == hex_digit_byte(v),
{
    if v < 10 {
        48 + v
    } else {
        87 + v
    }
}

/// Appends the `k`-digit lowercase hexadecimal rendering of `v`.
pub fn push_hex_digits(out: &mut Vec<u8>, v: u32, k: usize)
    ensures
        final(out)@ == old(out)@ + hex_render(v as nat, k as nat),
    decreases k,
{
    if k == 0 {
        proof {
            assert(out@ =~= out@ + hex_render(v as nat, 0));
        }
    } else {
        push_hex_digits(out, v / 16, k - 1);
        out.push(hex_digit_byte_exec((v % 16) as u8));
        proof {
            assert(out@ =~= old(out)@ + hex_render(v as nat, k as nat));
        }
    }
}

/// Appends the lowercase hex encoding of `data`, two digits per byte.
pub fn push_hex_bytes(out: &mut Vec<u8>, data: &[u8])
    ensures
        final(out)@ == old(out)@ + hex_bytes(data@),
{
    let n = data.len();
    let mut i: usize = 0;
    proof {
        assert(out@ =~= out@ + hex_bytes(data@.subrange(0, 0)));
    }
    while i < n
        invariant
            n == data@.len(),
            i <= n,
            out@ == old(out)@ + hex_bytes(data@.subrange(0, i as int)),
        decreases n - i,
    {
        let b = data[i];
        out.push(hex_digit_byte_exec(b / 16));
        out.push(hex_digit_byte_exec(b % 16));
        proof {
            let pre = data@.subrange(0, i as int);
            let post = data@.subrange(0, i + 1);
            assert(post.drop_last() =~= pre);
            assert(post.last() == data@[i as int]);
            assert(out@ =~= old(out)@ + hex_bytes(post));
        }
        i += 1;
    }
    proof {
        assert(data@.subrange(0, n as int) =~= data@);
    }
}

} // verus!
