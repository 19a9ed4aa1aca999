//! Signed-URL tokens: `{expire as 8 hex}{HMAC-SHA-256 as 64 hex}{8+8 hex per
//! byte range}`, minted and checked over the message
//! `"{path}\n{expire as 8 hex}\n{ranges as hex}"`, with the request's
//! `Range` header cross-validated against the ranges the token embeds.

use vstd::prelude::*;
use vstd::slice::slice_subrange;
use vstd::string::StringSliceAdditionalSpecFns;
use vstd::string::StringExecFns;
use vstd::slice::slice_index_get;
use vstd::arithmetic::div_mod::lemma_mod_multiples_vanish;
use crate::bytestr::{ascii_chars, ascii_to_string, bytes_eq};
use crate::clock::unix_now;
use crate::crypto::{hmac_sha256, hmac_sha256_32, hmac_sha256_bytes};
use crate::hexnum::{
    all_hex_digits, hex_bytes, hex_digit_byte, is_hex_digit, lemma_hex_render_parses,
    lemma_pow16_8, parse_hex_u32, parse_hex_u32_spec, push_hex_bytes, push_hex_digits, u32_hex8,
};
use crate::query::{extract_sign_param, extract_sign_spec, first_dollar_value};
use crate::ranges::{parse_range_header, parse_range_header_spec};

verus! {

/// Why a signed request was rejected. Each kind carries the status class
/// the protocol answers with.
#[derive(Debug, Clone, Copy, PartialEq, Eq, Structural)]
pub enum SignatureError {
    /// No `$` parameter carrying a token.
    MissingToken,
    /// Token too short, bad hex, stray range bytes, or a range header that
    /// could not be read or was not allowed to be present.
    Malformed,
    /// The token's expiry lies before the present time.
    Expired,
    /// The recomputed digest does not match the token's.
    MacMismatch,
    /// The request's ranges differ from the ranges the token embeds.
    RangeMismatch,
}

pub open spec fn status_code_spec(e: SignatureError) -> u16 {
    match e {
        SignatureError::MissingToken => 402,
        SignatureError::Malformed => 400,
        SignatureError::Expired => 402,
        SignatureError::MacMismatch => 402,
        SignatureError::RangeMismatch => 400,
    }
}

impl SignatureError {
    /// The HTTP status the rejection is answered with: payment-required
    /// for missing, expired or forged tokens, bad-request for malformed
    /// tokens and range mismatches.
    pub fn status_code(&self) -> (r: u16)
        ensures
            r == status_code_spec(*self),
    {
        match self {
            SignatureError::MissingToken => 402,
            SignatureError::Malformed => 400,
            SignatureError::Expired => 402,
            SignatureError::MacMismatch => 402,
            SignatureError::RangeMismatch => 400,
        }
    }
}

/// The hex rendering of a range list: eight digits of start then eight of
/// end, per range, in order.
pub open spec fn ranges_hex(ranges: Seq<(u32, u32)>) -> Seq<u8>
    decreases ranges.len(),
{
    if ranges.len() == 0 {
        Seq::empty()
    } else {
        ranges_hex(ranges.drop_last()) + u32_hex8(ranges.last().0) + u32_hex8(ranges.last().1)
    }
}

/// The bytes the MAC is computed over:
/// `"{path}\n{expire as 8 hex}\n{ranges as hex}"`.
pub open spec fn sig_message(path_b: Seq<u8>, expire: u32, ranges: Seq<(u32, u32)>) -> Seq<u8> {
    path_b + seq![10u8] + u32_hex8(expire) + seq![10u8] + ranges_hex(ranges)
}

/// A whole token: expiry, MAC of the message, then the embedded ranges.
pub open spec fn signature_bytes(
    path_b: Seq<u8>,
    expire: u32,
    key: Seq<u8>,
    ranges: Seq<(u32, u32)>,
) -> Seq<u8> {
    u32_hex8(expire) + hex_bytes(hmac_sha256_32(key, sig_message(path_b, expire, ranges)))
        + ranges_hex(ranges)
}

/// The ranges a token embeds after its first 72 digits: 16-digit groups,
/// each eight digits of start then eight of end.
pub open spec fn parse_ranges_spec(s: Seq<u8>) -> Option<Seq<(u32, u32)>>
    decreases s.len(),
{
    if s.len() == 0 {
        Some(Seq::empty())
    } else if s.len() < 16 {
        None
    } else {
        match (parse_hex_u32_spec(s.subrange(0, 8)), parse_hex_u32_spec(s.subrange(8, 16))) {
            (Some(a), Some(b)) => match parse_ranges_spec(s.skip(16)) {
                None => None,
                Some(rest) => Some(seq![(a, b)] + rest),
            },
            _ => None,
        }
    }
}

pub open spec fn opt_str_bytes(o: Option<&str>) -> Option<Seq<u8>> {
    match o {
        Some(s) => Some(s.spec_bytes()),
        None => None,
    }
}

pub open spec fn opt_ranges(o: Option<&[(u32, u32)]>) -> Seq<(u32, u32)> {
    match o {
        Some(rs) => rs@,
        None => Seq::empty(),
    }
}

/// The MAC comparison at the end of verification.
pub open spec fn mac_check_spec(
    path_b: Seq<u8>,
    key: Seq<u8>,
    tok: Seq<u8>,
    expire: u32,
    ranges: Seq<(u32, u32)>,
) -> Result<(), SignatureError> {
    if tok.subrange(8, 72) == hex_bytes(hmac_sha256_32(key, sig_message(path_b, expire, ranges))) {
        Ok(())
    } else {
        Err(SignatureError::MacMismatch)
    }
}

/// Range cross-validation, then the MAC comparison. A token with ranges
/// demands a matching header; a token without forbids one.
pub open spec fn check_ranges_then_mac(
    path_b: Seq<u8>,
    key: Seq<u8>,
    tok: Seq<u8>,
    expire: u32,
    ranges: Seq<(u32, u32)>,
    range_h: Option<Seq<u8>>,
) -> Result<(), SignatureError> {
    match range_h {
        Some(h) => match parse_range_header_spec(h) {
            None => Err(SignatureError::Malformed),
            Some(hr) => if hr != ranges {
                if ranges.len() == 0 {
                    Err(SignatureError::Malformed)
                } else {
                    Err(SignatureError::RangeMismatch)
                }
            } else {
                mac_check_spec(path_b, key, tok, expire, ranges)
            },
        },
        None => if ranges.len() > 0 {
            Err(SignatureError::Malformed)
        } else {
            mac_check_spec(path_b, key, tok, expire, ranges)
        },
    }
}

/// The whole verification verdict, in the order the checks run: token
/// extraction, minimum length, expiry digits, expiry against `now`, the
/// 16-digit grouping of the remainder, range parsing, range
/// cross-validation, and last the MAC.
pub open spec fn verify_sig_spec(
    path_b: Seq<u8>,
    query_b: Option<Seq<u8>>,
    key: Seq<u8>,
    range_h: Option<Seq<u8>>,
    now: u64,
) -> Result<(), SignatureError> {
    let q = match query_b {
        Some(q) => q,
        None => Seq::empty(),
    };
    match extract_sign_spec(q) {
        None => Err(SignatureError::MissingToken),
        Some(tok) => if tok.len() < 72 {
            Err(SignatureError::Malformed)
        } else {
            match parse_hex_u32_spec(tok.subrange(0, 8)) {
                None => Err(SignatureError::Malformed),
                Some(expire) => if (expire as u64) < now {
                    Err(SignatureError::Expired)
                } else if (tok.len() - 72) % 16 != 0 {
                    Err(SignatureError::Malformed)
                } else {
                    match parse_ranges_spec(tok.skip(72)) {
                        None => Err(SignatureError::Malformed),
                        Some(ranges) => check_ranges_then_mac(
                            path_b,
                            key,
                            tok,
                            expire,
                            ranges,
                            range_h,
                        ),
                    }
                },
            }
        },
    }
}

/// Appends the hex rendering of a range list.
fn push_ranges_hex(out: &mut Vec<u8>, rs: &[(u32, u32)])
    ensures
        final(out)@ == old(out)@ + ranges_hex(rs@),
{
    let n = rs.len();
    let mut i: usize = 0;
    proof {
        assert(out@ =~= out@ + ranges_hex(rs@.subrange(0, 0)));
    }
    while i < n
        invariant
            n == rs@.len(),
            i <= n,
            out@ == old(out)@ + ranges_hex(rs@.subrange(0, i as int)),
        decreases n - i,
    {
        let pair = *slice_index_get(rs, i);
        push_hex_digits(out, pair.0, 8);
        push_hex_digits(out, pair.1, 8);
        proof {
            let pre = rs@.subrange(0, i as int);
            let post = rs@.subrange(0, i + 1);
            assert(post.drop_last() =~= pre);
            assert(post.last() == rs@[i as int]);
            assert(out@ =~= old(out)@ + ranges_hex(post));
        }
        i += 1;
    }
    proof {
        assert(rs@.subrange(0, n as int) =~= rs@);
    }
}

/// Builds the MAC message for a path, expiry, and range list.
fn build_sig_message(path_b: &[u8], expire: u32, rs: &[(u32, u32)]) -> (m: Vec<u8>)
    ensures
        m@ == sig_message(path_b@, expire, rs@),
{
    let mut m: Vec<u8> = Vec::new();
    m.extend_from_slice(path_b);
    m.push(10);
    push_hex_digits(&mut m, expire, 8);
    m.push(10);
    push_ranges_hex(&mut m, rs);
    proof {
        assert(m@ =~= sig_message(path_b@, expire, rs@));
    }
    m
}

/// Reads the 16-digit range groups of a token's tail.
fn parse_token_ranges(rest: &[u8]) -> (r: Option<Vec<(u32, u32)>>)
    ensures
        match r {
            Some(v) => parse_ranges_spec(rest@) == Some(v@),
            None => parse_ranges_spec(rest@) is None,
        },
{
    let mut out: Vec<(u32, u32)> = Vec::new();
    let mut i: usize = 0;
    proof {
        assert(rest@.skip(0) =~= rest@);
        assert(out@ =~= Seq::<(u32, u32)>::empty());
    }
    while i < rest.len()
        invariant
            i <= rest@.len(),
            match parse_ranges_spec(rest@.skip(i as int)) {
                Some(t) => parse_ranges_spec(rest@) == Some(out@ + t),
                None => parse_ranges_spec(rest@) is None,
            },
        decreases rest@.len() - i,
    {
        let ghost s = rest@.skip(i as int);
        if rest.len() - i < 16 {
            return None;
        }
        let a = match parse_hex_u32(slice_subrange(rest, i, i + 8)) {
            Some(a) => a,
            None => {
                proof {
                    assert(s.subrange(0, 8) =~= rest@.subrange(i as int, i + 8));
                }
                return None;
            },
        };
        let b = match parse_hex_u32(slice_subrange(rest, i + 8, i + 16)) {
            Some(b) => b,
            None => {
                proof {
                    assert(s.subrange(0, 8) =~= rest@.subrange(i as int, i + 8));
                    assert(s.subrange(8, 16) =~= rest@.subrange(i + 8, i + 16));
                }
                return None;
            },
        };
        let ghost out_old = out@;
        out.push((a, b));
        proof {
            assert(s.subrange(0, 8) =~= rest@.subrange(i as int, i + 8));
            assert(s.subrange(8, 16) =~= rest@.subrange(i + 8, i + 16));
            assert(s.skip(16) =~= rest@.skip(i + 16));
            match parse_ranges_spec(rest@.skip(i + 16)) {
                Some(t) => {
                    assert(parse_ranges_spec(s) == Some(seq![(a, b)] + t));
                    assert(out_old + (seq![(a, b)] + t) =~= out@ + t);
                },
                None => {
                    assert(parse_ranges_spec(s) is None);
                },
            }
        }
        i += 16;
    }
    proof {
        assert(rest@.skip(rest@.len() as int) =~= Seq::<u8>::empty());
        assert(out@ + Seq::<(u32, u32)>::empty() =~= out@);
    }
    Some(out)
}

/// Element-for-element equality of two range lists.
fn ranges_eq(a: &[(u32, u32)], b: &[(u32, u32)]) -> (r: bool)
    ensures
        r == (a@ == b@),
{
    if a.len() != b.len() {
        return false;
    }
    let n = a.len();
    let mut i: usize = 0;
    while i < n
        invariant
            n == a@.len() == b@.len(),
            i <= n,
            forall|k: int| 0 <= k < i ==> a@[k] == #[trigger] b@[k],
        decreases n - i,
    {
        let x = *slice_index_get(a, i);
        let y = *slice_index_get(b, i);
        if x.0 != y.0 || x.1 != y.1 {
            assert(a@[i as int] != b@[i as int]);
            return false;
        }
        i += 1;
    }
    proof {
        assert(a@ =~= b@);
    }
    true
}

proof fn lemma_all_hex_concat(a: Seq<u8>, b: Seq<u8>)
    requires
        all_hex_digits(a),
        all_hex_digits(b),
    ensures
        all_hex_digits(a + b),
{
    assert forall|i: int| 0 <= i < (a + b).len() implies is_hex_digit(#[trigger] (a + b)[i]) by {
        if i < a.len() {
            assert((a + b)[i] == a[i]);
        } else {
            assert((a + b)[i] == b[i - a.len()]);
        }
    }
}

proof fn lemma_u32_hex8_all_hex(n: u32)
    ensures
        all_hex_digits(u32_hex8(n)),
        u32_hex8(n).len() == 8,
{
    lemma_pow16_8();
    lemma_hex_render_parses(n as nat, 8);
}

proof fn lemma_hex_bytes_all_hex(s: Seq<u8>)
    ensures
        all_hex_digits(hex_bytes(s)),
    decreases s.len(),
{
    if s.len() > 0 {
        lemma_hex_bytes_all_hex(s.drop_last());
        let pair = seq![
            hex_digit_byte((s.last() / 16) as u8),
            hex_digit_byte((s.last() % 16) as u8),
        ];
        assert(all_hex_digits(pair)) by {
            assert(pair[0] == hex_digit_byte((s.last() / 16) as u8));
            assert(pair[1] == hex_digit_byte((s.last() % 16) as u8));
        }
        lemma_all_hex_concat(hex_bytes(s.drop_last()), pair);
    }
}

proof fn lemma_ranges_hex_all_hex(rs: Seq<(u32, u32)>)
    ensures
        all_hex_digits(ranges_hex(rs)),
    decreases rs.len(),
{
    if rs.len() > 0 {
        lemma_ranges_hex_all_hex(rs.drop_last());
        lemma_u32_hex8_all_hex(rs.last().0);
        lemma_u32_hex8_all_hex(rs.last().1);
        lemma_all_hex_concat(ranges_hex(rs.drop_last()), u32_hex8(rs.last().0));
        lemma_all_hex_concat(
            ranges_hex(rs.drop_last()) + u32_hex8(rs.last().0),
            u32_hex8(rs.last().1),
        );
        assert(ranges_hex(rs) =~= (ranges_hex(rs.drop_last()) + u32_hex8(rs.last().0)) + u32_hex8(
            rs.last().1,
        ));
    }
}

/// Every byte of a token is a hexadecimal digit.
pub proof fn lemma_signature_bytes_all_hex(
    path_b: Seq<u8>,
    expire: u32,
    key: Seq<u8>,
    ranges: Seq<(u32, u32)>,
)
    ensures
        all_hex_digits(signature_bytes(path_b, expire, key, ranges)),
{
    let mac_hex = hex_bytes(hmac_sha256_32(key, sig_message(path_b, expire, ranges)));
    lemma_u32_hex8_all_hex(expire);
    lemma_hex_bytes_all_hex(hmac_sha256_32(key, sig_message(path_b, expire, ranges)));
    lemma_ranges_hex_all_hex(ranges);
    lemma_all_hex_concat(u32_hex8(expire), mac_hex);
    lemma_all_hex_concat(u32_hex8(expire) + mac_hex, ranges_hex(ranges));
    assert(signature_bytes(path_b, expire, key, ranges) =~= (u32_hex8(expire) + mac_hex)
        + ranges_hex(ranges));
}

/// Mints a token for a path, expiry time, signing secret, and optional
/// range list: the expiry digits, the MAC of the message, and the ranges.
pub fn create_signature(
    path: &str,
    expire_time: u32,
    sign_token: &str,
    ranges: Option<&[(u32, u32)]>,
) -> (r: String)
    ensures
        r@ == ascii_chars(
            signature_bytes(
                path.spec_bytes(),
                expire_time,
                sign_token.spec_bytes(),
                opt_ranges(ranges),
            ),
        ),
{
    let empty_ranges: Vec<(u32, u32)> = Vec::new();
    let rs: &[(u32, u32)] = match ranges {
        Some(rs) => rs,
        None => empty_ranges.as_slice(),
    };
    let mut sig: Vec<u8> = Vec::new();
    push_hex_digits(&mut sig, expire_time, 8);
    let msg = build_sig_message(path.as_bytes(), expire_time, rs);
    let mac = hmac_sha256_bytes(sign_token.as_bytes(), msg.as_slice());
    push_hex_bytes(&mut sig, mac.as_slice());
    push_ranges_hex(&mut sig, rs);
    proof {
        assert(mac@ == hmac_sha256_32(sign_token.spec_bytes(), msg@));
        assert(rs@ =~= opt_ranges(ranges));
        assert(sig@ =~= signature_bytes(
            path.spec_bytes(),
            expire_time,
            sign_token.spec_bytes(),
            opt_ranges(ranges),
        ));
        lemma_signature_bytes_all_hex(
            path.spec_bytes(),
            expire_time,
            sign_token.spec_bytes(),
            opt_ranges(ranges),
        );
        assert(forall|i: int| 0 <= i < sig@.len() ==> (#[trigger] sig@[i]) < 128) by {
            assert(all_hex_digits(sig@));
        }
    }
    ascii_to_string(sig)
}

/// Checks a request's signature at a given moment `now`: token extraction
/// from the `$` query parameter, expiry, range cross-validation, and the
/// MAC, exactly in the order of `verify_sig_spec`.
pub fn verify_signature_at(
    path: &str,
    query: Option<&str>,
    sign_token: &str,
    range_header: Option<&str>,
    now: u64,
) -> (r: Result<(), SignatureError>)
    ensures
        r == verify_sig_spec(
            path.spec_bytes(),
            opt_str_bytes(query),
            sign_token.spec_bytes(),
            opt_str_bytes(range_header),
            now,
        ),
{
    let tok_opt: Option<Vec<u8>> = match query {
        Some(q) => extract_sign_param(q.as_bytes()),
        None => {
            proof {
                assert(first_dollar_value(Seq::<u8>::empty()) is None);
            }
            None
        },
    };
    let tok = match tok_opt {
        Some(t) => t,
        None => {
            return Err(SignatureError::MissingToken);
        },
    };
    if tok.len() < 72 {
        return Err(SignatureError::Malformed);
    }
    let expire = match parse_hex_u32(slice_subrange(tok.as_slice(), 0, 8)) {
        Some(e) => e,
        None => {
            return Err(SignatureError::Malformed);
        },
    };
    if (expire as u64) < now {
        return Err(SignatureError::Expired);
    }
    if (tok.len() - 72) % 16 != 0 {
        return Err(SignatureError::Malformed);
    }
    proof {
        assert(tok@.skip(72) =~= tok@.subrange(72, tok@.len() as int));
    }
    let ranges = match parse_token_ranges(slice_subrange(tok.as_slice(), 72, tok.len())) {
        Some(v) => v,
        None => {
            return Err(SignatureError::Malformed);
        },
    };
    match range_header {
        Some(h) => {
            match parse_range_header(h.as_bytes()) {
                None => {
                    return Err(SignatureError::Malformed);
                },
                Some(hr) => {
                    if !ranges_eq(hr.as_slice(), ranges.as_slice()) {
                        if ranges.len() == 0 {
                            return Err(SignatureError::Malformed);
                        }
                        return Err(SignatureError::RangeMismatch);
                    }
                },
            }
        },
        None => {
            if ranges.len() > 0 {
                return Err(SignatureError::Malformed);
            }
        },
    }
    let msg = build_sig_message(path.as_bytes(), expire, ranges.as_slice());
    let mac = hmac_sha256_bytes(sign_token.as_bytes(), msg.as_slice());
    let mut mac_hex: Vec<u8> = Vec::new();
    push_hex_bytes(&mut mac_hex, mac.as_slice());
    proof {
        assert(mac@ == hmac_sha256_32(sign_token.spec_bytes(), msg@));
        assert(mac_hex@ =~= hex_bytes(mac@));
    }
    if !bytes_eq(slice_subrange(tok.as_slice(), 8, 72), mac_hex.as_slice()) {
        return Err(SignatureError::MacMismatch);
    }
    Ok(())
}

/// Checks a request's signature against the clock of this moment. The
/// verdict is that of `verify_sig_spec` for the instant the clock gave.
pub fn verify_signature(
    path: &str,
    query: Option<&str>,
    sign_token: &str,
    range_header: Option<&str>,
) -> (r: Result<(), SignatureError>)
    ensures
        exists|t: u64|
            r == #[trigger] verify_sig_spec(
                path.spec_bytes(),
                opt_str_bytes(query),
                sign_token.spec_bytes(),
                opt_str_bytes(range_header),
                t,
            ),
{
    let now = unix_now();
    verify_signature_at(path, query, sign_token, range_header, now)
}

/// A clock reading plus an offset, truncated to the 32 bits a token's
/// expiry field carries.
pub open spec fn expire_after_spec(now: u64, offset: u32) -> u32 {
    (((now + offset) as int % 0x1_0000_0000) as u32)
}

pub fn expire_after(now: u64, offset_seconds: u32) -> (r: u32)
    ensures
        r == expire_after_spec(now, offset_seconds),
{
    let w = now.wrapping_add(offset_seconds as u64);
    proof {
        if now + offset_seconds > u64::MAX {
            assert(w == now + offset_seconds - 0x1_0000_0000_0000_0000);
            lemma_mod_multiples_vanish(
                0x1_0000_0000,
                now + offset_seconds - 0x1_0000_0000_0000_0000,
                0x1_0000_0000,
            );
            assert(0x1_0000_0000 * 0x1_0000_0000 + (now + offset_seconds
                - 0x1_0000_0000_0000_0000) == now + offset_seconds);
        }
    }
    (w % 0x1_0000_0000u64) as u32
}

/// The present unix time plus an offset, as issuers of expiring links use
/// it; the truncation to 32 bits is that of `expire_after_spec`.
pub fn get_expire_time(offset_seconds: u32) -> (r: u32)
    ensures
        exists|now: u64| r == #[trigger] expire_after_spec(now, offset_seconds),
{
    let now = unix_now();
    expire_after(now, offset_seconds)
}

/// A path with a freshly minted token appended as its `$` parameter.
pub open spec fn signed_url_spec(
    path: Seq<char>,
    path_b: Seq<u8>,
    key: Seq<u8>,
    expire: u32,
) -> Seq<char> {
    path + seq!['?', '$', '='] + ascii_chars(signature_bytes(path_b, expire, key, Seq::empty()))
}

/// Builds `{path}?$={token}` for a given expiry time.
pub fn signed_url_at(path: &str, sign_token: &str, expire_time: u32) -> (r: String)
    ensures
        r@ == signed_url_spec(path@, path.spec_bytes(), sign_token.spec_bytes(), expire_time),
{
    let sig = create_signature(path, expire_time, sign_token, None);
    let mut url = path.to_owned();
    url.append("?$=");
    url.append(sig.as_str());
    proof {
        reveal_strlit("?$=");
        assert("?$="@ =~= seq!['?', '$', '=']);
        assert(url@ =~= signed_url_spec(path@, path.spec_bytes(), sign_token.spec_bytes(),
            expire_time));
    }
    url
}

/// The signed link a directory listing hands out: the path itself when no
/// secret is configured, else `{path}?$={token}` with an expiry drawn from
/// the clock of this moment.
pub fn generate_signed_url(path: &str, signature_token: Option<&str>, expire_seconds: u32) -> (r:
    String)
    ensures
        match signature_token {
            None => r@ == path@,
            Some(tok) => exists|e: u32|
                r@ == #[trigger] signed_url_spec(path@, path.spec_bytes(), tok.spec_bytes(), e),
        },
{
    match signature_token {
        Some(tok) => {
            let expire_time = get_expire_time(expire_seconds);
            signed_url_at(path, tok, expire_time)
        },
        None => path.to_owned(),
    }
}


proof fn lemma_hex_render_len(v: nat, k: nat)
    ensures
        crate::hexnum::hex_render(v, k).len() == k,
    decreases k,
{
    if k > 0 {
        lemma_hex_render_len(v / 16, (k - 1) as nat);
    }
}

proof fn lemma_ranges_hex_len(rs: Seq<(u32, u32)>)
    ensures
        ranges_hex(rs).len() == 16 * rs.len(),
    decreases rs.len(),
{
    if rs.len() > 0 {
        lemma_ranges_hex_len(rs.drop_last());
        lemma_hex_render_len(rs.last().0 as nat, 8);
        lemma_hex_render_len(rs.last().1 as nat, 8);
    }
}

proof fn lemma_qs_decode_identity(s: Seq<u8>)
    requires
        all_hex_digits(s),
    ensures
        crate::query::qs_decode(s) == s,
    decreases s.len(),
{
    if s.len() > 0 {
        assert(is_hex_digit(s[0]));
        assert forall|i: int| 0 <= i < s.skip(1).len() implies is_hex_digit(
            #[trigger] s.skip(1)[i],
        ) by {
            assert(s.skip(1)[i] == s[i + 1]);
        }
        lemma_qs_decode_identity(s.skip(1));
        assert(seq![s[0]] + s.skip(1) =~= s);
    }
}

/// A query of the shape `$=<token>` hands back exactly the token, when
/// every token byte is a hexadecimal digit.
pub proof fn lemma_hex_token_extracts(tok: Seq<u8>)
    requires
        all_hex_digits(tok),
    ensures
        extract_sign_spec(seq![36u8, 61u8] + tok) == Some(tok),
{
    let q = seq![36u8, 61u8] + tok;
    assert(q[0] == 36u8 && q[1] == 61u8);
    crate::query::lemma_qkey_len_unique(q, 1);
    assert(q.subrange(0, 1) =~= seq![36u8]);
    assert(crate::query::qs_decode(seq![36u8]) =~= seq![36u8]) by {
        assert(seq![36u8].skip(1) =~= Seq::<u8>::empty());
        assert(crate::query::qs_decode(seq![36u8]) =~= seq![36u8] + crate::query::qs_decode(
            Seq::<u8>::empty(),
        ));
    }
    let rest = q.skip(1);
    assert(rest[0] == 61u8);
    assert(rest.skip(1) =~= tok);
    assert forall|i: int| 0 <= i < tok.len() implies (#[trigger] tok[i]) != 38 by {
        assert(is_hex_digit(tok[i]));
    }
    crate::query::lemma_qval_len_unique(tok, tok.len() as nat);
    assert(rest.skip(1).subrange(0, tok.len() as int) =~= tok);
    assert(crate::query::first_dollar_value(q) == Some(Some(tok)));
    lemma_qs_decode_identity(tok);
}

proof fn lemma_ranges_hex_first(rs: Seq<(u32, u32)>)
    requires
        rs.len() > 0,
    ensures
        ranges_hex(rs) == u32_hex8(rs.first().0) + u32_hex8(rs.first().1) + ranges_hex(
            rs.drop_first(),
        ),
    decreases rs.len(),
{
    if rs.len() == 1 {
        assert(rs.drop_last() =~= Seq::<(u32, u32)>::empty());
        assert(rs.drop_first() =~= Seq::<(u32, u32)>::empty());
        assert(rs.last() == rs.first());
        assert(ranges_hex(rs) =~= u32_hex8(rs.first().0) + u32_hex8(rs.first().1) + ranges_hex(
            rs.drop_first(),
        ));
    } else {
        let dl = rs.drop_last();
        lemma_ranges_hex_first(dl);
        assert(dl.first() == rs.first());
        assert(rs.drop_first().drop_last() =~= dl.drop_first());
        assert(rs.drop_first().last() == rs.last());
        assert(rs.drop_first().len() > 0);
        assert(ranges_hex(rs.drop_first()) == ranges_hex(dl.drop_first()) + u32_hex8(
            rs.last().0,
        ) + u32_hex8(rs.last().1));
        assert(ranges_hex(rs) =~= u32_hex8(rs.first().0) + u32_hex8(rs.first().1) + ranges_hex(
            rs.drop_first(),
        ));
    }
}

proof fn lemma_parse_ranges_of_hex(rs: Seq<(u32, u32)>)
    ensures
        parse_ranges_spec(ranges_hex(rs)) == Some(rs),
    decreases rs.len(),
{
    if rs.len() == 0 {
        assert(ranges_hex(rs).len() == 0);
        assert(Seq::<(u32, u32)>::empty() =~= rs);
    } else {
        let s = ranges_hex(rs);
        lemma_ranges_hex_first(rs);
        lemma_ranges_hex_len(rs);
        let a = rs.first().0;
        let b = rs.first().1;
        lemma_pow16_8();
        lemma_hex_render_parses(a as nat, 8);
        lemma_hex_render_parses(b as nat, 8);
        assert(s.subrange(0, 8) =~= u32_hex8(a));
        assert(s.subrange(8, 16) =~= u32_hex8(b));
        assert(s.skip(16) =~= ranges_hex(rs.drop_first()));
        lemma_parse_ranges_of_hex(rs.drop_first());
        assert(parse_hex_u32_spec(s.subrange(0, 8)) == Some(a));
        assert(parse_hex_u32_spec(s.subrange(8, 16)) == Some(b));
        assert(seq![(a, b)] + rs.drop_first() =~= rs);
    }
}

/// How a freshly minted token reads back: its length, its digits, its
/// extraction from a `$=` query, and each parsed field.
pub proof fn lemma_token_parses(path_b: Seq<u8>, expire: u32, key: Seq<u8>, ranges: Seq<(u32, u32)>)
    ensures
        ({
            let tok = signature_bytes(path_b, expire, key, ranges);
            &&& tok.len() == 72 + 16 * ranges.len()
            &&& all_hex_digits(tok)
            &&& extract_sign_spec(seq![36u8, 61u8] + tok) == Some(tok)
            &&& parse_hex_u32_spec(tok.subrange(0, 8)) == Some(expire)
            &&& tok.subrange(8, 72) == hex_bytes(
                hmac_sha256_32(key, sig_message(path_b, expire, ranges)),
            )
            &&& parse_ranges_spec(tok.skip(72)) == Some(ranges)
        }),
{
    let tok = signature_bytes(path_b, expire, key, ranges);
    let mac = hmac_sha256_32(key, sig_message(path_b, expire, ranges));
    let mac_hex = hex_bytes(mac);
    lemma_pow16_8();
    lemma_hex_render_parses(expire as nat, 8);
    crate::hexnum::lemma_hex_bytes_len(mac);
    lemma_ranges_hex_len(ranges);
    assert(mac.len() == 32);
    assert(tok.len() == 72 + 16 * ranges.len());
    lemma_signature_bytes_all_hex(path_b, expire, key, ranges);
    lemma_hex_token_extracts(tok);
    assert(tok.subrange(0, 8) =~= u32_hex8(expire));
    assert(tok.subrange(8, 72) =~= mac_hex);
    assert(tok.skip(72) =~= ranges_hex(ranges));
    lemma_parse_ranges_of_hex(ranges);
    assert(parse_hex_u32_spec(tok.subrange(0, 8)) == Some(expire));
}

/// Round trip: a token minted for a path, a future expiry, a secret and a
/// range list verifies, as the `$` parameter of a query, against the same
/// path and secret at any moment up to its expiry, with a `Range` header
/// that reads back as exactly the signed ranges, and with no header when
/// no ranges were signed.
pub proof fn lemma_signature_round_trip(
    path_b: Seq<u8>,
    expire: u32,
    key: Seq<u8>,
    ranges: Seq<(u32, u32)>,
    range_h: Option<Seq<u8>>,
    now: u64,
)
    requires
        now <= expire as u64,
        match range_h {
            None => ranges.len() == 0,
            Some(h) => parse_range_header_spec(h) == Some(ranges),
        },
    ensures
        verify_sig_spec(
            path_b,
            Some(seq![36u8, 61u8] + signature_bytes(path_b, expire, key, ranges)),
            key,
            range_h,
            now,
        ) == Ok::<(), SignatureError>(()),
{
    let tok = signature_bytes(path_b, expire, key, ranges);
    lemma_token_parses(path_b, expire, key, ranges);
    assert((tok.len() - 72) % 16 == 0) by {
        vstd::arithmetic::div_mod::lemma_mod_multiples_basic(ranges.len() as int, 16);
        assert(16 * ranges.len() == ranges.len() * 16);
    }
}

/// An expired token is rejected as `Expired` even though its MAC is the
/// right one: the expiry check runs before the MAC is looked at.
pub proof fn lemma_expired_token_rejected(
    path_b: Seq<u8>,
    key: Seq<u8>,
    ranges: Seq<(u32, u32)>,
    range_h: Option<Seq<u8>>,
    now: u64,
)
    requires
        1 <= now <= 0x1_0000_0000,
    ensures
        verify_sig_spec(
            path_b,
            Some(
                seq![36u8, 61u8] + signature_bytes(path_b, (now - 1) as u32, key, ranges),
            ),
            key,
            range_h,
            now,
        ) == Err::<(), SignatureError>(SignatureError::Expired),
{
    let expire = (now - 1) as u32;
    lemma_token_parses(path_b, expire, key, ranges);
    assert((expire as u64) < now);
}

/// A token minted to expire just after `now` verifies: the acceptance
/// half of the expiry boundary.
pub proof fn lemma_fresh_token_accepted(
    path_b: Seq<u8>,
    key: Seq<u8>,
    ranges: Seq<(u32, u32)>,
    range_h: Option<Seq<u8>>,
    now: u64,
)
    requires
        now + 1 <= 0xFFFF_FFFF,
        match range_h {
            None => ranges.len() == 0,
            Some(h) => parse_range_header_spec(h) == Some(ranges),
        },
    ensures
        verify_sig_spec(
            path_b,
            Some(
                seq![36u8, 61u8] + signature_bytes(path_b, (now + 1) as u32, key, ranges),
            ),
            key,
            range_h,
            now,
        ) == Ok::<(), SignatureError>(()),
{
    lemma_signature_round_trip(path_b, (now + 1) as u32, key, ranges, range_h, now);
}

/// Tamper detection: changing any single digit of a valid token's MAC
/// portion, positions 8 to 71, to any other hexadecimal digit turns the
/// verdict into `MacMismatch`.
pub proof fn lemma_tamper_detected(
    path_b: Seq<u8>,
    expire: u32,
    key: Seq<u8>,
    ranges: Seq<(u32, u32)>,
    range_h: Option<Seq<u8>>,
    now: u64,
    tok2: Seq<u8>,
    i: int,
)
    requires
        now <= expire as u64,
        match range_h {
            None => ranges.len() == 0,
            Some(h) => parse_range_header_spec(h) == Some(ranges),
        },
        8 <= i < 72,
        tok2.len() == signature_bytes(path_b, expire, key, ranges).len(),
        forall|k: int|
            0 <= k < tok2.len() && k != i ==> tok2[k] == signature_bytes(
                path_b,
                expire,
                key,
                ranges,
            )[k],
        tok2[i] != signature_bytes(path_b, expire, key, ranges)[i],
        is_hex_digit(tok2[i]),
    ensures
        verify_sig_spec(path_b, Some(seq![36u8, 61u8] + tok2), key, range_h, now) == Err::<
            (),
            SignatureError,
        >(SignatureError::MacMismatch),
{
    let tok = signature_bytes(path_b, expire, key, ranges);
    lemma_token_parses(path_b, expire, key, ranges);
    assert forall|k: int| 0 <= k < tok2.len() implies is_hex_digit(#[trigger] tok2[k]) by {
        if k != i {
            assert(tok2[k] == tok[k]);
        }
    }
    lemma_hex_token_extracts(tok2);
    assert(tok2.subrange(0, 8) =~= tok.subrange(0, 8));
    assert(tok2.skip(72) =~= tok.skip(72));
    assert((tok2.len() - 72) % 16 == 0) by {
        vstd::arithmetic::div_mod::lemma_mod_multiples_basic(ranges.len() as int, 16);
        assert(16 * ranges.len() == ranges.len() * 16);
    }
    let mac_hex = hex_bytes(hmac_sha256_32(key, sig_message(path_b, expire, ranges)));
    assert(tok2.subrange(8, 72) != mac_hex) by {
        if tok2.subrange(8, 72) == mac_hex {
            assert(tok2.subrange(8, 72)[i - 8] == tok.subrange(8, 72)[i - 8]);
            assert(tok2[i] == tok[i]);
        }
    }
}

/// A `Range` header that parses never reads back as an empty range list.
proof fn lemma_parsed_header_nonempty(h: Seq<u8>)
    ensures
        match parse_range_header_spec(h) {
            Some(hr) => hr.len() >= 1,
            None => true,
        },
{
    if h.len() >= 6 && h.subrange(0, 6) == seq![98u8, 121u8, 116u8, 101u8, 115u8, 61u8] {
        let s = h.skip(6);
        match crate::ranges::parse_parts_spec(s) {
            Some(x) => {
                assert(x.len() >= 1);
            },
            None => {},
        }
    }
}

/// Empty-range strictness: a token signed with no ranges rejects every
/// request that carries a `Range` header, whatever the header says.
pub proof fn lemma_empty_ranges_reject_header(
    path_b: Seq<u8>,
    expire: u32,
    key: Seq<u8>,
    h: Seq<u8>,
    now: u64,
)
    requires
        now <= expire as u64,
    ensures
        verify_sig_spec(
            path_b,
            Some(seq![36u8, 61u8] + signature_bytes(path_b, expire, key, Seq::empty())),
            key,
            Some(h),
            now,
        ) == Err::<(), SignatureError>(SignatureError::Malformed),
{
    lemma_token_parses(path_b, expire, key, Seq::empty());
    lemma_parsed_header_nonempty(h);
    let tok = signature_bytes(path_b, expire, key, Seq::empty());
    assert((tok.len() - 72) % 16 == 0);
}

/// A token signed with one or more ranges rejects a request that carries
/// no `Range` header at all.
pub proof fn lemma_missing_header_rejected(
    path_b: Seq<u8>,
    expire: u32,
    key: Seq<u8>,
    ranges: Seq<(u32, u32)>,
    now: u64,
)
    requires
        now <= expire as u64,
        ranges.len() > 0,
    ensures
        verify_sig_spec(
            path_b,
            Some(seq![36u8, 61u8] + signature_bytes(path_b, expire, key, ranges)),
            key,
            None,
            now,
        ) == Err::<(), SignatureError>(SignatureError::Malformed),
{
    lemma_token_parses(path_b, expire, key, ranges);
    let tok = signature_bytes(path_b, expire, key, ranges);
    assert((tok.len() - 72) % 16 == 0) by {
        vstd::arithmetic::div_mod::lemma_mod_multiples_basic(ranges.len() as int, 16);
        assert(16 * ranges.len() == ranges.len() * 16);
    }
}

} // verus!
