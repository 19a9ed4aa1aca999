//! Query-string grammar: pairs split on `&`, keys ending at `=` or `&`,
//! percent- and plus-decoding, and the lookup of the first `$` parameter,
//! which carries the signature token.

use vstd::prelude::*;
use vstd::slice::{slice_index_get, slice_subrange};
use crate::hexnum::{hex_digit_val, is_hex_digit};

verus! {

/// Percent-decoding of a query-string component: `+` becomes a space, `%`
/// followed by two hexadecimal digits becomes that byte, and everything
/// else (including a `%` without two digits after it) stays itself.
pub open spec fn qs_decode(s: Seq<u8>) -> Seq<u8>
    decreases s.len(),
{
    if s.len() == 0 {
        Seq::empty()
    } else if s[0] == 43 {
        seq![32u8] + qs_decode(s.skip(1))
    } else if s[0] == 37 && s.len() >= 3 && is_hex_digit(s[1]) && is_hex_digit(s[2]) {
        seq![(hex_digit_val(s[1]) * 16 + hex_digit_val(s[2])) as u8] + qs_decode(s.skip(3))
    } else {
        seq![s[0]] + qs_decode(s.skip(1))
    }
}

/// Length of a key: bytes up to the first `&` or `=`, or the end.
pub open spec fn qkey_len(s: Seq<u8>) -> nat
    decreases s.len(),
{
    if s.len() == 0 {
        0
    } else if s[0] == 38 || s[0] == 61 {
        0
    } else {
        1 + qkey_len(s.skip(1))
    }
}

/// Length of a value: bytes up to the first `&`, or the end.
pub open spec fn qval_len(s: Seq<u8>) -> nat
    decreases s.len(),
{
    if s.len() == 0 {
        0
    } else if s[0] == 38 {
        0
    } else {
        1 + qval_len(s.skip(1))
    }
}

pub proof fn lemma_qkey_len(s: Seq<u8>)
    ensures
        qkey_len(s) <= s.len(),
        forall|i: int| 0 <= i < qkey_len(s) ==> !((#[trigger] s[i]) == 38 || s[i] == 61),
        qkey_len(s) < s.len() ==> (s[qkey_len(s) as int] == 38 || s[qkey_len(s) as int] == 61),
    decreases s.len(),
{
    if s.len() > 0 && !(s[0] == 38 || s[0] == 61) {
        lemma_qkey_len(s.skip(1));
        assert forall|i: int| 0 <= i < qkey_len(s) implies !((#[trigger] s[i]) == 38 || s[i] == 61) by {
            if i > 0 {
                assert(s.skip(1)[i - 1] == s[i]);
            }
        }
        if qkey_len(s) < s.len() {
            assert(s.skip(1)[qkey_len(s) - 1] == s[qkey_len(s) as int]);
        }
    }
}

pub proof fn lemma_qkey_len_unique(s: Seq<u8>, j: nat)
    requires
        j <= s.len(),
        forall|i: int| 0 <= i < j ==> !((#[trigger] s[i]) == 38 || s[i] == 61),
        j < s.len() ==> (s[j as int] == 38 || s[j as int] == 61),
    ensures
        qkey_len(s) == j,
{
    lemma_qkey_len(s);
    if qkey_len(s) < j {
        assert(!(s[qkey_len(s) as int] == 38 || s[qkey_len(s) as int] == 61));
    } else if j < qkey_len(s) {
        assert(!(s[j as int] == 38 || s[j as int] == 61));
    }
}

pub proof fn lemma_qval_len(s: Seq<u8>)
    ensures
        qval_len(s) <= s.len(),
        forall|i: int| 0 <= i < qval_len(s) ==> (#[trigger] s[i]) != 38,
        qval_len(s) < s.len() ==> s[qval_len(s) as int] == 38,
    decreases s.len(),
{
    if s.len() > 0 && s[0] != 38 {
        lemma_qval_len(s.skip(1));
        assert forall|i: int| 0 <= i < qval_len(s) implies (#[trigger] s[i]) != 38 by {
            if i > 0 {
                assert(s.skip(1)[i - 1] == s[i]);
            }
        }
        if qval_len(s) < s.len() {
            assert(s.skip(1)[qval_len(s) - 1] == s[qval_len(s) as int]);
        }
    }
}

pub proof fn lemma_qval_len_unique(s: Seq<u8>, j: nat)
    requires
        j <= s.len(),
        forall|i: int| 0 <= i < j ==> (#[trigger] s[i]) != 38,
        j < s.len() ==> s[j as int] == 38,
    ensures
        qval_len(s) == j,
{
    lemma_qval_len(s);
    if qval_len(s) < j {
        assert(s[qval_len(s) as int] != 38);
    } else if j < qval_len(s) {
        assert(s[j as int] != 38);
    }
}

/// Value of the first pair whose decoded key is `$`: `None` when no such
/// pair exists, `Some(None)` when that pair has no `=`, and otherwise the
/// raw (still encoded) value bytes.
pub open spec fn first_dollar_value(s: Seq<u8>) -> Option<Option<Seq<u8>>>
    decreases s.len(),
{
    if s.len() == 0 {
        None
    } else {
        let kl = qkey_len(s);
        let key = s.subrange(0, kl as int);
        let rest = s.skip(kl as int);
        if rest.len() > 0 && rest[0] == 61 {
            let vl = qval_len(rest.skip(1));
            let raw_v = rest.skip(1).subrange(0, vl as int);
            if qs_decode(key) == seq![36u8] {
                Some(Some(raw_v))
            } else if kl + 2 + vl <= s.len() {
                first_dollar_value(s.skip((kl + 2 + vl) as int))
            } else {
                None
            }
        } else {
            if qs_decode(key) == seq![36u8] {
                Some(None)
            } else if kl + 1 <= s.len() {
                first_dollar_value(s.skip((kl + 1) as int))
            } else {
                None
            }
        }
    }
}

/// The signature parameter of a query string: the decoded value of the
/// first `$` pair, when that pair carries a value.
pub open spec fn extract_sign_spec(q: Seq<u8>) -> Option<Seq<u8>> {
    match first_dollar_value(q) {
        Some(Some(raw)) => Some(qs_decode(raw)),
        _ => None,
    }
}

/// Decodes one query-string component.
pub fn qs_decode_vec(s: &[u8]) -> (r: Vec<u8>)
    ensures
        r@ == qs_decode(s@),
{
    let mut out: Vec<u8> = Vec::new();
    let mut i: usize = 0;
    proof {
        assert(s@.skip(0) =~= s@);
    }
    while i < s.len()
        invariant
            i <= s@.len(),
            qs_decode(s@) == out@ + qs_decode(s@.skip(i as int)),
        decreases s@.len() - i,
    {
        let ghost pre = s@.skip(i as int);
        let b = *slice_index_get(s, i);
        if b == 43 {
            out.push(32);
            i += 1;
            proof {
                assert(pre.skip(1) =~= s@.skip(i as int));
                assert(qs_decode(s@) =~= out@ + qs_decode(s@.skip(i as int)));
            }
        } else if b == 37 && s.len() - i > 2 {
            let h = *slice_index_get(s, i + 1);
            let l = *slice_index_get(s, i + 2);
            let hv: u8 = if 48 <= h && h <= 57 {
                h - 48
            } else if 97 <= h && h <= 102 {
                h - 97 + 10
            } else if 65 <= h && h <= 70 {
                h - 65 + 10
            } else {
                16
            };
            let lv: u8 = if 48 <= l && l <= 57 {
                l - 48
            } else if 97 <= l && l <= 102 {
                l - 97 + 10
            } else if 65 <= l && l <= 70 {
                l - 65 + 10
            } else {
                16
            };
            if hv < 16 && lv < 16 {
                out.push(hv * 16 + lv);
                i += 3;
                proof {
                    assert(pre.skip(3) =~= s@.skip(i as int));
                    assert(qs_decode(s@) =~= out@ + qs_decode(s@.skip(i as int)));
                }
            } else {
                out.push(b);
                i += 1;
                proof {
                    assert(!(is_hex_digit(pre[1]) && is_hex_digit(pre[2])));
                    assert(pre.skip(1) =~= s@.skip(i as int));
                    assert(qs_decode(s@) =~= out@ + qs_decode(s@.skip(i as int)));
                }
            }
        } else {
            out.push(b);
            i += 1;
            proof {
                assert(pre.skip(1) =~= s@.skip(i as int));
                assert(qs_decode(s@) =~= out@ + qs_decode(s@.skip(i as int)));
            }
        }
    }
    proof {
        assert(s@.skip(s@.len() as int) =~= Seq::<u8>::empty());
        assert(out@ =~= qs_decode(s@));
    }
    out
}

/// Finds the signature token in a query string: the decoded value of the
/// first parameter whose decoded key is `$`.
pub fn extract_sign_param(q: &[u8]) -> (r: Option<Vec<u8>>)
    ensures
        match r {
            Some(v) => extract_sign_spec(q@) == Some(v@),
            None => extract_sign_spec(q@) is None,
        },
{
    let mut idx: usize = 0;
    proof {
        assert(q@.skip(0) =~= q@);
    }
    while idx < q.len()
        invariant
            idx <= q@.len(),
            first_dollar_value(q@) == first_dollar_value(q@.skip(idx as int)),
        decreases q@.len() - idx,
    {
        let ghost s = q@.skip(idx as int);
        proof {
            assert(forall|i: int| 0 <= i < s.len() ==> (#[trigger] s[i]) == q@[idx + i]);
        }
        // scan the key
        let mut j = idx;
        while j < q.len() && *slice_index_get(q, j) != 38 && *slice_index_get(q, j) != 61
            invariant
                idx <= j <= q@.len(),
                forall|i: int| idx <= i < j ==> !((#[trigger] q@[i]) == 38 || q@[i] == 61),
            decreases q@.len() - j,
        {
            j += 1;
        }
        proof {
            lemma_qkey_len_unique(s, (j - idx) as nat);
        }
        let ghost kl = qkey_len(s);
        let key = slice_subrange(q, idx, j);
        proof {
            assert(key@ =~= s.subrange(0, kl as int));
        }
        let dec = qs_decode_vec(key);
        let is_dollar = dec.len() == 1 && dec[0] == 36;
        proof {
            if is_dollar {
                assert(dec@ =~= seq![36u8]);
            } else if qs_decode(s.subrange(0, kl as int)) == seq![36u8] {
                assert(dec@.len() == 1 && dec@[0] == 36u8);
                assert(false);
            }
        }
        if j < q.len() && *slice_index_get(q, j) == 61 {
            // the pair has a value
            let ghost rest = s.skip(kl as int);
            proof {
                assert(rest.len() > 0 && rest[0] == 61);
                assert(forall|i: int|
                    0 <= i < rest.skip(1).len() ==> (#[trigger] rest.skip(1)[i]) == q@[j + 1 + i]);
            }
            let vstart = j + 1;
            let mut k = vstart;
            while k < q.len() && *slice_index_get(q, k) != 38
                invariant
                    vstart <= k <= q@.len(),
                    forall|i: int| vstart <= i < k ==> (#[trigger] q@[i]) != 38,
                decreases q@.len() - k,
            {
                k += 1;
            }
            proof {
                lemma_qval_len_unique(rest.skip(1), (k - vstart) as nat);
            }
            let ghost vl = qval_len(rest.skip(1));
            if is_dollar {
                let raw = slice_subrange(q, vstart, k);
                proof {
                    assert(raw@ =~= rest.skip(1).subrange(0, vl as int));
                    assert(first_dollar_value(s) == Some(Some(raw@)));
                }
                let v = qs_decode_vec(raw);
                return Some(v);
            }
            if k < q.len() {
                idx = k + 1;
                proof {
                    assert(kl + 2 + vl <= s.len());
                    assert(first_dollar_value(s) == first_dollar_value(s.skip((kl + 2 + vl) as int)));
                    assert(s.skip((kl + 2 + vl) as int) =~= q@.skip(idx as int));
                }
            } else {
                idx = q.len();
                proof {
                    assert(kl + 2 + vl > s.len());
                    assert(first_dollar_value(s) is None);
                    assert(q@.skip(idx as int).len() == 0);
                }
            }
        } else {
            if is_dollar {
                // a `$` key with no value carries no token
                proof {
                    let rest = s.skip(kl as int);
                    assert(!(rest.len() > 0 && rest[0] == 61));
                    assert(first_dollar_value(s) == Some(None::<Seq<u8>>));
                }
                return None;
            }
            let ghost rest = s.skip(kl as int);
            proof {
                if rest.len() > 0 {
                    assert(rest[0] == q@[j as int]);
                }
                assert(!(rest.len() > 0 && rest[0] == 61));
            }
            if j < q.len() {
                idx = j + 1;
                proof {
                    assert(kl + 1 <= s.len());
                    assert(first_dollar_value(s) == first_dollar_value(s.skip((kl + 1) as int)));
                    assert(s.skip((kl + 1) as int) =~= q@.skip(idx as int));
                }
            } else {
                idx = q.len();
                proof {
                    assert(kl + 1 > s.len());
                    assert(first_dollar_value(s) is None);
                    assert(q@.skip(idx as int).len() == 0);
                }
            }
        }
    }
    proof {
        assert(q@.skip(idx as int).len() == 0);
    }
    None
}

} // verus!
