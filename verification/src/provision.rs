//! The content-provisioning reconciler: diffs the declared content set of
//! a snapshot against the engine's live set and plans one idempotent add
//! or remove per difference. The engine calls themselves happen outside
//! the library; each planned step stands alone, so one failing never
//! blocks another.

use vstd::prelude::*;
use vstd::string::StrSliceExecFns;
use vstd::string::StringExecFns;
use crate::bytestr::str_chars_eq;
use crate::config::TorrentConfig;

verus! {

/// Some live id string equals this declared id, letter for letter.
pub open spec fn live_contains(live: Seq<String>, id: Seq<char>) -> bool {
    exists|i: int| 0 <= i < live.len() && (#[trigger] live[i])@ == id
}

/// A hexadecimal digit, either case, as a character.
pub open spec fn is_hex_char(c: char) -> bool {
    (48 <= c as u32 && c as u32 <= 57) || (97 <= c as u32 && c as u32 <= 102) || (65 <= c as u32
        && c as u32 <= 70)
}

/// The code point of a character with upper-case hex letters lowered.
pub open spec fn lower_hex_code(c: char) -> u32 {
    if 65 <= c as u32 && c as u32 <= 70 {
        (c as u32 + 32) as u32
    } else {
        c as u32
    }
}

/// A live id the reconciler can act on: exactly 40 hexadecimal digits,
/// either case — the textual form of a 20-byte content id.
pub open spec fn is_valid_live_id(s: Seq<char>) -> bool {
    s.len() == 40 && forall|i: int| 0 <= i < s.len() ==> is_hex_char(#[trigger] s[i])
}

/// Case-insensitive equality of two hex ids, by lowered code points.
pub open spec fn hex_id_matches(live: Seq<char>, decl: Seq<char>) -> bool {
    live.len() == decl.len() && forall|i: int|
        0 <= i < live.len() ==> lower_hex_code(#[trigger] live[i]) == decl[i] as u32
}

/// The declared set holds an id equal, up to hex case, to this live id.
pub open spec fn declared_matches(
    declared: Seq<(String, TorrentConfig)>,
    live_id: Seq<char>,
) -> bool {
    exists|i: int| 0 <= i < declared.len() && hex_id_matches(live_id, (#[trigger] declared[i]).0@)
}

/// A reconciliation plan: which declared entries to start fetching and
/// which live entries to remove, as indices into the two lists.
pub struct SyncPlan {
    pub adds: Vec<usize>,
    pub removes: Vec<usize>,
}

proof fn lemma_contains_push(s: Seq<usize>, v: usize, x: usize)
    requires
        s.contains(x),
    ensures
        s.push(v).contains(x),
{
    let i = choose|i: int| 0 <= i < s.len() && s[i] == x;
    assert(s.push(v)[i] == x);
}

fn is_valid_live_id_exec(s: &str) -> (r: bool)
    ensures
        r == is_valid_live_id(s@),
{
    let n = s.unicode_len();
    if n != 40 {
        return false;
    }
    let mut i: usize = 0;
    while i < n
        invariant
            n == s@.len() && n == 40,
            i <= n,
            forall|k: int| 0 <= k < i ==> is_hex_char(#[trigger] s@[k]),
        decreases n - i,
    {
        let c = s.get_char(i);
        let u = c as u32;
        if !((48 <= u && u <= 57) || (97 <= u && u <= 102) || (65 <= u && u <= 70)) {
            assert(!is_hex_char(s@[i as int]));
            return false;
        }
        i += 1;
    }
    true
}

fn hex_id_matches_exec(live: &str, decl: &str) -> (r: bool)
    ensures
        r == hex_id_matches(live@, decl@),
{
    let n = live.unicode_len();
    if n != decl.unicode_len() {
        return false;
    }
    let mut i: usize = 0;
    while i < n
        invariant
            n == live@.len() && n == decl@.len(),
            i <= n,
            forall|k: int| 0 <= k < i ==> lower_hex_code(#[trigger] live@[k]) == decl@[k] as u32,
        decreases n - i,
    {
        let c = live.get_char(i) as u32;
        let lc: u32 = if 65 <= c && c <= 70 {
            c + 32
        } else {
            c
        };
        if lc != decl.get_char(i) as u32 {
            assert(lower_hex_code(live@[i as int]) != decl@[i as int] as u32);
            return false;
        }
        i += 1;
    }
    true
}

/// Diffs the declared set against the live set: every declared entry no
/// live id equals, letter for letter, is planned as an add; every live
/// entry that is a well-formed id and matches, up to hex case, no
/// declared id is planned as a remove; entries in both sets are left
/// alone. Both lists keep their order, and each planned step is
/// independent of every other.
pub fn plan_sync(declared: &Vec<(String, TorrentConfig)>, live: &Vec<String>) -> (r: SyncPlan)
    ensures
        forall|a: int|
            0 <= a < r.adds@.len() ==> (#[trigger] r.adds@[a]) < declared@.len() && !live_contains(
                live@,
                declared@[r.adds@[a] as int].0@,
            ),
        forall|a: int, b: int|
            0 <= a < b < r.adds@.len() ==> (#[trigger] r.adds@[a]) < (#[trigger] r.adds@[b]),
        forall|i: int|
            0 <= i < declared@.len() && !live_contains(live@, (#[trigger] declared@[i]).0@)
                ==> r.adds@.contains(i as usize),
        forall|a: int|
            0 <= a < r.removes@.len() ==> (#[trigger] r.removes@[a]) < live@.len()
                && is_valid_live_id(live@[r.removes@[a] as int]@) && !declared_matches(
                declared@,
                live@[r.removes@[a] as int]@,
            ),
        forall|a: int, b: int|
            0 <= a < b < r.removes@.len() ==> (#[trigger] r.removes@[a]) < (
            #[trigger] r.removes@[b]),
        forall|j: int|
            0 <= j < live@.len() && is_valid_live_id((#[trigger] live@[j])@) && !declared_matches(
                declared@,
                live@[j]@,
            ) ==> r.removes@.contains(j as usize),
{
    let mut adds: Vec<usize> = Vec::new();
    let dn = declared.len();
    let ln = live.len();
    let mut i: usize = 0;
    while i < dn
        invariant
            dn == declared@.len(),
            ln == live@.len(),
            i <= dn,
            forall|a: int|
                0 <= a < adds@.len() ==> (#[trigger] adds@[a]) < i && !live_contains(
                    live@,
                    declared@[adds@[a] as int].0@,
                ),
            forall|a: int, b: int|
                0 <= a < b < adds@.len() ==> (#[trigger] adds@[a]) < (#[trigger] adds@[b]),
            forall|k: int|
                0 <= k < i && !live_contains(live@, (#[trigger] declared@[k]).0@)
                    ==> adds@.contains(k as usize),
        decreases dn - i,
    {
        let mut l: usize = 0;
        let mut present = false;
        while l < ln && !present
            invariant
                ln == live@.len(),
                dn == declared@.len(),
                i < dn,
                l <= ln,
                !present ==> forall|k: int| 0 <= k < l ==> (#[trigger] live@[k])@ != declared@[
                    i as int].0@,
                present ==> live_contains(live@, declared@[i as int].0@),
            decreases ln - l + (if present {
                0int
            } else {
                1int
            }),
        {
            if str_chars_eq(live[l].as_str(), declared[i].0.as_str()) {
                present = true;
                proof {
                    assert((live@[l as int])@ == declared@[i as int].0@);
                }
            } else {
                l += 1;
            }
        }
        let ghost adds_old = adds@;
        if !present {
            adds.push(i);
        }
        proof {
            assert forall|k: int|
                0 <= k < i + 1 && !live_contains(live@, (#[trigger] declared@[k]).0@)
                implies adds@.contains(k as usize) by {
                if k < i {
                    lemma_contains_push(adds_old, i, k as usize);
                } else {
                    if !present {
                        assert(adds@[adds@.len() - 1] == k as usize);
                    }
                }
            }
        }
        i += 1;
    }
    let mut removes: Vec<usize> = Vec::new();
    let mut j: usize = 0;
    while j < ln
        invariant
            dn == declared@.len(),
            ln == live@.len(),
            j <= ln,
            forall|a: int|
                0 <= a < removes@.len() ==> (#[trigger] removes@[a]) < j && is_valid_live_id(
                    live@[removes@[a] as int]@,
                ) && !declared_matches(declared@, live@[removes@[a] as int]@),
            forall|a: int, b: int|
                0 <= a < b < removes@.len() ==> (#[trigger] removes@[a]) < (
                #[trigger] removes@[b]),
            forall|k: int|
                0 <= k < j && is_valid_live_id((#[trigger] live@[k])@) && !declared_matches(
                    declared@,
                    live@[k]@,
                ) ==> removes@.contains(k as usize),
        decreases ln - j,
    {
        let valid = is_valid_live_id_exec(live[j].as_str());
        let mut keep = false;
        if valid {
            let mut d: usize = 0;
            while d < dn && !keep
                invariant
                    dn == declared@.len(),
                    ln == live@.len(),
                    j < ln,
                    d <= dn,
                    !keep ==> forall|k: int|
                        0 <= k < d ==> !hex_id_matches(live@[j as int]@, (
                        #[trigger] declared@[k]).0@),
                    keep ==> declared_matches(declared@, live@[j as int]@),
                decreases dn - d + (if keep {
                    0int
                } else {
                    1int
                }),
            {
                if hex_id_matches_exec(live[j].as_str(), declared[d].0.as_str()) {
                    keep = true;
                } else {
                    d += 1;
                }
            }
        }
        let ghost removes_old = removes@;
        if valid && !keep {
            removes.push(j);
        }
        proof {
            assert forall|k: int|
                0 <= k < j + 1 && is_valid_live_id((#[trigger] live@[k])@) && !declared_matches(
                    declared@,
                    live@[k]@,
                ) implies removes@.contains(k as usize) by {
                if k < j {
                    lemma_contains_push(removes_old, j, k as usize);
                } else {
                    assert(valid && !keep);
                    assert(removes@[removes@.len() - 1] == k as usize);
                }
            }
        }
        j += 1;
    }
    SyncPlan { adds, removes }
}

/// Where a declared item is fetched to, relative to the storage root: a
/// leading slash becomes a leading dot, keeping the target inside the
/// root.
pub fn torrent_output_rel_path(path: &str) -> (r: String)
    ensures
        r@ == (if path@.len() > 0 && path@[0] == '/' {
            "."@ + path@
        } else {
            path@
        }),
{
    if path.unicode_len() > 0 && path.get_char(0) == '/' {
        let mut s = String::from_str(".");
        s.append(path);
        s
    } else {
        path.to_owned()
    }
}

} // verus!
