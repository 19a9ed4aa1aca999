//! The central configuration source: the poll URL, version-based change
//! detection by equality, and the pacing of the poll loop. The network
//! fetch itself lives outside the library; these functions decide what to
//! do with each fetched document.

use vstd::prelude::*;
use vstd::string::StringExecFns;
use vstd::string::StrSliceExecFns;
use vstd::string::StringSliceAdditionalSpecFns;
use vstd::utf8::encode_utf8;
use crate::bytestr::{
    ascii_chars, base64_encode, base64_spec, find_char, lemma_find_char_unique,
};
use crate::config::{built_from, effective_version, Config, OptimizedConfig};

verus! {

/// Seconds between configuration poll ticks.
pub const REFRESH_INTERVAL_SECS: u64 = 60;

/// Whether a freshly fetched document must be published: its effective
/// version differs from the published one — an equality check, not an
/// ordering, so an older version number counts as a change too.
pub open spec fn should_publish_spec(current: u64, fetched: Option<u64>) -> bool {
    effective_version(fetched) != current
}

/// The change-detection step of the poll: builds and hands back a new
/// snapshot exactly when the fetched document's version differs from the
/// published one; an equal version publishes nothing.
pub fn apply_remote_config(current_version: u64, config: Config) -> (r: Option<OptimizedConfig>)
    ensures
        match r {
            Some(oc) => should_publish_spec(current_version, config.version) && oc.wf()
                && built_from(oc, config),
            None => !should_publish_spec(current_version, config.version),
        },
{
    let new_version: u64 = match config.version {
        Some(v) => v,
        None => 0,
    };
    if new_version != current_version {
        Some(OptimizedConfig::from_config(config))
    } else {
        None
    }
}

/// The URL a poll tick fetches: `{central_url}[/{server_id}]/config`.
pub fn config_url(central_url: &str, server_id: Option<&str>) -> (r: String)
    ensures
        r@ == match server_id {
            Some(id) => central_url@ + "/"@ + id@ + "/config"@,
            None => central_url@ + "/config"@,
        },
{
    let mut url = central_url.to_owned();
    match server_id {
        Some(id) => {
            url.append("/");
            url.append(id);
            url.append("/config");
        },
        None => {
            url.append("/config");
        },
    }
    url
}

/// The extra pause after a failed poll tick, on top of the tick period:
/// one more whole period, a fixed backoff, not exponential.
pub fn refresh_backoff_seconds(failed: bool) -> (r: u64)
    ensures
        r == (if failed {
            REFRESH_INTERVAL_SECS as int
        } else {
            0
        }),
{
    if failed {
        REFRESH_INTERVAL_SECS
    } else {
        0
    }
}

/// Change detection is idempotent and equality-based: once a fetched
/// version has been published, fetching the same version again publishes
/// nothing; any differing version, smaller ones included, publishes.
pub proof fn lemma_change_detection(v1: Option<u64>, v2: Option<u64>)
    ensures
        !should_publish_spec(effective_version(v1), v1),
        effective_version(v2) != effective_version(v1) ==> should_publish_spec(
            effective_version(v1),
            v2,
        ),
{
}


/// The central URL could not be read as a URI.
#[derive(Debug, Clone, Copy, PartialEq, Eq, Structural)]
pub enum CentralUrlError {
    Invalid,
}

/// The scheme, authority, and path-and-query of a URI string, each absent
/// when the URI has none; nothing when the string is no URI. A fixed
/// function of the string, as hyper's parser reads it.
pub uninterp spec fn uri_parts_of(s: Seq<char>) -> Option<
    (Option<Seq<char>>, Option<Seq<char>>, Option<Seq<char>>),
>;

/// Relies on hyper::Uri: parsing the string and reading its scheme,
/// authority and path-and-query components back as text.
#[verifier::external_body]
fn split_uri(s: &str) -> (r: Option<(Option<String>, Option<String>, Option<String>)>)
    ensures
        match (r, uri_parts_of(s@)) {
            (Some(p), Some(q)) => {
                &&& match (p.0, q.0) {
                    (Some(x), Some(y)) => x@ == y,
                    (None, None) => true,
                    _ => false,
                }
                &&& match (p.1, q.1) {
                    (Some(x), Some(y)) => x@ == y,
                    (None, None) => true,
                    _ => false,
                }
                &&& match (p.2, q.2) {
                    (Some(x), Some(y)) => x@ == y,
                    (None, None) => true,
                    _ => false,
                }
            },
            (None, None) => true,
            _ => false,
        },
{
    match s.parse::<hyper::Uri>() {
        Ok(u) => Some(
            (
                u.scheme_str().map(|x| x.to_string()),
                u.authority().map(|a| a.as_str().to_string()),
                u.path_and_query().map(|p| p.as_str().to_string()),
            ),
        ),
        Err(_) => None,
    }
}

/// What `parse_central_url` hands back for a URI whose authority carries
/// userinfo: the URL with the userinfo taken out, the precomputed `Basic`
/// header over the userinfo, and the server id, the userinfo up to its
/// first colon.
pub open spec fn central_with_userinfo(
    scheme: Option<Seq<char>>,
    a: Seq<char>,
    pq: Option<Seq<char>>,
) -> (Seq<char>, Seq<char>, Seq<char>) {
    let p = find_char(a, '@') as int;
    let userinfo = a.subrange(0, p);
    let rest = a.skip(p + 1);
    let host_port = rest.subrange(0, find_char(rest, '@') as int);
    let sch = match scheme {
        Some(s) => s,
        None => "https"@,
    };
    let pqs = match pq {
        Some(s) => s,
        None => Seq::empty(),
    };
    (
        sch + "://"@ + host_port + pqs,
        "Basic "@ + ascii_chars(base64_spec(encode_utf8(userinfo))),
        userinfo.subrange(0, find_char(userinfo, ':') as int),
    )
}

/// Splits a central URL into the URL to poll, the precomputed `Basic`
/// authorization value from the URL's userinfo, and the server id: the
/// userinfo up to its first colon. A URL without userinfo passes through
/// unchanged, with neither header nor id.
pub fn parse_central_url(central: &str) -> (r: Result<
    (Option<String>, Option<String>, Option<String>),
    CentralUrlError,
>)
    ensures
        match uri_parts_of(central@) {
            None => r is Err,
            Some(q) => match r {
                Err(_) => false,
                Ok((clean, header, sid)) => match q.1 {
                    Some(a) => if find_char(a, '@') < a.len() {
                        {
                            let want = central_with_userinfo(q.0, a, q.2);
                            &&& clean matches Some(c) && c@ == want.0
                            &&& header matches Some(h) && h@ == want.1
                            &&& sid matches Some(s) && s@ == want.2
                        }
                    } else {
                        clean matches Some(c) && c@ == central@ && header is None && sid is None
                    },
                    None => clean matches Some(c) && c@ == central@ && header is None
                        && sid is None,
                },
            },
        },
{
    let parts = match split_uri(central) {
        None => {
            return Err(CentralUrlError::Invalid);
        },
        Some(p) => p,
    };
    let (scheme_opt, authority_opt, pq_opt) = parts;
    match authority_opt {
        Some(a_string) => {
            let a = a_string.as_str();
            let alen = a.unicode_len();
            let mut p: usize = 0;
            while p < alen && a.get_char(p) != '@'
                invariant
                    alen == a@.len(),
                    p <= alen,
                    forall|i: int| 0 <= i < p ==> (#[trigger] a@[i]) != '@',
                decreases alen - p,
            {
                p += 1;
            }
            proof {
                lemma_find_char_unique(a@, '@', p as nat);
            }
            if p < alen {
                let userinfo = a.substring_char(0, p);
                let ulen = userinfo.unicode_len();
                let mut cpos: usize = 0;
                while cpos < ulen && userinfo.get_char(cpos) != ':'
                    invariant
                        ulen == userinfo@.len(),
                        cpos <= ulen,
                        forall|i: int| 0 <= i < cpos ==> (#[trigger] userinfo@[i]) != ':',
                    decreases ulen - cpos,
                {
                    cpos += 1;
                }
                proof {
                    lemma_find_char_unique(userinfo@, ':', cpos as nat);
                }
                let server_id = userinfo.substring_char(0, cpos);
                let mut q2: usize = p + 1;
                while q2 < alen && a.get_char(q2) != '@'
                    invariant
                        alen == a@.len(),
                        p + 1 <= q2 <= alen,
                        forall|i: int| p + 1 <= i < q2 ==> (#[trigger] a@[i]) != '@',
                    decreases alen - q2,
                {
                    q2 += 1;
                }
                proof {
                    let rest = a@.skip(p + 1);
                    assert(forall|i: int| 0 <= i < rest.len() ==> (#[trigger] rest[i]) == a@[
                        p + 1 + i]);
                    lemma_find_char_unique(rest, '@', (q2 - (p + 1)) as nat);
                }
                let host_port = a.substring_char(p + 1, q2);
                let b64 = base64_encode(userinfo.as_bytes());
                let mut header = String::from_str("Basic ");
                header.append(b64.as_str());
                let mut clean: String = match scheme_opt {
                    Some(s) => s,
                    None => String::from_str("https"),
                };
                clean.append("://");
                clean.append(host_port);
                match &pq_opt {
                    Some(pq) => clean.append(pq.as_str()),
                    None => {},
                }
                proof {
                    let q = uri_parts_of(central@)->0;
                    let want = central_with_userinfo(q.0, q.1->0, q.2);
                    assert(host_port@ =~= a@.skip(p + 1).subrange(
                        0,
                        find_char(a@.skip(p + 1), '@') as int,
                    ));
                    if pq_opt is None {
                        assert(clean@ =~= want.0);
                    }
                    assert(server_id@ =~= userinfo@.subrange(
                        0,
                        find_char(userinfo@, ':') as int,
                    ));
                }
                Ok((Some(clean), Some(header), Some(server_id.to_owned())))
            } else {
                Ok((Some(central.to_owned()), None, None))
            }
        },
        None => Ok((Some(central.to_owned()), None, None)),
    }
}

} // verus!
