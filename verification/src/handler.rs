//! The request pipeline's decisions: which answer a request gets, given
//! the method, path, policy snapshot, signature verdict, and what the
//! filesystem holds. The I/O around it — accepting, statting, streaming —
//! happens outside the library.

use vstd::prelude::*;
use vstd::string::StringSliceAdditionalSpecFns;
use vstd::utf8::encode_utf8;
use crate::bytestr::str_chars_eq;
use crate::cache::FileSystemStatus;
use crate::config::{is_prefix_of, OptimizedConfig, PathConfig};
use crate::signature::{
    opt_str_bytes, status_code_spec, verify_sig_spec, verify_signature_at, SignatureError,
};

verus! {

/// The request methods the node distinguishes: content is served only to
/// GET and HEAD.
#[derive(Debug, Clone, Copy, PartialEq, Eq, Structural)]
pub enum RequestMethod {
    Get,
    Head,
    Other,
}

/// What the node answers a request with.
#[derive(Debug)]
pub enum RequestDecision {
    /// Hand the request to the metrics endpoint.
    Metrics,
    /// Method-not-allowed: only GET and HEAD reach content.
    MethodNotAllowed,
    /// A signature failure, with the status to answer it.
    Reject(u16),
    /// Nothing there — or a directory without autoindex.
    NotFound,
    /// Render a directory listing, signing its links when a secret stands.
    Autoindex { signature_token: Option<String>, expire_seconds: u32 },
    /// Stream the file.
    ServeFile,
}

/// Whether any registered prefix begins the path.
pub open spec fn has_policy(m: Map<Seq<char>, PathConfig>, path: Seq<char>) -> bool {
    exists|k: Seq<char>| #[trigger] m.contains_key(k) && is_prefix_of(k, path)
}

/// The longest registered prefix of the path.
pub open spec fn best_policy_key(m: Map<Seq<char>, PathConfig>, path: Seq<char>) -> Seq<char> {
    choose|k: Seq<char>|
        #[trigger] m.contains_key(k) && is_prefix_of(k, path) && (forall|k2: Seq<char>|
            #[trigger] m.contains_key(k2) && is_prefix_of(k2, path) ==> k2.len() <= k.len())
}

/// Longest-prefix policy lookup over a policy map.
pub open spec fn lookup_policy(m: Map<Seq<char>, PathConfig>, path: Seq<char>) -> Option<
    PathConfig,
> {
    if has_policy(m, path) {
        Some(m[best_policy_key(m, path)])
    } else {
        None
    }
}

/// Two longest matching prefixes are one: prefixes of one path with equal
/// length are equal.
proof fn lemma_longest_unique(
    m: Map<Seq<char>, PathConfig>,
    path: Seq<char>,
    k1: Seq<char>,
    k2: Seq<char>,
)
    requires
        m.contains_key(k1),
        is_prefix_of(k1, path),
        forall|k: Seq<char>|
            #[trigger] m.contains_key(k) && is_prefix_of(k, path) ==> k.len() <= k1.len(),
        m.contains_key(k2),
        is_prefix_of(k2, path),
        forall|k: Seq<char>|
            #[trigger] m.contains_key(k) && is_prefix_of(k, path) ==> k.len() <= k2.len(),
    ensures
        k1 == k2,
{
    assert(k1.len() == k2.len());
    assert(k1 =~= k2);
}

/// The decision a request gets, in the order the pipeline takes it: the
/// metrics path first, then the method gate, then the signature of the
/// longest-prefix policy, then what the filesystem holds.
pub open spec fn route_spec(
    m: Map<Seq<char>, PathConfig>,
    method: RequestMethod,
    path: Seq<char>,
    path_b: Seq<u8>,
    query_b: Option<Seq<u8>>,
    range_b: Option<Seq<u8>>,
    fs: FileSystemStatus,
    now: u64,
) -> RequestDecision {
    if path == "/-/metrics"@ {
        RequestDecision::Metrics
    } else if !(method is Get || method is Head) {
        RequestDecision::MethodNotAllowed
    } else {
        let pol = lookup_policy(m, path);
        let sig = match pol {
            Some(p) => match p.signature {
                Some(secret) => verify_sig_spec(path_b, query_b, encode_utf8(secret@), range_b, now),
                None => Ok(()),
            },
            None => Ok(()),
        };
        match sig {
            Err(e) => RequestDecision::Reject(status_code_spec(e)),
            Ok(()) => {
                let autoindex = match pol {
                    Some(p) => match p.autoindex {
                        Some(b) => b,
                        None => false,
                    },
                    None => false,
                };
                match fs {
                    FileSystemStatus::NotExists => RequestDecision::NotFound,
                    FileSystemStatus::Directory => if autoindex {
                        RequestDecision::Autoindex {
                            signature_token: match pol {
                                Some(p) => p.signature,
                                None => None,
                            },
                            expire_seconds: match pol {
                                Some(p) => match p.signature_expire_seconds {
                                    Some(e) => e,
                                    None => 3600,
                                },
                                None => 3600,
                            },
                        }
                    } else {
                        RequestDecision::NotFound
                    },
                    FileSystemStatus::File => RequestDecision::ServeFile,
                }
            },
        }
    }
}

/// Decides a request against a snapshot at moment `now`.
pub fn route_request(
    config: &OptimizedConfig,
    method: RequestMethod,
    path: &str,
    query: Option<&str>,
    range_header: Option<&str>,
    fs_status: FileSystemStatus,
    now: u64,
) -> (r: RequestDecision)
    requires
        config.wf(),
    ensures
        r == route_spec(
            config.policy_map(),
            method,
            path@,
            path.spec_bytes(),
            opt_str_bytes(query),
            opt_str_bytes(range_header),
            fs_status,
            now,
        ),
{
    let ghost m = config.policy_map();
    if str_chars_eq(path, "/-/metrics") {
        return RequestDecision::Metrics;
    }
    match method {
        RequestMethod::Get => {},
        RequestMethod::Head => {},
        RequestMethod::Other => {
            return RequestDecision::MethodNotAllowed;
        },
    }
    let policy = config.find_path_config(path);
    proof {
        match policy {
            Some(p) => {
                let kw = choose|k: Seq<char>|
                    #[trigger] m.contains_key(k) && is_prefix_of(k, path@) && m[k] == *p && (
                    forall|k2: Seq<char>|
                        #[trigger] m.contains_key(k2) && is_prefix_of(k2, path@) ==> k2.len()
                            <= k.len());
                assert(has_policy(m, path@));
                let kc = best_policy_key(m, path@);
                assert(m.contains_key(kc) && is_prefix_of(kc, path@) && (forall|k2: Seq<char>|
                    #[trigger] m.contains_key(k2) && is_prefix_of(k2, path@) ==> k2.len()
                        <= kc.len()));
                lemma_longest_unique(m, path@, kw, kc);
                assert(lookup_policy(m, path@) == Some(*p));
            },
            None => {
                assert(!has_policy(m, path@));
            },
        }
    }
    let sig_result: Result<(), SignatureError> = match policy {
        Some(p) => match &p.signature {
            Some(secret) => verify_signature_at(path, query, secret.as_str(), range_header, now),
            None => Ok(()),
        },
        None => Ok(()),
    };
    match sig_result {
        Err(e) => {
            return RequestDecision::Reject(e.status_code());
        },
        Ok(()) => {},
    }
    let autoindex: bool = match policy {
        Some(p) => match p.autoindex {
            Some(b) => b,
            None => false,
        },
        None => false,
    };
    match fs_status {
        FileSystemStatus::NotExists => RequestDecision::NotFound,
        FileSystemStatus::Directory => {
            if autoindex {
                let signature_token: Option<String> = match policy {
                    Some(p) => match &p.signature {
                        Some(s) => Some(s.clone()),
                        None => None,
                    },
                    None => None,
                };
                let expire_seconds: u32 = match policy {
                    Some(p) => match p.signature_expire_seconds {
                        Some(e) => e,
                        None => 3600,
                    },
                    None => 3600,
                };
                RequestDecision::Autoindex { signature_token, expire_seconds }
            } else {
                RequestDecision::NotFound
            }
        },
        FileSystemStatus::File => RequestDecision::ServeFile,
    }
}

/// The metrics endpoint's gate: with no token configured every request
/// passes; with one, the request's Authorization header must equal the
/// precomputed value exactly.
pub fn metrics_auth_ok(expected: &Option<String>, provided: Option<&str>) -> (r: bool)
    ensures
        r == match expected {
            Some(e) => provided is Some && provided->0@ == e@,
            None => true,
        },
{
    match expected {
        Some(e) => match provided {
            Some(h) => str_chars_eq(h, e.as_str()),
            None => false,
        },
        None => true,
    }
}

} // verus!
