//! The versioned configuration snapshot: per-prefix path policies behind a
//! longest-prefix index, the declared torrent set keyed by content id, and
//! the precomputed metrics authorization header.

use vstd::prelude::*;
use radix_trie::Trie;

verus! {

// ----- the outside prefix trie, declared and named -----

#[verifier::external_type_specification]
#[verifier::external_body]
#[verifier::reject_recursive_types(K)]
#[verifier::reject_recursive_types(V)]
pub struct ExTrie<K, V>(Trie<K, V>);

/// What the policy trie holds: its key-to-value map.
pub uninterp spec fn trie_model(t: Trie<String, usize>) -> Map<Seq<char>, usize>;

/// The map of a trie with nothing in it.
pub open spec fn empty_trie_model() -> Map<Seq<char>, usize> {
    Map::empty()
}

/// Relies on radix_trie::Trie::new: an empty trie.
#[verifier::external_body]
fn trie_new() -> (t: Trie<String, usize>)
    ensures
        trie_model(t) == empty_trie_model(),
{
    Trie::new()
}

/// Relies on radix_trie::Trie::insert: afterwards the key maps to the
/// value and every other key is unchanged.
#[verifier::external_body]
fn trie_insert(t: &mut Trie<String, usize>, key: String, value: usize)
    ensures
        trie_model(*final(t)) == trie_model(*old(t)).insert(key@, value),
{
    t.insert(key, value);
}

/// `p` begins `q`.
pub open spec fn is_prefix_of(p: Seq<char>, q: Seq<char>) -> bool {
    p.len() <= q.len() && p == q.subrange(0, p.len() as int)
}

/// Relies on radix_trie::Trie::get_ancestor_value: the value at the
/// longest stored key that is a prefix of the query — the query's own
/// entry counts — or nothing when no stored key is a prefix. The trie
/// compares `String` keys by their bytes, and for valid UTF-8 strings a
/// byte prefix at a character boundary is exactly a character prefix.
#[verifier::external_body]
fn trie_ancestor_value(t: &Trie<String, usize>, key: &str) -> (r: Option<usize>)
    ensures
        match r {
            Some(v) => exists|k: Seq<char>|
                #[trigger] trie_model(*t).contains_key(k) && is_prefix_of(k, key@) && trie_model(
                    *t,
                )[k] == v && (forall|k2: Seq<char>|
                    #[trigger] trie_model(*t).contains_key(k2) && is_prefix_of(k2, key@)
                        ==> k2.len() <= k.len()),
            None => forall|k: Seq<char>|
                #[trigger] trie_model(*t).contains_key(k) ==> !is_prefix_of(k, key@),
        },
{
    t.get_ancestor_value(key).copied()
}

// ----- configuration data -----

/// Per-path-prefix rule, immutable once constructed.
#[derive(Debug)]
pub struct PathConfig {
    pub autoindex: Option<bool>,
    pub signature: Option<String>,
    pub signature_expire_seconds: Option<u32>,
}

impl Clone for PathConfig {
    fn clone(&self) -> (r: Self)
        ensures
            r == *self,
    {
        PathConfig {
            autoindex: self.autoindex,
            signature: match &self.signature {
                Some(s) => Some(s.clone()),
                None => None,
            },
            signature_expire_seconds: self.signature_expire_seconds,
        }
    }
}

/// One declared content unit: where it lives, its descriptor document,
/// and the peers to bootstrap from, as textual socket addresses.
#[derive(Debug)]
pub struct TorrentConfig {
    pub path: String,
    pub torrent: Vec<u8>,
    pub initial_peers: Vec<String>,
}

/// A configuration document as fetched and decoded, before indexing.
#[derive(Debug)]
pub struct Config {
    pub version: Option<u64>,
    pub paths: Vec<(String, PathConfig)>,
    pub torrents: Option<Vec<TorrentConfig>>,
    pub management_token: Option<String>,
}

// ----- the content id behind a descriptor -----

/// What parsing a content descriptor yields: its content id as lowercase
/// hex, or nothing when the document does not parse. A fixed function of
/// the descriptor bytes.
pub uninterp spec fn parse_descriptor_spec(b: Seq<u8>) -> Option<Seq<char>>;

/// A lowercase hexadecimal digit, as a character.
pub open spec fn is_lower_hex_char(c: char) -> bool {
    (48 <= c as u32 && c as u32 <= 57) || (97 <= c as u32 && c as u32 <= 102)
}

/// Relies on librqbit::torrent_from_bytes and Id20::as_string: the
/// descriptor's info hash as 40 lowercase hex digits, or nothing when the
/// descriptor does not parse as a metainfo document.
#[verifier::external_body]
fn parse_torrent_id(descriptor: &[u8]) -> (r: Option<String>)
    ensures
        match (r, parse_descriptor_spec(descriptor@)) {
            (Some(id), Some(h)) => id@ == h,
            (None, None) => true,
            _ => false,
        },
        match r {
            Some(id) => id@.len() == 40 && forall|i: int|
                0 <= i < 40 ==> is_lower_hex_char(#[trigger] id@[i]),
            None => true,
        },
{
    match librqbit::torrent_from_bytes(descriptor) {
        Ok(t) => Some(t.info_hash.as_string()),
        Err(_) => None,
    }
}

// ----- the snapshot -----

/// An immutable, fully built configuration version: the policy index, the
/// declared torrent set keyed by content id, and the precomputed metrics
/// authorization header.
pub struct OptimizedConfig {
    pub version: u64,
    pub path_trie: Trie<String, usize>,
    pub policies: Vec<PathConfig>,
    pub torrents: Vec<(String, TorrentConfig)>,
    pub prometheus_auth_header: Option<String>,
}

/// The policy map a sequence of path entries describes: later entries for
/// the same prefix replace earlier ones.
pub open spec fn paths_map_spec(ps: Seq<(String, PathConfig)>) -> Map<Seq<char>, PathConfig>
    decreases ps.len(),
{
    if ps.len() == 0 {
        Map::empty()
    } else {
        paths_map_spec(ps.drop_last()).insert(ps.last().0@, ps.last().1)
    }
}

impl OptimizedConfig {
    /// The snapshot's policy index as a map from path prefix to policy.
    pub open spec fn policy_map(&self) -> Map<Seq<char>, PathConfig> {
        model_policy_map(trie_model(self.path_trie), self.policies@)
    }

    /// Every index the trie stores points into the policy table.
    pub open spec fn wf(&self) -> bool {
        forall|k: Seq<char>|
            #[trigger] trie_model(self.path_trie).contains_key(k) ==> trie_model(self.path_trie)[k]
                < self.policies@.len()
    }

    /// Longest-prefix policy lookup: the policy registered at the most
    /// specific prefix of `path`, the exact entry included; nothing when
    /// no registered prefix begins `path`.
    pub fn find_path_config<'a>(&'a self, path: &str) -> (r: Option<&'a PathConfig>)
        requires
            self.wf(),
        ensures
            match r {
                Some(p) => exists|k: Seq<char>|
                    #[trigger] self.policy_map().contains_key(k) && is_prefix_of(k, path@)
                        && self.policy_map()[k] == *p && (forall|k2: Seq<char>|
                        #[trigger] self.policy_map().contains_key(k2) && is_prefix_of(k2, path@)
                            ==> k2.len() <= k.len()),
                None => forall|k: Seq<char>|
                    #[trigger] self.policy_map().contains_key(k) ==> !is_prefix_of(k, path@),
            },
    {
        match trie_ancestor_value(&self.path_trie, path) {
            Some(idx) => {
                proof {
                    let k = choose|k: Seq<char>|
                        #[trigger] trie_model(self.path_trie).contains_key(k) && is_prefix_of(
                            k,
                            path@,
                        ) && trie_model(self.path_trie)[k] == idx && (forall|k2: Seq<char>|
                            #[trigger] trie_model(self.path_trie).contains_key(k2) && is_prefix_of(
                                k2,
                                path@,
                            ) ==> k2.len() <= k.len());
                    assert(trie_model(self.path_trie)[k] < self.policies@.len());
                }
                let p = &self.policies[idx];
                proof {
                    let k = choose|k: Seq<char>|
                        #[trigger] trie_model(self.path_trie).contains_key(k) && is_prefix_of(
                            k,
                            path@,
                        ) && trie_model(self.path_trie)[k] == idx && (forall|k2: Seq<char>|
                            #[trigger] trie_model(self.path_trie).contains_key(k2) && is_prefix_of(
                                k2,
                                path@,
                            ) ==> k2.len() <= k.len());
                    assert(self.policy_map().contains_key(k));
                    assert(self.policy_map()[k] == *p);
                    assert forall|k2: Seq<char>|
                        #[trigger] self.policy_map().contains_key(k2) && is_prefix_of(
                            k2,
                            path@,
                        ) implies k2.len() <= k.len() by {
                        assert(trie_model(self.path_trie).contains_key(k2));
                    }
                    assert(self.policy_map().contains_key(k) && is_prefix_of(k, path@)
                        && self.policy_map()[k] == *p && (forall|k2: Seq<char>|
                        #[trigger] self.policy_map().contains_key(k2) && is_prefix_of(k2, path@)
                            ==> k2.len() <= k.len()));
                }
                Some(p)
            },
            None => {
                proof {
                    assert forall|k: Seq<char>|
                        #[trigger] self.policy_map().contains_key(k) implies !is_prefix_of(
                        k,
                        path@,
                    ) by {
                        assert(trie_model(self.path_trie).contains_key(k));
                    }
                }
                None
            },
        }
    }

    /// The snapshot's change-detection token.
    pub fn get_version(&self) -> (r: u64)
        ensures
            r == self.version,
    {
        self.version
    }
}

impl Default for OptimizedConfig {
    /// The empty snapshot a node starts with before any configuration is
    /// published: version 0, no policies, no torrents, no metrics token.
    fn default() -> (r: Self)
        ensures
            r.wf(),
            r.version == 0,
            r.policy_map() == Map::<Seq<char>, PathConfig>::empty(),
            r.torrents@ == Seq::<(String, TorrentConfig)>::empty(),
            r.prometheus_auth_header is None,
    {
        let r = OptimizedConfig {
            version: 0,
            path_trie: trie_new(),
            policies: Vec::new(),
            torrents: Vec::new(),
            prometheus_auth_header: None,
        };
        proof {
            assert(r.policy_map() =~= Map::<Seq<char>, PathConfig>::empty());
            assert(r.torrents@ =~= Seq::<(String, TorrentConfig)>::empty());
        }
        r
    }
}


/// The effective version of a document: the field, or 0 when absent.
pub open spec fn effective_version(v: Option<u64>) -> u64 {
    match v {
        Some(x) => x,
        None => 0,
    }
}

/// The torrent items a document declares: its list, or nothing.
pub open spec fn config_torrent_items(c: Config) -> Seq<TorrentConfig> {
    match c.torrents {
        Some(ts) => ts@,
        None => Seq::empty(),
    }
}

/// The policy map that an index map over a policy table describes.
pub open spec fn model_policy_map(m: Map<Seq<char>, usize>, policies: Seq<PathConfig>) -> Map<
    Seq<char>,
    PathConfig,
> {
    Map::new(|k: Seq<char>| m.dom().contains(k), |k: Seq<char>| policies[m[k] as int])
}

/// What it means for a snapshot to be built from a document: the
/// effective version, the policy map of the path entries in order, the
/// `Bearer` header from the management token, and a torrent table that
/// keys each parseable declared item by its content id, later duplicates
/// replacing earlier ones, unparseable descriptors dropped.
pub open spec fn built_from(oc: OptimizedConfig, c: Config) -> bool {
    let items = config_torrent_items(c);
    &&& oc.version == effective_version(c.version)
    &&& oc.policy_map() == paths_map_spec(c.paths@)
    &&& (match (c.management_token, oc.prometheus_auth_header) {
        (Some(t), Some(h)) => h@ == "Bearer "@ + t@,
        (None, None) => true,
        _ => false,
    })
    &&& torrent_table_of(oc.torrents@, items)
}

/// `entries` is the content table of `items`: each entry keyed by the id
/// its descriptor parses to, ids unique, every parseable item present,
/// and each entry holding the last item that parsed to its id.
pub open spec fn torrent_table_of(
    entries: Seq<(String, TorrentConfig)>,
    items: Seq<TorrentConfig>,
) -> bool {
    &&& (forall|i: int|
        0 <= i < entries.len() ==> parse_descriptor_spec((#[trigger] entries[i]).1.torrent@)
            == Some(entries[i].0@))
    &&& (forall|i: int, j: int|
        0 <= i < j < entries.len() ==> (#[trigger] entries[i]).0@ != (#[trigger] entries[j]).0@)
    &&& (forall|j: int|
        0 <= j < items.len() && parse_descriptor_spec((#[trigger] items[j]).torrent@) is Some
            ==> exists|i: int|
            0 <= i < entries.len() && (#[trigger] entries[i]).0@ == parse_descriptor_spec(
                items[j].torrent@,
            )->0)
    &&& (forall|i: int|
        0 <= i < entries.len() ==> exists|j: int|
            0 <= j < items.len() && parse_descriptor_spec((#[trigger] items[j]).torrent@) == Some(
                (#[trigger] entries[i]).0@,
            ) && entries[i].1 == items[j] && (forall|j2: int|
                j < j2 < items.len() ==> parse_descriptor_spec((#[trigger] items[j2]).torrent@)
                    != Some(entries[i].0@)))
}

/// Builds the content table of a declared item list, in order.
fn build_torrent_table(tv: Vec<TorrentConfig>) -> (entries: Vec<(String, TorrentConfig)>)
    ensures
        torrent_table_of(entries@, tv@),
{
    let ghost tv0 = tv@;
    let mut tv = tv;
    let mut entries: Vec<(String, TorrentConfig)> = Vec::new();
    proof {
        assert(tv0.skip(0) =~= tv0);
    }
    while tv.len() > 0
        invariant
            tv@.len() <= tv0.len(),
            tv0.skip(tv0.len() - tv@.len()) == tv@,
            torrent_table_of(entries@, tv0.take(tv0.len() - tv@.len())),
        decreases tv@.len(),
    {
        let ghost done = tv0.len() - tv@.len();
        let ghost entries_old = entries@;
        let tc = tv.remove(0);
        proof {
            assert(tv0.skip(done as int)[0] == tv0[done as int]);
            assert(tv0.skip(done as int).remove(0) =~= tv0.skip(done + 1));
            assert(tv0.take(done + 1).drop_last() =~= tv0.take(done as int));
            assert(tv0.take(done + 1).last() == tv0[done as int]);
        }
        match parse_torrent_id(tc.torrent.as_slice()) {
            None => {
                proof {
                    lemma_table_step_none(entries@, tv0, done as int);
                }
            },
            Some(id) => {
                // replace the entry with this id, or add one
                let n = entries.len();
                let mut pos: usize = 0;
                let mut found = false;
                while pos < n && !found
                    invariant
                        n == entries@.len(),
                        pos <= n,
                        !found ==> forall|k: int|
                            0 <= k < pos ==> (#[trigger] entries@[k]).0@ != id@,
                        found ==> pos < n && entries@[pos as int].0@ == id@,
                    decreases n - pos + (if found { 0int } else { 1int }),
                {
                    if entries[pos].0 == id {
                        found = true;
                    } else {
                        pos += 1;
                    }
                }
                let ghost idv = id@;
                if found {
                    entries.remove(pos);
                }
                entries.push((id, tc));
                proof {
                    let p: int = if found {
                        pos as int
                    } else {
                        entries_old.len() as int
                    };
                    if found {
                        entries_old.remove_ensures(pos as int);
                        assert forall|i: int| 0 <= i < entries@.len() - 1 implies (
                        #[trigger] entries@[i]) == entries_old[if i < p {
                            i
                        } else {
                            i + 1
                        }] by {
                            assert(entries@[i] == entries_old.remove(pos as int)[i]);
                        }
                    } else {
                        assert(forall|i: int|
                            0 <= i < entries@.len() - 1 ==> (#[trigger] entries@[i])
                                == entries_old[i]);
                    }
                    assert(entries@.last().0@ == idv);
                    assert(table_step_shape(entries_old, entries@, p, idv));
                    lemma_table_step_some(entries_old, entries@, tv0, done as int, p);
                }
            },
        }
    }
    proof {
        assert(tv0.take(tv0.len() as int) =~= tv0);
    }
    entries
}

/// One table step on an item whose descriptor does not parse: the table
/// stands unchanged.
proof fn lemma_table_step_none(
    entries: Seq<(String, TorrentConfig)>,
    items: Seq<TorrentConfig>,
    done: int,
)
    requires
        0 <= done < items.len(),
        torrent_table_of(entries, items.take(done)),
        parse_descriptor_spec(items[done].torrent@) is None,
    ensures
        torrent_table_of(entries, items.take(done + 1)),
{
    let pre = items.take(done);
    let post = items.take(done + 1);
    assert(post.drop_last() =~= pre);
    assert(forall|j: int| 0 <= j < done ==> (#[trigger] post[j]) == pre[j]);
    assert forall|j: int|
        0 <= j < post.len() && parse_descriptor_spec((#[trigger] post[j]).torrent@) is Some
        implies exists|i: int|
        0 <= i < entries.len() && (#[trigger] entries[i]).0@ == parse_descriptor_spec(
            post[j].torrent@,
        )->0 by {
        assert(j < done);
        assert(pre[j] == post[j]);
    }
    assert forall|i: int| 0 <= i < entries.len() implies exists|j: int|
        0 <= j < post.len() && parse_descriptor_spec((#[trigger] post[j]).torrent@) == Some(
            (#[trigger] entries[i]).0@,
        ) && entries[i].1 == post[j] && (forall|j2: int|
            j < j2 < post.len() ==> parse_descriptor_spec((#[trigger] post[j2]).torrent@) != Some(
                entries[i].0@,
            )) by {
        let j = choose|j: int|
            0 <= j < pre.len() && parse_descriptor_spec((#[trigger] pre[j]).torrent@) == Some(
                entries[i].0@,
            ) && entries[i].1 == pre[j] && (forall|j2: int|
                j < j2 < pre.len() ==> parse_descriptor_spec((#[trigger] pre[j2]).torrent@)
                    != Some(entries[i].0@));
        assert(post[j] == pre[j]);
        assert(forall|j2: int|
            j < j2 < done ==> (#[trigger] post[j2]) == pre[j2]);
        assert(post[done] == items[done]);
        assert(0 <= j < post.len() && parse_descriptor_spec(post[j].torrent@) == Some(
            entries[i].0@,
        ) && entries[i].1 == post[j] && (forall|j2: int|
            j < j2 < post.len() ==> parse_descriptor_spec((#[trigger] post[j2]).torrent@) != Some(
                entries[i].0@,
            )));
    }
}

/// The shape of one table step on a parsed id: the new table is the old
/// one with any entry holding this id removed and a new entry for the id
/// appended.
pub open spec fn table_step_shape(
    entries_old: Seq<(String, TorrentConfig)>,
    entries_new: Seq<(String, TorrentConfig)>,
    pos: int,
    id: Seq<char>,
) -> bool {
    &&& 0 <= pos <= entries_old.len()
    &&& entries_new.len() == (if pos < entries_old.len() {
        entries_old.len() as int
    } else {
        entries_old.len() + 1 as int
    })
    &&& (forall|i: int|
        0 <= i < entries_new.len() - 1 ==> (#[trigger] entries_new[i]) == entries_old[if i < pos {
            i
        } else {
            i + 1
        }])
    &&& (pos < entries_old.len() ==> entries_old[pos].0@ == id)
    &&& (pos == entries_old.len() ==> forall|k: int|
        0 <= k < entries_old.len() ==> (#[trigger] entries_old[k]).0@ != id)
    &&& entries_new.len() > 0
    &&& entries_new.last().0@ == id
}

proof fn lemma_step_some_keys(
    eo: Seq<(String, TorrentConfig)>,
    en: Seq<(String, TorrentConfig)>,
    items: Seq<TorrentConfig>,
    done: int,
    pos: int,
)
    requires
        0 <= done < items.len(),
        torrent_table_of(eo, items.take(done)),
        parse_descriptor_spec(items[done].torrent@) == Some(en.last().0@),
        table_step_shape(eo, en, pos, en.last().0@),
        en.last().1 == items[done],
    ensures
        forall|i: int|
            0 <= i < en.len() ==> parse_descriptor_spec((#[trigger] en[i]).1.torrent@) == Some(
                en[i].0@,
            ),
        forall|i: int, j: int|
            0 <= i < j < en.len() ==> (#[trigger] en[i]).0@ != (#[trigger] en[j]).0@,
{
    let id = en.last().0@;
    assert forall|i: int| 0 <= i < en.len() implies parse_descriptor_spec(
        (#[trigger] en[i]).1.torrent@,
    ) == Some(en[i].0@) by {
        if i < en.len() - 1 {
            let i0: int = if i < pos {
                i
            } else {
                i + 1
            };
            assert(en[i] == eo[i0]);
        }
    }
    assert forall|i: int, j: int| 0 <= i < j < en.len() implies (#[trigger] en[i]).0@
        != (#[trigger] en[j]).0@ by {
        let i0: int = if i < pos {
            i
        } else {
            i + 1
        };
        if j < en.len() - 1 {
            let j0: int = if j < pos {
                j
            } else {
                j + 1
            };
            assert(en[i] == eo[i0] && en[j] == eo[j0]);
            assert(eo[i0].0@ != eo[j0].0@);
        } else {
            assert(en[i] == eo[i0]);
            if pos < eo.len() {
                assert(i0 != pos);
                if en[i].0@ == id {
                    if i0 < pos {
                        assert(eo[i0].0@ != eo[pos].0@);
                    } else {
                        assert(eo[pos].0@ != eo[i0].0@);
                    }
                }
            }
        }
    }
}

proof fn lemma_step_some_complete(
    eo: Seq<(String, TorrentConfig)>,
    en: Seq<(String, TorrentConfig)>,
    items: Seq<TorrentConfig>,
    done: int,
    pos: int,
)
    requires
        0 <= done < items.len(),
        torrent_table_of(eo, items.take(done)),
        parse_descriptor_spec(items[done].torrent@) == Some(en.last().0@),
        table_step_shape(eo, en, pos, en.last().0@),
        en.last().1 == items[done],
    ensures
        forall|j: int|
            0 <= j < items.take(done + 1).len() && parse_descriptor_spec(
                (#[trigger] items.take(done + 1)[j]).torrent@,
            ) is Some ==> exists|i: int|
                0 <= i < en.len() && (#[trigger] en[i]).0@ == parse_descriptor_spec(
                    items.take(done + 1)[j].torrent@,
                )->0,
{
    let id = en.last().0@;
    let pre = items.take(done);
    let post = items.take(done + 1);
    assert(forall|j: int| 0 <= j < done ==> (#[trigger] post[j]) == pre[j]);
    assert(post[done] == items[done]);
    assert forall|j: int|
        0 <= j < post.len() && parse_descriptor_spec((#[trigger] post[j]).torrent@) is Some
        implies exists|i: int|
        0 <= i < en.len() && (#[trigger] en[i]).0@ == parse_descriptor_spec(
            post[j].torrent@,
        )->0 by {
        if j == done {
            assert(en[en.len() - 1].0@ == parse_descriptor_spec(post[j].torrent@)->0);
        } else {
            assert(pre[j] == post[j]);
            let i0 = choose|i0: int|
                0 <= i0 < eo.len() && (#[trigger] eo[i0]).0@ == parse_descriptor_spec(
                    pre[j].torrent@,
                )->0;
            if eo[i0].0@ == id {
                assert(en[en.len() - 1].0@ == parse_descriptor_spec(post[j].torrent@)->0);
            } else {
                assert(i0 != pos || pos == eo.len());
                let i: int = if i0 < pos {
                    i0
                } else {
                    i0 - 1
                };
                assert(en[i] == eo[i0]);
                assert(en[i].0@ == parse_descriptor_spec(post[j].torrent@)->0);
            }
        }
    }
}

proof fn lemma_step_some_lastwins(
    eo: Seq<(String, TorrentConfig)>,
    en: Seq<(String, TorrentConfig)>,
    items: Seq<TorrentConfig>,
    done: int,
    pos: int,
)
    requires
        0 <= done < items.len(),
        torrent_table_of(eo, items.take(done)),
        parse_descriptor_spec(items[done].torrent@) == Some(en.last().0@),
        table_step_shape(eo, en, pos, en.last().0@),
        en.last().1 == items[done],
    ensures
        forall|i: int|
            0 <= i < en.len() ==> exists|j: int|
                0 <= j < items.take(done + 1).len() && parse_descriptor_spec(
                    (#[trigger] items.take(done + 1)[j]).torrent@,
                ) == Some((#[trigger] en[i]).0@) && en[i].1 == items.take(done + 1)[j] && (
                forall|j2: int|
                    j < j2 < items.take(done + 1).len() ==> parse_descriptor_spec(
                        (#[trigger] items.take(done + 1)[j2]).torrent@,
                    ) != Some(en[i].0@)),
{
    let id = en.last().0@;
    let pre = items.take(done);
    let post = items.take(done + 1);
    assert(forall|j: int| 0 <= j < done ==> (#[trigger] post[j]) == pre[j]);
    assert(post[done] == items[done]);
    assert forall|i: int| 0 <= i < en.len() implies exists|j: int|
        0 <= j < post.len() && parse_descriptor_spec((#[trigger] post[j]).torrent@) == Some(
            (#[trigger] en[i]).0@,
        ) && en[i].1 == post[j] && (forall|j2: int|
            j < j2 < post.len() ==> parse_descriptor_spec((#[trigger] post[j2]).torrent@) != Some(
                en[i].0@,
            )) by {
        if i == en.len() - 1 {
            assert(0 <= done < post.len() && parse_descriptor_spec(post[done].torrent@) == Some(
                en[i].0@,
            ) && en[i].1 == post[done] && (forall|j2: int|
                done < j2 < post.len() ==> parse_descriptor_spec(
                    (#[trigger] post[j2]).torrent@,
                ) != Some(en[i].0@)));
        } else {
            let i0: int = if i < pos {
                i
            } else {
                i + 1
            };
            assert(en[i] == eo[i0]);
            // this entry's id is not the id just inserted
            if pos < eo.len() {
                assert(i0 != pos);
                if en[i].0@ == id {
                    if i0 < pos {
                        assert(eo[i0].0@ != eo[pos].0@);
                    } else {
                        assert(eo[pos].0@ != eo[i0].0@);
                    }
                }
            }
            assert(en[i].0@ != id);
            let j = choose|j: int|
                0 <= j < pre.len() && parse_descriptor_spec((#[trigger] pre[j]).torrent@) == Some(
                    (#[trigger] eo[i0]).0@,
                ) && eo[i0].1 == pre[j] && (forall|j2: int|
                    j < j2 < pre.len() ==> parse_descriptor_spec((#[trigger] pre[j2]).torrent@)
                        != Some(eo[i0].0@));
            assert(post[j] == pre[j]);
            assert forall|j2: int|
                j < j2 < post.len() implies parse_descriptor_spec(
                (#[trigger] post[j2]).torrent@,
            ) != Some(en[i].0@) by {
                if j2 < done {
                    assert(post[j2] == pre[j2]);
                } else {
                    assert(post[j2] == items[done]);
                }
            }
            assert(0 <= j < post.len() && parse_descriptor_spec(post[j].torrent@) == Some(
                en[i].0@,
            ) && en[i].1 == post[j] && (forall|j2: int|
                j < j2 < post.len() ==> parse_descriptor_spec((#[trigger] post[j2]).torrent@)
                    != Some(en[i].0@)));
        }
    }
}

/// One table step on an item whose descriptor parses.
proof fn lemma_table_step_some(
    eo: Seq<(String, TorrentConfig)>,
    en: Seq<(String, TorrentConfig)>,
    items: Seq<TorrentConfig>,
    done: int,
    pos: int,
)
    requires
        0 <= done < items.len(),
        torrent_table_of(eo, items.take(done)),
        parse_descriptor_spec(items[done].torrent@) == Some(en.last().0@),
        table_step_shape(eo, en, pos, en.last().0@),
        en.last().1 == items[done],
    ensures
        torrent_table_of(en, items.take(done + 1)),
{
    lemma_step_some_keys(eo, en, items, done, pos);
    lemma_step_some_complete(eo, en, items, done, pos);
    lemma_step_some_lastwins(eo, en, items, done, pos);
}


impl OptimizedConfig {
    /// Indexes a configuration document into a snapshot: the path entries
    /// go into the prefix index in order, each parseable torrent into the
    /// content table, and the management token into the `Bearer` header.
    pub fn from_config(config: Config) -> (r: OptimizedConfig)
        ensures
            r.wf(),
            built_from(r, config),
    {
        let Config { version, paths, torrents, management_token } = config;
        let ghost paths0 = paths@;
        let mut paths = paths;
        let mut path_trie = trie_new();
        let mut policies: Vec<PathConfig> = Vec::new();
        proof {
            assert(paths0.skip(0) =~= paths0);
            assert(model_policy_map(trie_model(path_trie), policies@) =~= paths_map_spec(
                paths0.take(0),
            ));
        }
        while paths.len() > 0
            invariant
                paths@.len() <= paths0.len(),
                paths0.skip(paths0.len() - paths@.len()) == paths@,
                model_policy_map(trie_model(path_trie), policies@) == paths_map_spec(
                    paths0.take(paths0.len() - paths@.len()),
                ),
                forall|k: Seq<char>|
                    #[trigger] trie_model(path_trie).contains_key(k) ==> trie_model(path_trie)[k]
                        < policies@.len(),
            decreases paths@.len(),
        {
            let ghost done = paths0.len() - paths@.len();
            let ghost model_old = trie_model(path_trie);
            let ghost pol_old = policies@;
            let (key, pc) = paths.remove(0);
            let ghost keyv = key@;
            let ghost pcv = pc;
            proof {
                assert(paths0.skip(done as int)[0] == paths0[done as int]);
                assert(paths0.skip(done as int).remove(0) =~= paths0.skip(done + 1));
            }
            let idx = policies.len();
            trie_insert(&mut path_trie, key, idx);
            policies.push(pc);
            proof {
                assert(paths0.take(done + 1).drop_last() =~= paths0.take(done as int));
                assert(paths0.take(done + 1).last() == paths0[done as int]);
                assert(model_policy_map(trie_model(path_trie), policies@) =~= model_policy_map(
                    model_old,
                    pol_old,
                ).insert(keyv, pcv)) by {
                    assert(trie_model(path_trie) == model_old.insert(keyv, idx));
                    assert forall|k2: Seq<char>|
                        #[trigger] trie_model(path_trie).dom().contains(k2) && k2 != keyv
                        implies model_policy_map(trie_model(path_trie), policies@)[k2]
                        == model_policy_map(model_old, pol_old)[k2] by {
                        assert(model_old.contains_key(k2));
                        assert(model_old[k2] < pol_old.len());
                        assert(policies@[model_old[k2] as int] == pol_old[model_old[k2] as int]);
                    }
                }
            }
        }
        proof {
            assert(paths0.take(paths0.len() as int) =~= paths0);
        }
        let torrents_built: Vec<(String, TorrentConfig)> = match torrents {
            Some(tv) => build_torrent_table(tv),
            None => {
                let empty: Vec<(String, TorrentConfig)> = Vec::new();
                proof {
                    assert(torrent_table_of(empty@, Seq::empty()));
                }
                empty
            },
        };
        let prometheus_auth_header: Option<String> = match management_token {
            Some(t) => {
                let mut h = String::from_str("Bearer ");
                h.append(t.as_str());
                proof {
                    reveal_strlit("Bearer ");
                }
                Some(h)
            },
            None => None,
        };
        let version: u64 = match version {
            Some(v) => v,
            None => 0,
        };
        OptimizedConfig {
            version,
            path_trie,
            policies,
            torrents: torrents_built,
            prometheus_auth_header,
        }
    }
}

} // verus!
