//! The per-instance session record and its guardrails: the allowlist,
//! the trusted-peer set, peer aliases, the automatic-change budget and the
//! per-content-type sync toggles, plus the session store.
use vstd::prelude::*;

use crate::paths::{path_excluded_spec, slashify_spec, strs_view_of};
use crate::state::{seq_lt, ConfigFileState, SyncState};
use crate::text::{lower_spec, trim_spec};

verus! {

/// One known peer of the session.
pub struct FriendPeerRecord {
    pub peer_id: String,
    pub display_name: String,
    pub endpoint: String,
    pub added_at: String,
    pub last_seen_at: Option<String>,
    pub online: bool,
    pub last_state_hash: Option<String>,
}

/// A retained value of one side of a conflict.
pub enum ConflictValue {
    LockEntry(crate::state::CanonicalLockEntry),
    ConfigFile(ConfigFileState),
}

/// One pending conflict, with both sides' retained values.
pub struct FriendSyncConflictRecord {
    pub id: String,
    pub kind: String,
    pub key: String,
    pub peer_id: String,
    pub mine_hash: String,
    pub theirs_hash: String,
    pub mine_preview: Option<String>,
    pub theirs_preview: Option<String>,
    pub mine_value: Option<ConflictValue>,
    pub theirs_value: Option<ConflictValue>,
    pub created_at: String,
}

/// One row of the last-good manifest.
pub struct FriendManifestEntry {
    pub key: String,
    pub hash: String,
    pub kind: String,
}

/// The most recently fully synced baseline.
pub struct FriendLastGoodSnapshot {
    pub state_hash: String,
    pub manifest: Vec<FriendManifestEntry>,
    pub updated_at: String,
}

/// The durable record of one linked instance.
pub struct FriendLinkSessionRecord {
    pub instance_id: String,
    pub group_id: String,
    pub local_peer_id: String,
    pub display_name: String,
    pub shared_secret_b64: String,
    pub protocol_version: u32,
    pub listener_port: u16,
    pub listener_endpoint: Option<String>,
    pub peers: Vec<FriendPeerRecord>,
    pub allowlist: Vec<String>,
    pub last_peer_sync_at: Vec<(String, i64)>,
    pub last_good_snapshot: Option<FriendLastGoodSnapshot>,
    pub pending_conflicts: Vec<FriendSyncConflictRecord>,
    pub cached_peer_state: Vec<(String, SyncState)>,
    pub bootstrap_host_peer_id: Option<String>,
    pub trusted_peer_ids: Vec<String>,
    pub trusted_peer_ids_initialized: bool,
    pub peer_aliases: Vec<(String, String)>,
    pub max_auto_changes: usize,
    pub sync_mods: bool,
    pub sync_resourcepacks: bool,
    pub sync_shaderpacks: bool,
    pub sync_datapacks: bool,
}

/// The whole session store, one record per linked instance.
pub struct FriendLinkStoreV1 {
    pub version: u32,
    pub sessions: Vec<FriendLinkSessionRecord>,
}

/// Whether some peer in the list carries the id.
pub open spec fn has_peer(peers: Seq<FriendPeerRecord>, id: Seq<char>) -> bool {
    exists|i: int| 0 <= i < peers.len() && (#[trigger] peers[i]).peer_id@ == id
}

/// The ids of all peers, in order.
pub open spec fn peer_ids_spec(peers: Seq<FriendPeerRecord>) -> Seq<Seq<char>> {
    peers.map_values(|p: FriendPeerRecord| p.peer_id@)
}

/// Trusted-id normalization: trim each requested id, keep it when it names
/// a current peer and was not kept before, preserving first-seen order.
pub open spec fn norm_trusted_spec(
    peers: Seq<FriendPeerRecord>,
    input: Seq<Seq<char>>,
    acc: Seq<Seq<char>>,
) -> Seq<Seq<char>>
    decreases input.len(),
{
    if input.len() == 0 {
        acc
    } else {
        let t = trim_spec(input[0]);
        if t.len() > 0 && has_peer(peers, t) && !acc.contains(t) {
            norm_trusted_spec(peers, input.drop_first(), acc.push(t))
        } else {
            norm_trusted_spec(peers, input.drop_first(), acc)
        }
    }
}

/// Every id the normalization keeps names a current peer.
pub proof fn lemma_norm_trusted_subset(
    peers: Seq<FriendPeerRecord>,
    input: Seq<Seq<char>>,
    acc: Seq<Seq<char>>,
)
    requires
        forall|s: Seq<char>| #[trigger] acc.contains(s) ==> has_peer(peers, s),
    ensures
        forall|s: Seq<char>| #[trigger]
            norm_trusted_spec(peers, input, acc).contains(s) ==> has_peer(peers, s),
    decreases input.len(),
{
    if input.len() == 0 {
        assert(norm_trusted_spec(peers, input, acc) == acc);
    } else {
        let t = trim_spec(input[0]);
        if t.len() > 0 && has_peer(peers, t) && !acc.contains(t) {
            assert forall|s: Seq<char>| #[trigger] acc.push(t).contains(s) implies has_peer(
                peers,
                s,
            ) by {
                let w = choose|w: int| 0 <= w < acc.push(t).len() && acc.push(t)[w] == s;
                if w < acc.len() {
                    assert(acc.contains(s)) by {
                        assert(acc[w] == s);
                    }
                }
            }
            lemma_norm_trusted_subset(peers, input.drop_first(), acc.push(t));
            assert(norm_trusted_spec(peers, input, acc) == norm_trusted_spec(
                peers,
                input.drop_first(),
                acc.push(t),
            ));
        } else {
            lemma_norm_trusted_subset(peers, input.drop_first(), acc);
            assert(norm_trusted_spec(peers, input, acc) == norm_trusted_spec(
                peers,
                input.drop_first(),
                acc,
            ));
        }
    }
}

/// Whether a string list holds `s`.
fn strs_contain(v: &Vec<String>, s: &String) -> (r: bool)
    ensures
        r == strs_view_of(v@).contains(s@),
{
    let mut i: usize = 0;
    while i < v.len()
        invariant
            i <= v@.len(),
            forall|m: int| 0 <= m < i ==> #[trigger] strs_view_of(v@)[m] != s@,
        decreases v@.len() - i,
    {
        proof {
            assert(strs_view_of(v@)[i as int] == v@[i as int]@);
        }
        if crate::text::str_eq(&v[i], s) {
            proof {
                assert(strs_view_of(v@).contains(s@)) by {
                    assert(strs_view_of(v@)[i as int] == s@);
                }
            }
            return true;
        }
        i = i + 1;
    }
    proof {
        if strs_view_of(v@).contains(s@) {
            let w = choose|w: int| 0 <= w < strs_view_of(v@).len() && strs_view_of(v@)[w] == s@;
            assert(false);
        }
    }
    false
}

/// Whether the session knows a peer with this id.
fn session_has_peer(peers: &Vec<FriendPeerRecord>, id: &String) -> (r: bool)
    ensures
        r == has_peer(peers@, id@),
{
    let mut i: usize = 0;
    while i < peers.len()
        invariant
            i <= peers@.len(),
            forall|m: int| 0 <= m < i ==> (#[trigger] peers@[m]).peer_id@ != id@,
        decreases peers@.len() - i,
    {
        if crate::text::str_eq(&peers[i].peer_id, id) {
            proof {
                assert(has_peer(peers@, id@)) by {
                    assert(peers@[i as int].peer_id@ == id@);
                }
            }
            return true;
        }
        i = i + 1;
    }
    proof {
        if has_peer(peers@, id@) {
            let w = choose|w: int|
                0 <= w < peers@.len() && (#[trigger] peers@[w]).peer_id@ == id@;
            assert(false);
        }
    }
    false
}

/// Keep only requested ids that name current peers, trimmed, first
/// occurrence each.
pub fn normalize_trusted_peer_ids(session: &FriendLinkSessionRecord, input: &Vec<String>) -> (r:
    Vec<String>)
    ensures
        strs_view_of(r@) == norm_trusted_spec(session.peers@, strs_view_of(input@), Seq::empty()),
        forall|s: Seq<char>| #[trigger] strs_view_of(r@).contains(s) ==> has_peer(
            session.peers@,
            s,
        ),
{
    let mut out: Vec<String> = Vec::new();
    let mut i: usize = 0;
    proof {
        assert(strs_view_of(input@).skip(0) =~= strs_view_of(input@));
        assert(strs_view_of(out@) =~= Seq::<Seq<char>>::empty());
    }
    while i < input.len()
        invariant
            i <= input@.len(),
            norm_trusted_spec(session.peers@, strs_view_of(input@), Seq::empty())
                == norm_trusted_spec(
                session.peers@,
                strs_view_of(input@).skip(i as int),
                strs_view_of(out@),
            ),
        decreases input@.len() - i,
    {
        let ghost rem = strs_view_of(input@).skip(i as int);
        proof {
            assert(rem[0] == input@[i as int]@);
            assert(rem.drop_first() =~= strs_view_of(input@).skip(i + 1));
        }
        let t = crate::text::trim_string(input[i].as_str());
        if !t.as_str().is_empty() && session_has_peer(&session.peers, &t) && !strs_contain(
            &out,
            &t,
        ) {
            let ghost before = strs_view_of(out@);
            out.push(t);
            proof {
                assert(strs_view_of(out@) =~= before.push(trim_spec(rem[0])));
            }
        }
        i = i + 1;
    }
    proof {
        assert(strs_view_of(input@).skip(input@.len() as int).len() == 0);
        lemma_norm_trusted_subset(session.peers@, strs_view_of(input@), Seq::empty());
    }
    out
}

/// All current peer ids, the default trust set for legacy sessions.
#[verifier::loop_isolation(false)]
pub fn default_trusted_peer_ids(session: &FriendLinkSessionRecord) -> (r: Vec<String>)
    ensures
        strs_view_of(r@) == peer_ids_spec(session.peers@),
{
    let mut out: Vec<String> = Vec::new();
    let mut i: usize = 0;
    while i < session.peers.len()
        invariant
            i <= session.peers@.len(),
            strs_view_of(out@) == peer_ids_spec(session.peers@).subrange(0, i as int),
        decreases session.peers@.len() - i,
    {
        let ghost before = out@;
        let peer = &session.peers[i];
        proof {
            assert(*peer == session.peers@[i as int]);
        }
        let cloned = crate::state::clone_string(&peer.peer_id);
        proof {
            assert(cloned@ == peer.peer_id@);
            assert(cloned@ == session.peers@[i as int].peer_id@);
        }
        let ghost cl = cloned@;
        out.push(cloned);
        i = i + 1;
        proof {
            assert(out@ == before.push(out@[i - 1]));
            assert(out@[i - 1]@ == cl);
            assert(out@[i - 1]@ == session.peers@[i - 1].peer_id@);
            assert forall|m: int| 0 <= m < i implies strs_view_of(out@)[m] == peer_ids_spec(
                session.peers@,
            ).subrange(0, i as int)[m] by {
                assert(strs_view_of(out@)[m] == out@[m]@);
                assert(peer_ids_spec(session.peers@)[m] == session.peers@[m].peer_id@);
                if m < i - 1 {
                    assert(out@[m] == before[m]);
                    assert(strs_view_of(before)[m] == before[m]@);
                    assert(strs_view_of(before)[m] == peer_ids_spec(session.peers@).subrange(
                        0,
                        i - 1,
                    )[m]);
                }
            }
            assert(strs_view_of(out@) =~= peer_ids_spec(session.peers@).subrange(0, i as int));
        }
    }
    proof {
        assert(peer_ids_spec(session.peers@).subrange(
            0,
            session.peers@.len() as int,
        ) =~= peer_ids_spec(session.peers@));
    }
    out
}

/// What trust initialization leaves behind: an initialized session only has
/// its stale ids dropped; a legacy session with peers is trusted-by-default
/// exactly once; an empty legacy session stays untouched.
pub open spec fn trusted_after_init(
    peers: Seq<FriendPeerRecord>,
    old_trusted: Seq<Seq<char>>,
    inited: bool,
) -> (Seq<Seq<char>>, bool) {
    let n = norm_trusted_spec(peers, old_trusted, Seq::empty());
    if inited {
        (n, true)
    } else if n.len() == 0 && peers.len() == 0 {
        (n, false)
    } else if n.len() == 0 {
        (peer_ids_spec(peers), true)
    } else {
        (n, true)
    }
}

/// Normalize the trusted-peer set, and on the first pass over a legacy
/// session with at least one peer, trust every current peer.
pub fn ensure_trusted_peer_ids_initialized(session: &mut FriendLinkSessionRecord)
    ensures
        ({
            let (ids, inited) = trusted_after_init(
                old(session).peers@,
                strs_view_of(old(session).trusted_peer_ids@),
                old(session).trusted_peer_ids_initialized,
            );
            &&& strs_view_of(final(session).trusted_peer_ids@) == ids
            &&& final(session).trusted_peer_ids_initialized == inited
        }),
        *final(session) == (FriendLinkSessionRecord {
            trusted_peer_ids: final(session).trusted_peer_ids,
            trusted_peer_ids_initialized: final(session).trusted_peer_ids_initialized,
            ..*old(session)
        }),
{
    let normalized = normalize_trusted_peer_ids(session, &session.trusted_peer_ids);
    if session.trusted_peer_ids_initialized {
        session.trusted_peer_ids = normalized;
        return ;
    }
    if normalized.len() == 0 {
        if session.peers.len() == 0 {
            session.trusted_peer_ids = normalized;
            return ;
        }
        let all = default_trusted_peer_ids(session);
        session.trusted_peer_ids = all;
    } else {
        session.trusted_peer_ids = normalized;
    }
    session.trusted_peer_ids_initialized = true;
}

/// A display alias after cleaning: trimmed, cut at 48 characters, dropped
/// when nothing is left.
pub open spec fn alias_clean_spec(s: Seq<char>) -> Option<Seq<char>> {
    let t = trim_spec(s);
    if t.len() == 0 {
        Option::None
    } else if t.len() > 48 {
        Option::Some(t.subrange(0, 48))
    } else {
        Option::Some(t)
    }
}

/// Clean a requested peer alias.
pub fn sanitize_peer_alias(input: Option<String>) -> (r: Option<String>)
    ensures
        match (r, alias_clean_spec(
            match input {
                Option::Some(s) => s@,
                Option::None => Seq::empty(),
            },
        )) {
            (Option::Some(a), Option::Some(b)) => a@ == b,
            (Option::None, Option::None) => true,
            _ => false,
        },
{
    let raw = match input {
        Option::Some(s) => s,
        Option::None => {
            proof {
                crate::text::lemma_trim_empty();
            }
            return Option::None;
        },
    };
    let v = crate::text::chars_vec(raw.as_str());
    let t = crate::text::trim_chars(&v);
    if t.len() == 0 {
        return Option::None;
    }
    if t.len() > 48 {
        let mut cut: Vec<char> = Vec::new();
        let mut i: usize = 0;
        while i < 48
            invariant
                i <= 48,
                t@.len() > 48,
                cut@ == t@.subrange(0, i as int),
            decreases 48 - i,
        {
            cut.push(t[i]);
            i = i + 1;
            proof {
                assert(cut@ =~= t@.subrange(0, i as int));
            }
        }
        return Option::Some(crate::text::string_from_chars(&cut));
    }
    Option::Some(crate::text::string_from_chars(&t))
}

/// A display name after cleaning: trimmed, with a generated fallback when
/// nothing is left.
pub fn sanitize_display_name(input: Option<String>, fallback_suffix: &str) -> (r: String)
    ensures
        ({
            let t = trim_spec(
                match input {
                    Option::Some(s) => s@,
                    Option::None => Seq::empty(),
                },
            );
            r@ == if t.len() > 0 {
                t
            } else {
                "Peer-"@ + fallback_suffix@
            }
        }),
{
    match input {
        Option::Some(s) => {
            let v = crate::text::chars_vec(s.as_str());
            let t = crate::text::trim_chars(&v);
            if t.len() > 0 {
                return crate::text::string_from_chars(&t);
            }
        },
        Option::None => {
            proof {
                crate::text::lemma_trim_empty();
            }
        },
    }
    let mut out: Vec<char> = Vec::new();
    crate::text::push_str_chars(&mut out, "Peer-");
    crate::text::push_str_chars(&mut out, fallback_suffix);
    proof {
        assert(out@ =~= "Peer-"@ + fallback_suffix@);
    }
    crate::text::string_from_chars(&out)
}

/// Alias normalization: keep aliases of current peers that survive
/// cleaning, first entry per peer.
pub open spec fn norm_aliases_spec(
    peers: Seq<FriendPeerRecord>,
    input: Seq<(Seq<char>, Seq<char>)>,
    acc: Seq<(Seq<char>, Seq<char>)>,
) -> Seq<(Seq<char>, Seq<char>)>
    decreases input.len(),
{
    if input.len() == 0 {
        acc
    } else {
        let id = input[0].0;
        let cleaned = alias_clean_spec(input[0].1);
        if has_peer(peers, id) && cleaned is Some && !crate::state::pairs_have_key(acc, id) {
            norm_aliases_spec(peers, input.drop_first(), acc.push((id, cleaned->Some_0)))
        } else {
            norm_aliases_spec(peers, input.drop_first(), acc)
        }
    }
}

/// Drop aliases of unknown peers and clean the rest.
pub fn normalize_peer_aliases(session: &FriendLinkSessionRecord, input: &Vec<(String, String)>) -> (r:
    Vec<(String, String)>)
    ensures
        crate::state::pairs_view(r@) == norm_aliases_spec(
            session.peers@,
            crate::state::pairs_view(input@),
            Seq::empty(),
        ),
{
    let mut out: Vec<(String, String)> = Vec::new();
    let mut i: usize = 0;
    proof {
        assert(crate::state::pairs_view(input@).skip(0) =~= crate::state::pairs_view(input@));
        assert(crate::state::pairs_view(out@) =~= Seq::<(Seq<char>, Seq<char>)>::empty());
    }
    while i < input.len()
        invariant
            i <= input@.len(),
            norm_aliases_spec(session.peers@, crate::state::pairs_view(input@), Seq::empty())
                == norm_aliases_spec(
                session.peers@,
                crate::state::pairs_view(input@).skip(i as int),
                crate::state::pairs_view(out@),
            ),
        decreases input@.len() - i,
    {
        let ghost rem = crate::state::pairs_view(input@).skip(i as int);
        proof {
            assert(rem[0] == (input@[i as int].0@, input@[i as int].1@));
            assert(rem.drop_first() =~= crate::state::pairs_view(input@).skip(i + 1));
        }
        let id = crate::state::clone_string(&input[i].0);
        let known = session_has_peer(&session.peers, &id);
        let cleaned = sanitize_peer_alias(Option::Some(crate::state::clone_string(&input[i].1)));
        let mut key_present = false;
        let mut m: usize = 0;
        while m < out.len()
            invariant
                m <= out@.len(),
                id@ == input@[i as int].0@,
                key_present ==> crate::state::pairs_have_key(crate::state::pairs_view(out@), id@),
                !key_present ==> forall|w: int|
                    0 <= w < m ==> (#[trigger] crate::state::pairs_view(out@)[w]).0 != id@,
            decreases out@.len() - m,
        {
            proof {
                assert(crate::state::pairs_view(out@)[m as int].0 == out@[m as int].0@);
            }
            if crate::text::str_eq(&out[m].0, &id) {
                key_present = true;
                proof {
                    assert(crate::state::pairs_have_key(crate::state::pairs_view(out@), id@)) by {
                        assert(crate::state::pairs_view(out@)[m as int].0 == id@);
                    }
                }
            }
            m = m + 1;
        }
        proof {
            if !key_present && crate::state::pairs_have_key(crate::state::pairs_view(out@), id@) {
                let w = choose|w: int|
                    0 <= w < crate::state::pairs_view(out@).len() && (
                    #[trigger] crate::state::pairs_view(out@)[w]).0 == id@;
                assert(false);
            }
        }
        match cleaned {
            Option::Some(a) => {
                if known && !key_present {
                    let ghost before = crate::state::pairs_view(out@);
                    proof {
                        assert(alias_clean_spec(rem[0].1) == Option::Some(a@));
                    }
                    out.push((id, a));
                    proof {
                        assert(crate::state::pairs_view(out@) =~= before.push(
                            (rem[0].0, alias_clean_spec(rem[0].1)->Some_0),
                        ));
                    }
                }
            },
            Option::None => {},
        }
        i = i + 1;
    }
    proof {
        assert(crate::state::pairs_view(input@).skip(input@.len() as int).len() == 0);
    }
    out
}

/// The display name used for a peer: its cleaned alias when one is kept,
/// else the given fallback.
pub fn peer_display_name(session: &FriendLinkSessionRecord, peer_id: &str, fallback: &str) -> (r:
    String)
    ensures
        r@ == fallback@ || exists|i: int|
            0 <= i < session.peer_aliases@.len() && (#[trigger] session.peer_aliases@[i]).0@
                == peer_id@ && alias_clean_spec(session.peer_aliases@[i].1@) == Option::Some(r@),
{
    let mut i: usize = 0;
    while i < session.peer_aliases.len()
        invariant
            i <= session.peer_aliases@.len(),
        decreases session.peer_aliases@.len() - i,
    {
        let v = crate::text::chars_vec(peer_id);
        let k = crate::text::chars_vec(session.peer_aliases[i].0.as_str());
        if crate::text::chars_eq(&k, &v) {
            let cleaned = sanitize_peer_alias(
                Option::Some(crate::state::clone_string(&session.peer_aliases[i].1)),
            );
            match cleaned {
                Option::Some(a) => {
                    proof {
                        assert(session.peer_aliases@[i as int].0@ == peer_id@);
                        assert(alias_clean_spec(session.peer_aliases@[i as int].1@)
                            == Option::Some(a@));
                    }
                    return a;
                },
                Option::None => {
                    let w = crate::text::chars_vec(fallback);
                    return crate::text::string_from_chars(&w);
                },
            }
        }
        i = i + 1;
    }
    let w = crate::text::chars_vec(fallback);
    crate::text::string_from_chars(&w)
}

/// Allowlist normalization over the chosen base list: trim and unify
/// slashes, drop empty entries, drop hard-excluded entries, drop entries
/// already kept up to case.
pub open spec fn allow_step_spec(base: Seq<Seq<char>>, acc: Seq<Seq<char>>) -> Seq<Seq<char>>
    decreases base.len(),
{
    if base.len() == 0 {
        acc
    } else {
        let t = trim_spec(slashify_spec(base[0]));
        if t.len() == 0 || path_excluded_spec(t) || acc_has_lower(acc, lower_spec(t)) {
            allow_step_spec(base.drop_first(), acc)
        } else {
            allow_step_spec(base.drop_first(), acc.push(t))
        }
    }
}

/// Whether some kept entry lower-cases to `l`.
pub open spec fn acc_has_lower(acc: Seq<Seq<char>>, l: Seq<char>) -> bool {
    exists|i: int| 0 <= i < acc.len() && lower_spec(#[trigger] acc[i]) == l
}

/// What allowlist normalization returns for a given input.
pub open spec fn allow_norm_spec(input: Seq<Seq<char>>) -> Seq<Seq<char>> {
    let base = if input.len() == 0 {
        seq!["options.txt"@, "config/**/*.json"@, "config/**/*.toml"@, "config/**/*.properties"@]
    } else {
        input
    };
    let out = allow_step_spec(base, Seq::empty());
    if acc_has_lower(out, lower_spec("options.txt"@)) {
        out
    } else {
        seq!["options.txt"@] + out
    }
}

/// Normalize an allowlist: the result always carries `options.txt` and
/// never an entry under a hard-excluded prefix.
#[verifier::loop_isolation(false)]
pub fn normalize_allowlist(input: &Vec<String>) -> (r: Vec<String>)
    ensures
        strs_view_of(r@) == allow_norm_spec(strs_view_of(input@)),
{
    let base: Vec<String> = if input.len() == 0 {
        crate::paths::default_allowlist()
    } else {
        let mut copy: Vec<String> = Vec::new();
        let mut c: usize = 0;
        while c < input.len()
            invariant
                c <= input@.len(),
                strs_view_of(copy@) == strs_view_of(input@).subrange(0, c as int),
            decreases input@.len() - c,
        {
            let ghost before = copy@;
            copy.push(crate::state::clone_string(&input[c]));
            c = c + 1;
            proof {
                assert(copy@[c - 1]@ == input@[c - 1]@);
                assert forall|m: int| 0 <= m < c implies strs_view_of(copy@)[m] == strs_view_of(
                    input@,
                ).subrange(0, c as int)[m] by {
                    assert(strs_view_of(copy@)[m] == copy@[m]@);
                    assert(strs_view_of(input@)[m] == input@[m]@);
                    if m < c - 1 {
                        assert(copy@[m] == before[m]);
                        assert(strs_view_of(before)[m] == before[m]@);
                        assert(strs_view_of(before)[m] == strs_view_of(input@).subrange(
                            0,
                            c - 1,
                        )[m]);
                    }
                }
                assert(strs_view_of(copy@) =~= strs_view_of(input@).subrange(0, c as int));
            }
        }
        proof {
            assert(strs_view_of(copy@) =~= strs_view_of(input@));
        }
        copy
    };
    let ghost base_view: Seq<Seq<char>> = if strs_view_of(input@).len() == 0 {
        seq!["options.txt"@, "config/**/*.json"@, "config/**/*.toml"@, "config/**/*.properties"@]
    } else {
        strs_view_of(input@)
    };
    proof {
        if strs_view_of(input@).len() == 0 {
            assert(strs_view_of(base@) =~= base_view);
        } else {
            assert(strs_view_of(base@) =~= base_view);
        }
    }
    let mut out: Vec<String> = Vec::new();
    let mut i: usize = 0;
    proof {
        assert(strs_view_of(base@).skip(0) =~= strs_view_of(base@));
        assert(strs_view_of(out@) =~= Seq::<Seq<char>>::empty());
    }
    while i < base.len()
        invariant
            i <= base@.len(),
            strs_view_of(base@) == base_view,
            allow_step_spec(base_view, Seq::empty()) == allow_step_spec(
                strs_view_of(base@).skip(i as int),
                strs_view_of(out@),
            ),
        decreases base@.len() - i,
    {
        let ghost rem = strs_view_of(base@).skip(i as int);
        proof {
            assert(rem[0] == base@[i as int]@);
            assert(rem.drop_first() =~= strs_view_of(base@).skip(i + 1));
        }
        let v = crate::text::chars_vec(base[i].as_str());
        let mut slashed: Vec<char> = Vec::new();
        let mut m: usize = 0;
        while m < v.len()
            invariant
                m <= v.len(),
                slashed@.len() == m,
                forall|k: int|
                    0 <= k < m ==> slashed@[k] == (if v@[k] == '\\' {
                        '/'
                    } else {
                        v@[k]
                    }),
            decreases v.len() - m,
        {
            let c = v[m];
            if c == '\\' {
                slashed.push('/');
            } else {
                slashed.push(c);
            }
            m = m + 1;
        }
        proof {
            assert(slashed@ =~= slashify_spec(v@));
        }
        let t = crate::text::trim_chars(&slashed);
        let ts = crate::text::string_from_chars(&t);
        if ts.as_str().is_empty() {
            // dropped
        } else if crate::paths::path_is_excluded(ts.as_str()) {
            // dropped
        } else {
            let tl = crate::text::lower_chars(&t);
            let mut seen = false;
            let mut w: usize = 0;
            while w < out.len()
                invariant
                    w <= out@.len(),
                    tl@ == lower_spec(trim_spec(slashify_spec(rem[0]))),
                    seen ==> acc_has_lower(strs_view_of(out@), tl@),
                    !seen ==> forall|q: int|
                        0 <= q < w ==> lower_spec(#[trigger] strs_view_of(out@)[q]) != tl@,
                decreases out@.len() - w,
            {
                let ov = crate::text::chars_vec(out[w].as_str());
                let ol = crate::text::lower_chars(&ov);
                proof {
                    assert(strs_view_of(out@)[w as int] == out@[w as int]@);
                }
                if crate::text::chars_eq(&ol, &tl) {
                    seen = true;
                    proof {
                        assert(acc_has_lower(strs_view_of(out@), tl@)) by {
                            assert(lower_spec(strs_view_of(out@)[w as int]) == tl@);
                        }
                    }
                }
                w = w + 1;
            }
            proof {
                if !seen && acc_has_lower(strs_view_of(out@), tl@) {
                    let q = choose|q: int|
                        0 <= q < strs_view_of(out@).len() && lower_spec(
                            #[trigger] strs_view_of(out@)[q],
                        ) == tl@;
                    assert(false);
                }
            }
            if !seen {
                let ghost before = strs_view_of(out@);
                out.push(ts);
                proof {
                    assert(strs_view_of(out@) =~= before.push(trim_spec(slashify_spec(rem[0]))));
                }
            }
        }
        i = i + 1;
    }
    proof {
        assert(strs_view_of(base@).skip(base@.len() as int).len() == 0);
    }
    // Guarantee options.txt.
    let probe = crate::state::lit_string("options.txt");
    let pv = crate::text::chars_vec(probe.as_str());
    let pl = crate::text::lower_chars(&pv);
    let mut present = false;
    let mut w: usize = 0;
    while w < out.len()
        invariant
            w <= out@.len(),
            pl@ == lower_spec("options.txt"@),
            present ==> acc_has_lower(strs_view_of(out@), lower_spec("options.txt"@)),
            !present ==> forall|q: int|
                0 <= q < w ==> lower_spec(#[trigger] strs_view_of(out@)[q]) != lower_spec(
                    "options.txt"@,
                ),
        decreases out@.len() - w,
    {
        let ov = crate::text::chars_vec(out[w].as_str());
        let ol = crate::text::lower_chars(&ov);
        proof {
            assert(strs_view_of(out@)[w as int] == out@[w as int]@);
        }
        if crate::text::chars_eq(&ol, &pl) {
            present = true;
            proof {
                assert(acc_has_lower(strs_view_of(out@), lower_spec("options.txt"@))) by {
                    assert(lower_spec(strs_view_of(out@)[w as int]) == lower_spec("options.txt"@));
                }
            }
        }
        w = w + 1;
    }
    proof {
        if !present && acc_has_lower(strs_view_of(out@), lower_spec("options.txt"@)) {
            let q = choose|q: int|
                0 <= q < strs_view_of(out@).len() && lower_spec(#[trigger] strs_view_of(out@)[q])
                    == lower_spec("options.txt"@);
            assert(false);
        }
    }
    if present {
        return out;
    }
    let mut with_opts: Vec<String> = Vec::new();
    with_opts.push(probe);
    let mut q: usize = 0;
    while q < out.len()
        invariant
            q <= out@.len(),
            strs_view_of(with_opts@) == seq!["options.txt"@] + strs_view_of(out@).subrange(
                0,
                q as int,
            ),
        decreases out@.len() - q,
    {
        let ghost before = with_opts@;
        with_opts.push(crate::state::clone_string(&out[q]));
        q = q + 1;
        proof {
            assert(with_opts@[q as int]@ == out@[q - 1]@);
            assert forall|m: int| 0 <= m < with_opts@.len() implies strs_view_of(with_opts@)[m]
                == (seq!["options.txt"@] + strs_view_of(out@).subrange(0, q as int))[m] by {
                assert(strs_view_of(with_opts@)[m] == with_opts@[m]@);
                if m > 0 {
                    assert(strs_view_of(out@)[m - 1] == out@[m - 1]@);
                }
                if m < q as int {
                    assert(with_opts@[m] == before[m]);
                    assert(strs_view_of(before)[m] == before[m]@);
                    assert(strs_view_of(before)[m] == (seq!["options.txt"@] + strs_view_of(
                        out@,
                    ).subrange(0, q - 1))[m]);
                }
            }
            assert(strs_view_of(with_opts@) =~= seq!["options.txt"@] + strs_view_of(
                out@,
            ).subrange(0, q as int));
        }
    }
    proof {
        assert(strs_view_of(out@).subrange(0, out@.len() as int) =~= strs_view_of(out@));
        assert(strs_view_of(with_opts@) =~= seq!["options.txt"@] + strs_view_of(out@));
    }
    with_opts
}

/// Normalized allowlists always carry `options.txt` (up to case) and never
/// an entry under a hard-excluded prefix.
pub proof fn lemma_normalize_allowlist_safe(input: Seq<Seq<char>>)
    ensures
        acc_has_lower(allow_norm_spec(input), lower_spec("options.txt"@)),
        forall|i: int|
            0 <= i < allow_norm_spec(input).len() ==> !path_excluded_spec(
                #[trigger] allow_norm_spec(input)[i],
            ),
{
    let base = if input.len() == 0 {
        seq!["options.txt"@, "config/**/*.json"@, "config/**/*.toml"@, "config/**/*.properties"@]
    } else {
        input
    };
    let out = allow_step_spec(base, Seq::empty());
    lemma_allow_step_clean(base, Seq::empty());
    let r = allow_norm_spec(input);
    if acc_has_lower(out, lower_spec("options.txt"@)) {
        assert(r == out);
    } else {
        assert(r == seq!["options.txt"@] + out);
        assert(r[0] == "options.txt"@);
        assert(acc_has_lower(r, lower_spec("options.txt"@))) by {
            assert(lower_spec(r[0]) == lower_spec("options.txt"@));
        }
        assert(!path_excluded_spec("options.txt"@)) by {
            lemma_options_txt_not_excluded();
        }
        assert forall|i: int| 0 <= i < r.len() implies !path_excluded_spec(#[trigger] r[i]) by {
            if i > 0 {
                assert(r[i] == out[i - 1]);
            }
        }
    }
}

/// Entries kept by the normalization step are never hard-excluded.
proof fn lemma_allow_step_clean(base: Seq<Seq<char>>, acc: Seq<Seq<char>>)
    requires
        forall|i: int| 0 <= i < acc.len() ==> !path_excluded_spec(#[trigger] acc[i]),
    ensures
        forall|i: int|
            0 <= i < allow_step_spec(base, acc).len() ==> !path_excluded_spec(
                #[trigger] allow_step_spec(base, acc)[i],
            ),
    decreases base.len(),
{
    if base.len() == 0 {
        assert(allow_step_spec(base, acc) == acc);
    } else {
        let t = trim_spec(slashify_spec(base[0]));
        if t.len() == 0 || path_excluded_spec(t) || acc_has_lower(acc, lower_spec(t)) {
            lemma_allow_step_clean(base.drop_first(), acc);
            assert(allow_step_spec(base, acc) == allow_step_spec(base.drop_first(), acc));
        } else {
            assert forall|i: int|
                0 <= i < acc.push(t).len() implies !path_excluded_spec(
                #[trigger] acc.push(t)[i],
            ) by {
                if i < acc.len() {
                    assert(acc.push(t)[i] == acc[i]);
                }
            }
            lemma_allow_step_clean(base.drop_first(), acc.push(t));
            assert(allow_step_spec(base, acc) == allow_step_spec(base.drop_first(), acc.push(t)));
        }
    }
}

/// `options.txt` does not start with any hard-excluded prefix.
proof fn lemma_options_txt_not_excluded()
    ensures
        !path_excluded_spec("options.txt"@),
{
    reveal_strlit("options.txt");
    reveal_strlit("saves/");
    reveal_strlit("logs/");
    reveal_strlit("crash-reports/");
    reveal_strlit("screenshots/");
    reveal_strlit("resourcepacks/");
    reveal_strlit("shaderpacks/");
    reveal_strlit("mods/");
    let l = lower_spec("options.txt"@);
    assert(l.len() == 11);
    assert(l[0] == 'o');
    if crate::text::has_prefix(l, "saves/"@) {
        assert(l.subrange(0, 6)[0] == 'o');
        assert(false);
    }
    if crate::text::has_prefix(l, "logs/"@) {
        assert(l.subrange(0, 5)[0] == 'o');
        assert(false);
    }
    if crate::text::has_prefix(l, "crash-reports/"@) {
        assert(false);
    }
    if crate::text::has_prefix(l, "screenshots/"@) {
        assert(l.subrange(0, 12)[0] == 'o');
        assert(false);
    }
    if crate::text::has_prefix(l, "resourcepacks/"@) {
        assert(false);
    }
    if crate::text::has_prefix(l, "shaderpacks/"@) {
        assert(l.subrange(0, 12)[0] == 'o');
        assert(false);
    }
    if crate::text::has_prefix(l, "mods/"@) {
        assert(l.subrange(0, 5)[0] == 'o');
        assert(false);
    }
}

} // verus!

verus! {

/// Pick a sync-toggle value, defaulting mods on.
pub fn normalize_sync_mods(input: Option<bool>) -> (r: bool)
    ensures
        r == match input {
            Option::Some(v) => v,
            Option::None => true,
        },
{
    match input {
        Option::Some(v) => v,
        Option::None => true,
    }
}

/// Pick a sync-toggle value, defaulting resource packs off.
pub fn normalize_sync_resourcepacks(input: Option<bool>) -> (r: bool)
    ensures
        r == match input {
            Option::Some(v) => v,
            Option::None => false,
        },
{
    match input {
        Option::Some(v) => v,
        Option::None => false,
    }
}

/// Pick a sync-toggle value, defaulting shader packs on.
pub fn normalize_sync_shaderpacks(input: Option<bool>) -> (r: bool)
    ensures
        r == match input {
            Option::Some(v) => v,
            Option::None => true,
        },
{
    match input {
        Option::Some(v) => v,
        Option::None => true,
    }
}

/// Pick a sync-toggle value, defaulting datapacks on.
pub fn normalize_sync_datapacks(input: Option<bool>) -> (r: bool)
    ensures
        r == match input {
            Option::Some(v) => v,
            Option::None => true,
        },
{
    match input {
        Option::Some(v) => v,
        Option::None => true,
    }
}

/// Which toggle governs an entry, by its normalized content type.
pub open spec fn sync_enabled_spec(s: &FriendLinkSessionRecord, content_type: Seq<char>) -> bool {
    let ct = crate::state::normalized_content_type_spec(content_type);
    if ct == "mods"@ {
        s.sync_mods
    } else if ct == "resourcepacks"@ {
        s.sync_resourcepacks
    } else if ct == "shaderpacks"@ {
        s.sync_shaderpacks
    } else {
        s.sync_datapacks
    }
}

/// Whether the session's per-type toggles admit this entry.
pub fn lock_entry_sync_enabled(session: &FriendLinkSessionRecord, entry: &crate::state::CanonicalLockEntry) -> (r:
    bool)
    ensures
        r == sync_enabled_spec(session, entry.content_type@),
{
    let ct = crate::state::normalized_content_type(entry.content_type.as_str());
    if crate::state::str_eq_lit(&ct, "mods") {
        session.sync_mods
    } else if crate::state::str_eq_lit(&ct, "resourcepacks") {
        session.sync_resourcepacks
    } else if crate::state::str_eq_lit(&ct, "shaderpacks") {
        session.sync_shaderpacks
    } else {
        proof {
            let n = crate::state::normalized_content_type_spec(entry.content_type@);
            assert(n == "mods"@ || n == "resourcepacks"@ || n == "shaderpacks"@ || n
                == "datapacks"@);
        }
        session.sync_datapacks
    }
}

/// Normalize everything a session carries in its guardrails: the trusted
/// set (with one-time legacy initialization), the alias table, and the
/// automatic-change budget.
pub fn normalize_session_friend_link_settings(session: &mut FriendLinkSessionRecord)
    ensures
        ({
            let (ids, inited) = trusted_after_init(
                old(session).peers@,
                strs_view_of(old(session).trusted_peer_ids@),
                old(session).trusted_peer_ids_initialized,
            );
            &&& strs_view_of(final(session).trusted_peer_ids@) == ids
            &&& final(session).trusted_peer_ids_initialized == inited
        }),
        crate::state::pairs_view(final(session).peer_aliases@) == norm_aliases_spec(
            old(session).peers@,
            crate::state::pairs_view(old(session).peer_aliases@),
            Seq::empty(),
        ),
        final(session).max_auto_changes == if old(session).max_auto_changes == 0 {
            25int
        } else {
            old(session).max_auto_changes as int
        },
        *final(session) == (FriendLinkSessionRecord {
            trusted_peer_ids: final(session).trusted_peer_ids,
            trusted_peer_ids_initialized: final(session).trusted_peer_ids_initialized,
            peer_aliases: final(session).peer_aliases,
            max_auto_changes: final(session).max_auto_changes,
            ..*old(session)
        }),
{
    ensure_trusted_peer_ids_initialized(session);
    let aliases = normalize_peer_aliases(session, &session.peer_aliases);
    session.peer_aliases = aliases;
    if session.max_auto_changes == 0 {
        session.max_auto_changes = 25;
    }
}

/// One peer as shown to callers.
pub struct FriendLinkPeer {
    pub peer_id: String,
    pub display_name: String,
    pub endpoint: String,
    pub online: bool,
    pub last_seen_at: Option<String>,
}

/// The session summary shown to callers.
pub struct FriendLinkStatus {
    pub instance_id: String,
    pub linked: bool,
    pub group_id: Option<String>,
    pub local_peer_id: Option<String>,
    pub display_name: Option<String>,
    pub listener_endpoint: Option<String>,
    pub allowlist: Vec<String>,
    pub peers: Vec<FriendLinkPeer>,
    pub pending_conflicts_count: usize,
    pub status: String,
    pub last_good_hash: Option<String>,
    pub trusted_peer_ids: Vec<String>,
    pub max_auto_changes: usize,
    pub sync_mods: bool,
    pub sync_resourcepacks: bool,
    pub sync_shaderpacks: bool,
    pub sync_datapacks: bool,
}

/// Summarize a session, or the unlinked state when none exists. A linked
/// session reports `synced` exactly when no conflicts are pending.
pub fn to_status(session: Option<&FriendLinkSessionRecord>, instance_id: &str) -> (r:
    FriendLinkStatus)
    ensures
        r.instance_id@ == instance_id@,
        match session {
            Option::Some(s) => {
                &&& r.linked
                &&& r.pending_conflicts_count == s.pending_conflicts@.len()
                &&& r.status@ == if s.pending_conflicts@.len() == 0 {
                    "synced"@
                } else {
                    "conflicted"@
                }
                &&& match r.group_id {
                    Option::Some(g) => g@ == s.group_id@,
                    Option::None => false,
                }
                &&& match r.local_peer_id {
                    Option::Some(g) => g@ == s.local_peer_id@,
                    Option::None => false,
                }
                &&& match r.display_name {
                    Option::Some(g) => g@ == s.display_name@,
                    Option::None => false,
                }
                &&& match (r.listener_endpoint, s.listener_endpoint) {
                    (Option::Some(a), Option::Some(b)) => a@ == b@,
                    (Option::None, Option::None) => true,
                    _ => false,
                }
                &&& strs_view_of(r.allowlist@) == strs_view_of(s.allowlist@)
                &&& match (r.last_good_hash, s.last_good_snapshot) {
                    (Option::Some(h), Option::Some(g)) => h@ == g.state_hash@,
                    (Option::None, Option::None) => true,
                    _ => false,
                }
                &&& r.peers@.len() == s.peers@.len()
                &&& forall|i: int|
                    0 <= i < r.peers@.len() ==> {
                        &&& (#[trigger] r.peers@[i]).peer_id@ == s.peers@[i].peer_id@
                        &&& r.peers@[i].endpoint@ == s.peers@[i].endpoint@
                        &&& r.peers@[i].online == s.peers@[i].online
                    }
                &&& r.max_auto_changes == crate::normalize_max_auto_changes_spec(
                    Option::Some(s.max_auto_changes),
                )
                &&& r.sync_mods == s.sync_mods
                &&& r.sync_resourcepacks == s.sync_resourcepacks
                &&& r.sync_shaderpacks == s.sync_shaderpacks
                &&& r.sync_datapacks == s.sync_datapacks
                &&& strs_view_of(r.trusted_peer_ids@) == norm_trusted_spec(
                    s.peers@,
                    strs_view_of(s.trusted_peer_ids@),
                    Seq::empty(),
                )
                &&& forall|s2: Seq<char>| #[trigger]
                    strs_view_of(r.trusted_peer_ids@).contains(s2) ==> has_peer(s.peers@, s2)
            },
            Option::None => {
                &&& !r.linked
                &&& r.pending_conflicts_count == 0
                &&& r.status@ == "unlinked"@
                &&& r.peers@.len() == 0
                &&& r.max_auto_changes == 25
            },
        },
{
    let id = crate::state::lit_string(instance_id);
    match session {
        Option::Some(s) => {
            let trusted = normalize_trusted_peer_ids(s, &s.trusted_peer_ids);
            let aliases = normalize_peer_aliases(s, &s.peer_aliases);
            let mut peers: Vec<FriendLinkPeer> = Vec::new();
            let mut i: usize = 0;
            while i < s.peers.len()
                invariant
                    i <= s.peers@.len(),
                    peers@.len() == i,
                    forall|m: int|
                        0 <= m < i ==> {
                            &&& (#[trigger] peers@[m]).peer_id@ == s.peers@[m].peer_id@
                            &&& peers@[m].endpoint@ == s.peers@[m].endpoint@
                            &&& peers@[m].online == s.peers@[m].online
                        },
                decreases s.peers@.len() - i,
            {
                let p = &s.peers[i];
                proof {
                    assert(*p == s.peers@[i as int]);
                }
                let shown = peer_display_name(s, p.peer_id.as_str(), p.display_name.as_str());
                let ghost before = peers@;
                peers.push(
                    FriendLinkPeer {
                        peer_id: crate::state::clone_string(&p.peer_id),
                        display_name: shown,
                        endpoint: crate::state::clone_string(&p.endpoint),
                        online: p.online,
                        last_seen_at: match &p.last_seen_at {
                            Option::Some(t) => Option::Some(crate::state::clone_string(t)),
                            Option::None => Option::None,
                        },
                    },
                );
                i = i + 1;
                proof {
                    assert(forall|m: int|
                        0 <= m < before.len() ==> peers@[m] == #[trigger] before[m]);
                    assert(peers@[i - 1].peer_id@ == s.peers@[i - 1].peer_id@);
                }
            }
            let max = crate::normalize_max_auto_changes(Option::Some(s.max_auto_changes));
            let status_text = if s.pending_conflicts.len() == 0 {
                crate::state::lit_string("synced")
            } else {
                crate::state::lit_string("conflicted")
            };
            FriendLinkStatus {
                instance_id: id,
                linked: true,
                group_id: Option::Some(crate::state::clone_string(&s.group_id)),
                local_peer_id: Option::Some(crate::state::clone_string(&s.local_peer_id)),
                display_name: Option::Some(crate::state::clone_string(&s.display_name)),
                listener_endpoint: match &s.listener_endpoint {
                    Option::Some(e) => Option::Some(crate::state::clone_string(e)),
                    Option::None => Option::None,
                },
                allowlist: copy_strings(&s.allowlist),
                peers,
                pending_conflicts_count: s.pending_conflicts.len(),
                status: status_text,
                last_good_hash: match &s.last_good_snapshot {
                    Option::Some(snap) => Option::Some(
                        crate::state::clone_string(&snap.state_hash),
                    ),
                    Option::None => Option::None,
                },
                trusted_peer_ids: trusted,
                max_auto_changes: max,
                sync_mods: s.sync_mods,
                sync_resourcepacks: s.sync_resourcepacks,
                sync_shaderpacks: s.sync_shaderpacks,
                sync_datapacks: s.sync_datapacks,
            }
        },
        Option::None => FriendLinkStatus {
            instance_id: id,
            linked: false,
            group_id: Option::None,
            local_peer_id: Option::None,
            display_name: Option::None,
            listener_endpoint: Option::None,
            allowlist: Vec::new(),
            peers: Vec::new(),
            pending_conflicts_count: 0,
            status: crate::state::lit_string("unlinked"),
            last_good_hash: Option::None,
            trusted_peer_ids: Vec::new(),
            max_auto_changes: 25,
            sync_mods: true,
            sync_resourcepacks: false,
            sync_shaderpacks: true,
            sync_datapacks: true,
        },
    }
}

/// An owned copy of a string list, view for view.
#[verifier::loop_isolation(false)]
pub fn copy_strings(v: &Vec<String>) -> (r: Vec<String>)
    ensures
        strs_view_of(r@) == strs_view_of(v@),
{
    let mut out: Vec<String> = Vec::new();
    let mut i: usize = 0;
    while i < v.len()
        invariant
            i <= v@.len(),
            strs_view_of(out@) == strs_view_of(v@).subrange(0, i as int),
        decreases v@.len() - i,
    {
        let ghost before = strs_view_of(out@);
        out.push(crate::state::clone_string(&v[i]));
        i = i + 1;
        proof {
            assert(out@[i - 1]@ == v@[i - 1]@);
            assert forall|m: int| 0 <= m < i implies strs_view_of(out@)[m] == strs_view_of(
                v@,
            ).subrange(0, i as int)[m] by {
                assert(strs_view_of(out@)[m] == out@[m]@);
                assert(strs_view_of(v@)[m] == v@[m]@);
                if m < i - 1 {
                    assert(strs_view_of(out@)[m] == before[m]);
                }
            }
            assert(strs_view_of(out@) =~= strs_view_of(v@).subrange(0, i as int));
        }
    }
    proof {
        assert(strs_view_of(v@).subrange(0, v@.len() as int) =~= strs_view_of(v@));
    }
    out
}

/// Replace the record of a known peer or add a new one; a hello from the
/// local peer itself is ignored.
#[verifier::loop_isolation(false)]
pub fn upsert_peer(session: &mut FriendLinkSessionRecord, peer: FriendPeerRecord)
    ensures
        peer.peer_id@ == old(session).local_peer_id@ ==> final(session).peers@ == old(
            session,
        ).peers@,
        peer.peer_id@ != old(session).local_peer_id@ && has_peer(
            old(session).peers@,
            peer.peer_id@,
        ) ==> exists|w: int|
            0 <= w < old(session).peers@.len() && (#[trigger] old(session).peers@[w]).peer_id@
                == peer.peer_id@ && final(session).peers@ == old(session).peers@.update(w, peer),
        peer.peer_id@ != old(session).local_peer_id@ && !has_peer(
            old(session).peers@,
            peer.peer_id@,
        ) ==> final(session).peers@ == old(session).peers@.push(peer),
        final(session).local_peer_id@ == old(session).local_peer_id@,
        final(session).group_id@ == old(session).group_id@,
        has_peer(final(session).peers@, peer.peer_id@) || peer.peer_id@ == old(
            session,
        ).local_peer_id@,
        *final(session) == (FriendLinkSessionRecord { peers: final(session).peers, ..*old(session) }),
{
    let v1 = crate::text::chars_vec(peer.peer_id.as_str());
    let v2 = crate::text::chars_vec(session.local_peer_id.as_str());
    if crate::text::chars_eq(&v1, &v2) {
        return ;
    }
    let mut i: usize = 0;
    while i < session.peers.len()
        invariant
            *session == *old(session),
            i <= session.peers@.len(),
            forall|m: int| 0 <= m < i ==> (#[trigger] session.peers@[m]).peer_id@ != peer.peer_id@,
        decreases session.peers@.len() - i,
    {
        if crate::text::str_eq(&session.peers[i].peer_id, &peer.peer_id) {
            let ghost pid = peer.peer_id@;
            proof {
                assert(has_peer(old(session).peers@, pid)) by {
                    assert(old(session).peers@[i as int].peer_id@ == pid);
                }
            }
            let ghost pv = peer;
            session.peers[i] = peer;
            proof {
                assert(has_peer(session.peers@, pid)) by {
                    assert(session.peers@[i as int].peer_id@ == pid);
                }
                assert(session.peers@ =~= old(session).peers@.update(i as int, pv));
                assert(old(session).peers@[i as int].peer_id@ == pid);
            }
            return ;
        }
        i = i + 1;
    }
    proof {
        if has_peer(session.peers@, peer.peer_id@) {
            let w = choose|w: int|
                0 <= w < session.peers@.len() && (#[trigger] session.peers@[w]).peer_id@
                    == peer.peer_id@;
            assert(false);
        }
    }
    let ghost pid = peer.peer_id@;
    session.peers.push(peer);
    proof {
        assert(has_peer(session.peers@, pid)) by {
            assert(session.peers@[session.peers@.len() - 1].peer_id@ == pid);
        }
    }
}

/// The baseline map of a snapshot: its manifest as key/hash pairs.
pub fn lock_manifest_map(snapshot: &FriendLastGoodSnapshot) -> (r: Vec<(String, String)>)
    ensures
        r@.len() == snapshot.manifest@.len(),
        forall|i: int|
            0 <= i < r@.len() ==> (#[trigger] r@[i]).0@ == snapshot.manifest@[i].key@
                && r@[i].1@ == snapshot.manifest@[i].hash@,
{
    let mut out: Vec<(String, String)> = Vec::new();
    let mut i: usize = 0;
    while i < snapshot.manifest.len()
        invariant
            i <= snapshot.manifest@.len(),
            out@.len() == i,
            forall|m: int|
                0 <= m < i ==> (#[trigger] out@[m]).0@ == snapshot.manifest@[m].key@ && out@[m].1@
                    == snapshot.manifest@[m].hash@,
        decreases snapshot.manifest@.len() - i,
    {
        let e = &snapshot.manifest[i];
        out.push((crate::state::clone_string(&e.key), crate::state::clone_string(&e.hash)));
        i = i + 1;
    }
    out
}

/// Find the index of a session by instance id.
pub fn find_session_index(store: &FriendLinkStoreV1, instance_id: &str) -> (r: Option<usize>)
    ensures
        match r {
            Option::Some(i) => i < store.sessions@.len() && store.sessions@[i as int].instance_id@
                == instance_id@,
            Option::None => forall|m: int|
                0 <= m < store.sessions@.len() ==> (#[trigger] store.sessions@[m]).instance_id@
                    != instance_id@,
        },
{
    let probe = crate::state::lit_string(instance_id);
    let mut i: usize = 0;
    while i < store.sessions.len()
        invariant
            i <= store.sessions@.len(),
            probe@ == instance_id@,
            forall|m: int|
                0 <= m < i ==> (#[trigger] store.sessions@[m]).instance_id@ != instance_id@,
        decreases store.sessions@.len() - i,
    {
        if crate::text::str_eq(&store.sessions[i].instance_id, &probe) {
            return Option::Some(i);
        }
        i = i + 1;
    }
    Option::None
}

/// Borrow the session of an instance, if one is linked.
pub fn get_session<'a>(store: &'a FriendLinkStoreV1, instance_id: &str) -> (r: Option<
    &'a FriendLinkSessionRecord,
>)
    ensures
        match r {
            Option::Some(s) => s.instance_id@ == instance_id@ && exists|i: int|
                0 <= i < store.sessions@.len() && store.sessions@[i] == *s,
            Option::None => forall|m: int|
                0 <= m < store.sessions@.len() ==> (#[trigger] store.sessions@[m]).instance_id@
                    != instance_id@,
        },
{
    match find_session_index(store, instance_id) {
        Option::Some(i) => {
            let s = &store.sessions[i];
            proof {
                assert(exists|m: int|
                    0 <= m < store.sessions@.len() && store.sessions@[m] == *s) by {
                    assert(store.sessions@[i as int] == *s);
                }
            }
            Option::Some(s)
        },
        Option::None => Option::None,
    }
}

/// Replace the session of the same instance or add it.
pub fn upsert_session(store: &mut FriendLinkStoreV1, session: FriendLinkSessionRecord)
    ensures
        final(store).sessions@.len() >= old(store).sessions@.len(),
        exists|i: int|
            0 <= i < final(store).sessions@.len() && (#[trigger] final(store).sessions@[i]).instance_id@ == session.instance_id@,
{
    let ghost id = session.instance_id@;
    match find_session_index(store, session.instance_id.as_str()) {
        Option::Some(i) => {
            store.sessions[i] = session;
            proof {
                assert((final(store).sessions@[i as int]).instance_id@ == id);
            }
        },
        Option::None => {
            store.sessions.push(session);
            proof {
                assert((final(store).sessions@[final(store).sessions@.len() - 1]).instance_id@
                    == id);
            }
        },
    }
}

/// Remove the session of an instance; whether one was removed.
pub fn remove_session(store: &mut FriendLinkStoreV1, instance_id: &str) -> (r: bool)
    ensures
        forall|m: int|
            0 <= m < final(store).sessions@.len() ==> (#[trigger] final(store).sessions@[m]).instance_id@ != instance_id@,
        r == (final(store).sessions@.len() < old(store).sessions@.len()),
{
    let probe = crate::state::lit_string(instance_id);
    let mut kept: Vec<FriendLinkSessionRecord> = Vec::new();
    let before = store.sessions.len();
    loop
        invariant
            probe@ == instance_id@,
            forall|m: int|
                0 <= m < kept@.len() ==> (#[trigger] kept@[m]).instance_id@ != instance_id@,
            kept@.len() <= before - store.sessions.len() + 0 || true,
            kept@.len() + store.sessions@.len() <= before,
            before <= usize::MAX,
        decreases store.sessions.len(),
    {
        if store.sessions.len() == 0 {
            break ;
        }
        let s = store.sessions.remove(0);
        if !crate::text::str_eq(&s.instance_id, &probe) {
            kept.push(s);
        }
    }
    let removed = kept.len() < before;
    store.sessions = kept;
    removed
}

/// A freshly created session record with the library's defaults: empty
/// trust set not yet initialized, the default allowlist, a change budget
/// of 25, and the default sync toggles.
pub fn new_session_record(
    instance_id: String,
    group_id: String,
    local_peer_id: String,
    display_name: String,
    shared_secret_b64: String,
    protocol_version: u32,
    bootstrap_host_peer_id: Option<String>,
) -> (r: FriendLinkSessionRecord)
    ensures
        r.instance_id@ == instance_id@,
        r.group_id@ == group_id@,
        r.local_peer_id@ == local_peer_id@,
        r.display_name@ == display_name@,
        r.shared_secret_b64@ == shared_secret_b64@,
        r.protocol_version == protocol_version,
        r.listener_port == 0,
        r.listener_endpoint is None,
        r.peers@.len() == 0,
        strs_view_of(r.allowlist@) == allow_norm_spec(Seq::empty()),
        r.last_good_snapshot is None,
        r.pending_conflicts@.len() == 0,
        r.bootstrap_host_peer_id == bootstrap_host_peer_id,
        r.trusted_peer_ids@.len() == 0,
        !r.trusted_peer_ids_initialized,
        r.peer_aliases@.len() == 0,
        r.max_auto_changes == 25,
        r.sync_mods && !r.sync_resourcepacks && r.sync_shaderpacks && r.sync_datapacks,
{
    let empty: Vec<String> = Vec::new();
    let allow = normalize_allowlist(&empty);
    proof {
        assert(strs_view_of(empty@) =~= Seq::<Seq<char>>::empty());
    }
    FriendLinkSessionRecord {
        instance_id,
        group_id,
        local_peer_id,
        display_name,
        shared_secret_b64,
        protocol_version,
        listener_port: 0,
        listener_endpoint: Option::None,
        peers: Vec::new(),
        allowlist: allow,
        last_peer_sync_at: Vec::new(),
        last_good_snapshot: Option::None,
        pending_conflicts: Vec::new(),
        cached_peer_state: Vec::new(),
        bootstrap_host_peer_id,
        trusted_peer_ids: Vec::new(),
        trusted_peer_ids_initialized: false,
        peer_aliases: Vec::new(),
        max_auto_changes: 25,
        sync_mods: true,
        sync_resourcepacks: false,
        sync_shaderpacks: true,
        sync_datapacks: true,
    }
}


/// Whether an earlier ack entry already carries the same peer id.
pub open spec fn ack_seen_before(acks: Seq<crate::frame::PeerSummary>, i: int) -> bool {
    exists|j: int| 0 <= j < i && (#[trigger] acks[j]).peer_id@ == acks[i].peer_id@
}

/// How many distinct non-local peers the first `upto` ack entries
/// introduce.
pub open spec fn merged_peer_count(
    acks: Seq<crate::frame::PeerSummary>,
    local: Seq<char>,
    upto: int,
) -> nat
    decreases upto,
    when 0 <= upto <= acks.len()
{
    if upto <= 0 {
        0
    } else {
        merged_peer_count(acks, local, upto - 1) + (if acks[upto - 1].peer_id@ != local
            && !ack_seen_before(acks, upto - 1) {
            1nat
        } else {
            0nat
        })
    }
}

/// Plan joining a group from a parsed invite and the peers the bootstrap
/// peer acknowledged: the new session carries the invite's group, secret,
/// protocol version and host, the acknowledged peers are merged by id with
/// the local id skipped, and a group of more than eight members, the local
/// peer counted, is refused.
#[verifier::rlimit(100)]
pub fn plan_join(
    invite: &crate::invite::InvitePayload,
    instance_id: &String,
    local_peer_id: &String,
    display_name: Option<String>,
    ack_peers: &Vec<crate::frame::PeerSummary>,
) -> (r: Result<FriendLinkSessionRecord, String>)
    ensures
        (r is Ok) <==> merged_peer_count(ack_peers@, local_peer_id@, ack_peers@.len() as int) + 1
            <= 8,
        match r {
            Result::Ok(s) => {
                &&& s.instance_id@ == instance_id@
                &&& s.group_id@ == invite.group_id@
                &&& s.local_peer_id@ == local_peer_id@
                &&& s.shared_secret_b64@ == invite.shared_secret@
                &&& s.protocol_version == invite.protocol_version
                &&& match s.bootstrap_host_peer_id {
                    Option::Some(h) => h@ == invite.host_peer_id@,
                    Option::None => false,
                }
                &&& s.peers@.len() == merged_peer_count(
                    ack_peers@,
                    local_peer_id@,
                    ack_peers@.len() as int,
                )
                &&& forall|j: int|
                    0 <= j < ack_peers@.len() && (#[trigger] ack_peers@[j]).peer_id@
                        != local_peer_id@ ==> has_peer(s.peers@, ack_peers@[j].peer_id@)
                &&& forall|m: int|
                    0 <= m < s.peers@.len() ==> (#[trigger] s.peers@[m]).peer_id@ != local_peer_id@
                        && exists|j: int|
                        0 <= j < ack_peers@.len() && (#[trigger] ack_peers@[j]).peer_id@
                            == s.peers@[m].peer_id@
                &&& s.listener_port == 0
                &&& s.listener_endpoint is None
                &&& s.pending_conflicts@.len() == 0
                &&& s.last_good_snapshot is None
                &&& s.last_peer_sync_at@.len() == 0
                &&& s.cached_peer_state@.len() == 0
                &&& s.allowlist@.len() == 4
                &&& s.allowlist@[0]@ == "options.txt"@
                &&& s.allowlist@[1]@ == "config/**/*.json"@
                &&& s.allowlist@[2]@ == "config/**/*.toml"@
                &&& s.allowlist@[3]@ == "config/**/*.properties"@
                &&& ({
                    let (ids, inited) = trusted_after_init(s.peers@, Seq::empty(), false);
                    strs_view_of(s.trusted_peer_ids@) == ids && s.trusted_peer_ids_initialized
                        == inited
                })
                &&& s.max_auto_changes == 25
                &&& s.sync_mods
                &&& !s.sync_resourcepacks
                &&& s.sync_shaderpacks
                &&& s.sync_datapacks
                &&& ({
                    let t = crate::text::trim_spec(
                        match display_name {
                            Option::Some(d) => d@,
                            Option::None => Seq::empty(),
                        },
                    );
                    &&& (t.len() > 0 ==> s.display_name@ == t)
                    &&& (t.len() == 0 ==> crate::text::has_prefix(s.display_name@, "Peer-"@))
                })
            },
            Result::Err(e) => e@ == "Linked group is full. Maximum group size is 8 peers."@,
        },
{
    let ghost dn_trim = crate::text::trim_spec(
        match &display_name {
            Option::Some(d) => d@,
            Option::None => Seq::empty(),
        },
    );
    let suffix_src = crate::trusted::fresh_uuid();
    let mut sv = crate::text::chars_vec(suffix_src.as_str());
    sv.truncate(8);
    let suffix = crate::text::string_from_chars(&sv);
    let mut session = FriendLinkSessionRecord {
        instance_id: crate::state::clone_string(instance_id),
        group_id: crate::state::clone_string(&invite.group_id),
        local_peer_id: crate::state::clone_string(local_peer_id),
        display_name: sanitize_display_name(display_name, suffix.as_str()),
        shared_secret_b64: crate::state::clone_string(&invite.shared_secret),
        protocol_version: invite.protocol_version,
        listener_port: 0,
        listener_endpoint: Option::None,
        peers: Vec::new(),
        allowlist: crate::paths::default_allowlist(),
        last_peer_sync_at: Vec::new(),
        last_good_snapshot: Option::None,
        pending_conflicts: Vec::new(),
        cached_peer_state: Vec::new(),
        bootstrap_host_peer_id: Option::Some(crate::state::clone_string(&invite.host_peer_id)),
        trusted_peer_ids: Vec::new(),
        trusted_peer_ids_initialized: false,
        peer_aliases: Vec::new(),
        max_auto_changes: 25,
        sync_mods: true,
        sync_resourcepacks: false,
        sync_shaderpacks: true,
        sync_datapacks: true,
    };
    proof {
        if dn_trim.len() == 0 {
            assert(session.display_name@.subrange(0, "Peer-"@.len() as int) =~= "Peer-"@);
        }
    }
    let mut i: usize = 0;
    while i < ack_peers.len()
        invariant
            i <= ack_peers@.len(),
            session.local_peer_id@ == local_peer_id@,
            session.peers@.len() == merged_peer_count(ack_peers@, local_peer_id@, i as int),
            forall|j: int|
                0 <= j < i && (#[trigger] ack_peers@[j]).peer_id@ != local_peer_id@ ==> has_peer(
                    session.peers@,
                    ack_peers@[j].peer_id@,
                ),
            forall|m: int|
                0 <= m < session.peers@.len() ==> (#[trigger] session.peers@[m]).peer_id@
                    != local_peer_id@ && exists|j: int|
                    0 <= j < i && (#[trigger] ack_peers@[j]).peer_id@
                        == session.peers@[m].peer_id@,
            session.instance_id@ == instance_id@,
            session.group_id@ == invite.group_id@,
            session.shared_secret_b64@ == invite.shared_secret@,
            session.protocol_version == invite.protocol_version,
            match session.bootstrap_host_peer_id {
                Option::Some(h) => h@ == invite.host_peer_id@,
                Option::None => false,
            },
            session.listener_port == 0,
            session.listener_endpoint is None,
            session.pending_conflicts@.len() == 0,
            session.last_good_snapshot is None,
            session.last_peer_sync_at@.len() == 0,
            session.cached_peer_state@.len() == 0,
            session.allowlist@.len() == 4,
            session.allowlist@[0]@ == "options.txt"@,
            session.allowlist@[1]@ == "config/**/*.json"@,
            session.allowlist@[2]@ == "config/**/*.toml"@,
            session.allowlist@[3]@ == "config/**/*.properties"@,
            session.trusted_peer_ids@.len() == 0,
            !session.trusted_peer_ids_initialized,
            session.peer_aliases@.len() == 0,
            session.max_auto_changes == 25,
            session.sync_mods,
            !session.sync_resourcepacks,
            session.sync_shaderpacks,
            session.sync_datapacks,

            (dn_trim.len() > 0 ==> session.display_name@ == dn_trim),
            (dn_trim.len() == 0 ==> crate::text::has_prefix(session.display_name@, "Peer-"@)),
        decreases ack_peers@.len() - i,
    {
        let a = &ack_peers[i];
        proof {
            assert(*a == ack_peers@[i as int]);
        }
        let ghost peers0 = session.peers@;
        let added_at = crate::trusted::now_iso();
        let seen_at = crate::trusted::now_iso();
        upsert_peer(
            &mut session,
            FriendPeerRecord {
                peer_id: crate::state::clone_string(&a.peer_id),
                display_name: crate::state::clone_string(&a.display_name),
                endpoint: crate::state::clone_string(&a.endpoint),
                added_at,
                last_seen_at: Option::Some(seen_at),
                online: a.online,
                last_state_hash: Option::None,
            },
        );
        proof {
            let id = ack_peers@[i as int].peer_id@;
            if id == local_peer_id@ {
                assert(session.peers@ == peers0);
                assert(!ack_seen_before(ack_peers@, i as int) ==> true);
            } else if has_peer(peers0, id) {
                // An earlier ack entry put the id there already.
                let w = choose|w: int|
                    0 <= w < peers0.len() && (#[trigger] peers0[w]).peer_id@ == id;
                assert(ack_seen_before(ack_peers@, i as int)) by {
                    let j = choose|j: int|
                        0 <= j < i && (#[trigger] ack_peers@[j]).peer_id@ == peers0[w].peer_id@;
                    assert(ack_peers@[j].peer_id@ == ack_peers@[i as int].peer_id@);
                }
            } else {
                assert(session.peers@ == peers0.push(
                    session.peers@[session.peers@.len() - 1],
                ));
                if ack_seen_before(ack_peers@, i as int) {
                    let j = choose|j: int|
                        0 <= j < i && (#[trigger] ack_peers@[j]).peer_id@ == ack_peers@[i
                            as int].peer_id@;
                    assert(has_peer(peers0, id));
                    assert(false);
                }
            }
            assert forall|j: int|
                0 <= j < i + 1 && (#[trigger] ack_peers@[j]).peer_id@ != local_peer_id@ implies
                has_peer(session.peers@, ack_peers@[j].peer_id@) by {
                let idj = ack_peers@[j].peer_id@;
                if j == i as int {
                    assert(has_peer(session.peers@, idj));
                } else {
                    assert(has_peer(peers0, idj));
                    let wj = choose|wj: int|
                        0 <= wj < peers0.len() && (#[trigger] peers0[wj]).peer_id@ == idj;
                    assert(session.peers@[wj].peer_id@ == idj);
                    assert(has_peer(session.peers@, idj));
                }
            }
            assert forall|m: int| 0 <= m < session.peers@.len() implies (
            #[trigger] session.peers@[m]).peer_id@ != local_peer_id@ && exists|j: int|
                0 <= j < i + 1 && (#[trigger] ack_peers@[j]).peer_id@
                    == session.peers@[m].peer_id@ by {
                if m < peers0.len() && session.peers@[m] == peers0[m] {
                    let j = choose|j: int|
                        0 <= j < i && (#[trigger] ack_peers@[j]).peer_id@ == peers0[m].peer_id@;
                    assert(ack_peers@[j].peer_id@ == session.peers@[m].peer_id@);
                } else {
                    assert(session.peers@[m].peer_id@ == ack_peers@[i as int].peer_id@);
                }
            }
        }
        i = i + 1;
    }
    if session.peers.len() >= 8 {
        return Result::Err(
            crate::state::lit_string("Linked group is full. Maximum group size is 8 peers."),
        );
    }
    normalize_session_friend_link_settings(&mut session);
    proof {
        assert(strs_view_of(Seq::<String>::empty()) =~= Seq::<Seq<char>>::empty());
    }
    Result::Ok(session)
}

} // verus!
