//! Drift preview: a read-only comparison of the local state against every
//! peer's state, classified per key as added, changed or removed, deduped,
//! filtered by the per-content-type sync toggles, and summarized under an
//! aggregate status. Selective sync reuses the preview and applies only the
//! chosen keys.
use vstd::prelude::*;

use crate::session::{has_peer, sync_enabled_spec, FriendLinkSessionRecord};
use crate::state::{config_key_spec, lock_key_spec, CanonicalLockEntry, ConfigFileState, SyncState};

verus! {

/// One peer's fetched state.
pub struct PeerStateSnapshot {
    pub peer_id: String,
    pub display_name: String,
    pub state: SyncState,
}

/// One observed difference against one peer.
pub struct FriendLinkDriftItem {
    pub id: String,
    pub key: String,
    pub kind: String,
    pub change: String,
    pub peer_id: String,
    pub peer_display_name: String,
    pub mine_preview: Option<String>,
    pub theirs_preview: Option<String>,
    pub trusted_peer: bool,
}

/// The whole preview.
pub struct FriendLinkDriftPreview {
    pub instance_id: String,
    pub status: String,
    pub added: usize,
    pub removed: usize,
    pub changed: usize,
    pub total_changes: usize,
    pub items: Vec<FriendLinkDriftItem>,
    pub online_peers: usize,
    pub peer_count: usize,
    pub has_untrusted_changes: bool,
}

/// The aggregate drift status: pending conflicts win, then no peers, then
/// everyone offline, then a clean in-sync state, else unsynced.
pub open spec fn drift_status_spec(
    pending_conflicts: nat,
    peer_count: nat,
    online_peers: nat,
    total_changes: nat,
) -> Seq<char> {
    if pending_conflicts > 0 {
        "conflicted"@
    } else if peer_count == 0 {
        "no_peers"@
    } else if online_peers == 0 {
        "offline"@
    } else if total_changes == 0 {
        "in_sync"@
    } else {
        "unsynced"@
    }
}

/// Derive the aggregate status of a drift preview.
pub fn drift_status(
    pending_conflicts: usize,
    peer_count: usize,
    online_peers: usize,
    total_changes: usize,
) -> (r: String)
    ensures
        r@ == drift_status_spec(
            pending_conflicts as nat,
            peer_count as nat,
            online_peers as nat,
            total_changes as nat,
        ),
{
    if pending_conflicts > 0 {
        crate::state::lit_string("conflicted")
    } else if peer_count == 0 {
        crate::state::lit_string("no_peers")
    } else if online_peers == 0 {
        crate::state::lit_string("offline")
    } else if total_changes == 0 {
        crate::state::lit_string("in_sync")
    } else {
        crate::state::lit_string("unsynced")
    }
}

/// Whether some lock entry, local or on a peer, carries this key and is
/// admitted by the session's sync toggles.
pub open spec fn lock_item_witness(
    s: &FriendLinkSessionRecord,
    locals: Seq<CanonicalLockEntry>,
    peers: Seq<PeerStateSnapshot>,
    key: Seq<char>,
) -> bool {
    ||| exists|i: int|
        0 <= i < locals.len() && lock_key_spec((#[trigger] locals[i])@) == key && sync_enabled_spec(
            s,
            locals[i].content_type@,
        )
    ||| exists|p: int, i: int|
        0 <= p < peers.len() && 0 <= i < (#[trigger] peers[p]).state.lock_entries@.len()
            && lock_key_spec((#[trigger] peers[p].state.lock_entries@[i])@) == key
            && sync_enabled_spec(s, peers[p].state.lock_entries@[i].content_type@)
}

/// The dedupe identity of an item: peer, key and change, joined as the
/// preview builds them. Peer ids and keys are plain text, so two items are
/// the same observation exactly when these strings coincide.
pub open spec fn dedupe_spec(it: FriendLinkDriftItem) -> Seq<char> {
    it.peer_id@ + "::"@ + it.key@ + "::"@ + it.change@
}

/// The dedupe identity built from parts.
pub open spec fn dedupe_of(peer_id: Seq<char>, key: Seq<char>, change: Seq<char>) -> Seq<char> {
    peer_id + "::"@ + key + "::"@ + change
}

/// Whether some item carries this dedupe identity.
pub open spec fn has_dedupe(items: Seq<FriendLinkDriftItem>, d: Seq<char>) -> bool {
    exists|i: int| 0 <= i < items.len() && dedupe_spec(#[trigger] items[i]) == d
}

/// How many items carry one change kind.
pub open spec fn count_change(items: Seq<FriendLinkDriftItem>, ch: Seq<char>) -> nat
    decreases items.len(),
{
    if items.len() == 0 {
        0
    } else {
        (if items.last().change@ == ch {
            1nat
        } else {
            0nat
        }) + count_change(items.drop_last(), ch)
    }
}

/// Whether any local lock entry carries the key.
pub open spec fn local_lock_has_key(locals: Seq<CanonicalLockEntry>, key: Seq<char>) -> bool {
    exists|l: int| 0 <= l < locals.len() && lock_key_spec((#[trigger] locals[l])@) == key
}

/// Whether any of a peer's lock entries carries the key.
pub open spec fn peer_lock_has_key(entries: Seq<CanonicalLockEntry>, key: Seq<char>) -> bool {
    exists|l: int| 0 <= l < entries.len() && lock_key_spec((#[trigger] entries[l])@) == key
}

/// What change a peer's config file shows against the local files: `added`
/// when no local file carries its key, `changed` when the unique local file
/// of that key carries a different hash, nothing when the hashes agree.
pub open spec fn config_expected(
    locals: Seq<crate::state::ConfigFileState>,
    f: crate::state::ConfigFileState,
) -> Option<Seq<char>> {
    if forall|l: int|
        0 <= l < locals.len() ==> crate::state::config_key_spec((#[trigger] locals[l]).path@)
            != crate::state::config_key_spec(f.path@) {
        Option::Some("added"@)
    } else if exists|l: int|
        0 <= l < locals.len() && crate::state::config_key_spec((#[trigger] locals[l]).path@)
            == crate::state::config_key_spec(f.path@) && locals[l].hash@ != f.hash@ {
        Option::Some("changed"@)
    } else {
        Option::None
    }
}

/// Lock-entry completeness for one peer: every admitted remote entry whose
/// key is absent locally has its `added` observation in the items.
pub open spec fn peer_lock_adds_done(
    s: &FriendLinkSessionRecord,
    locals: Seq<CanonicalLockEntry>,
    snap: PeerStateSnapshot,
    items: Seq<FriendLinkDriftItem>,
    upto: int,
) -> bool {
    forall|j: int|
        0 <= j < upto && upto <= snap.state.lock_entries@.len() && sync_enabled_spec(
            s,
            (#[trigger] snap.state.lock_entries@[j]).content_type@,
        ) && !local_lock_has_key(locals, lock_key_spec(snap.state.lock_entries@[j]@))
            ==> has_dedupe(
            items,
            dedupe_of(snap.peer_id@, lock_key_spec(snap.state.lock_entries@[j]@), "added"@),
        )
}

/// Config completeness for one peer: every remote file showing a change has
/// its observation in the items.
pub open spec fn peer_config_done(
    locals: Seq<crate::state::ConfigFileState>,
    snap: PeerStateSnapshot,
    items: Seq<FriendLinkDriftItem>,
    upto: int,
) -> bool {
    forall|j: int|
        0 <= j < upto && upto <= snap.state.config_files@.len() ==> match config_expected(
            locals,
            #[trigger] snap.state.config_files@[j],
        ) {
            Option::Some(ch) => has_dedupe(
                items,
                dedupe_of(
                    snap.peer_id@,
                    crate::state::config_key_spec(snap.state.config_files@[j].path@),
                    ch,
                ),
            ),
            Option::None => true,
        }
}

/// Removed completeness against a sole peer: every admitted local entry
/// whose key the peer lacks has its `removed` observation in the items.
pub open spec fn peer_removed_done(
    s: &FriendLinkSessionRecord,
    locals: Seq<CanonicalLockEntry>,
    snap: PeerStateSnapshot,
    items: Seq<FriendLinkDriftItem>,
    upto: int,
) -> bool {
    forall|j: int|
        0 <= j < upto && upto <= locals.len() && sync_enabled_spec(
            s,
            (#[trigger] locals[j]).content_type@,
        ) && !peer_lock_has_key(snap.state.lock_entries@, lock_key_spec(locals[j]@))
            ==> has_dedupe(
            items,
            dedupe_of(snap.peer_id@, lock_key_spec(locals[j]@), "removed"@),
        )
}

/// Completeness over the fully processed peers.
pub open spec fn drift_complete(
    s: &FriendLinkSessionRecord,
    locals_lock: Seq<CanonicalLockEntry>,
    locals_cfg: Seq<crate::state::ConfigFileState>,
    peers: Seq<PeerStateSnapshot>,
    items: Seq<FriendLinkDriftItem>,
    upto: int,
) -> bool {
    forall|q: int|
        0 <= q < upto <= peers.len() ==> {
            &&& peer_lock_adds_done(
                s,
                locals_lock,
                #[trigger] peers[q],
                items,
                peers[q].state.lock_entries@.len() as int,
            )
            &&& peer_config_done(
                locals_cfg,
                peers[q],
                items,
                peers[q].state.config_files@.len() as int,
            )
            &&& (peers.len() == 1 ==> peer_removed_done(
                s,
                locals_lock,
                peers[q],
                items,
                locals_lock.len() as int,
            ))
        }
}

/// Growing the item list never loses an observation.
proof fn lemma_dedupe_mono(before: Seq<FriendLinkDriftItem>, after: Seq<FriendLinkDriftItem>)
    requires
        before.len() <= after.len(),
        forall|i: int| 0 <= i < before.len() ==> #[trigger] after[i] == before[i],
    ensures
        forall|d: Seq<char>| #[trigger] has_dedupe(before, d) ==> has_dedupe(after, d),
{
    assert forall|d: Seq<char>| #[trigger] has_dedupe(before, d) implies has_dedupe(after, d) by {
        let i = choose|i: int| 0 <= i < before.len() && dedupe_spec(#[trigger] before[i]) == d;
        assert(dedupe_spec(after[i]) == d);
    }
}

/// Items are sound: every lock-entry item has a toggle-admitted witness, and
/// every item's trust flag reports whether its peer is trusted.
pub open spec fn drift_items_sound(
    s: &FriendLinkSessionRecord,
    locals: Seq<CanonicalLockEntry>,
    peers: Seq<PeerStateSnapshot>,
    items: Seq<FriendLinkDriftItem>,
) -> bool {
    &&& forall|i: int|
        0 <= i < items.len() && (#[trigger] items[i]).kind@ == "lock_entry"@ ==> lock_item_witness(
            s,
            locals,
            peers,
            items[i].key@,
        )
    &&& forall|i: int|
        0 <= i < items.len() ==> (#[trigger] items[i]).trusted_peer
            == crate::session::norm_trusted_spec(
            s.peers@,
            crate::paths::strs_view_of(s.trusted_peer_ids@),
            Seq::empty(),
        ).contains(items[i].peer_id@)
}

/// The dedupe bookkeeping: the seen list holds exactly the identities of
/// the items, and no identity repeats.
pub open spec fn dedupe_books(items: Seq<FriendLinkDriftItem>, seen: Seq<String>) -> bool {
    &&& forall|i: int|
        0 <= i < items.len() ==> crate::paths::strs_view_of(seen).contains(
            dedupe_spec(#[trigger] items[i]),
        )
    &&& forall|w: int| 0 <= w < seen.len() ==> has_dedupe(items, (#[trigger] seen[w])@)
    &&& forall|i: int, j: int|
        0 <= i < j < items.len() ==> dedupe_spec(#[trigger] items[i]) != dedupe_spec(
            #[trigger] items[j],
        )
}

/// Growing the item list preserves every completeness fact.
proof fn lemma_done_mono(
    s: &FriendLinkSessionRecord,
    locals_lock: Seq<CanonicalLockEntry>,
    locals_cfg: Seq<ConfigFileState>,
    peers: Seq<PeerStateSnapshot>,
    snap: PeerStateSnapshot,
    before: Seq<FriendLinkDriftItem>,
    after: Seq<FriendLinkDriftItem>,
    adds_upto: int,
    cfg_upto: int,
    removed_upto: int,
    complete_upto: int,
)
    requires
        before.len() <= after.len(),
        forall|i: int| 0 <= i < before.len() ==> #[trigger] after[i] == before[i],
        peer_lock_adds_done(s, locals_lock, snap, before, adds_upto),
        peer_config_done(locals_cfg, snap, before, cfg_upto),
        peer_removed_done(s, locals_lock, snap, before, removed_upto),
        drift_complete(s, locals_lock, locals_cfg, peers, before, complete_upto),
    ensures
        peer_lock_adds_done(s, locals_lock, snap, after, adds_upto),
        peer_config_done(locals_cfg, snap, after, cfg_upto),
        peer_removed_done(s, locals_lock, snap, after, removed_upto),
        drift_complete(s, locals_lock, locals_cfg, peers, after, complete_upto),
{
    lemma_dedupe_mono(before, after);
}

/// Appending one sound item keeps the items sound.
proof fn lemma_sound_push(
    s: &FriendLinkSessionRecord,
    locals: Seq<CanonicalLockEntry>,
    peers: Seq<PeerStateSnapshot>,
    before: Seq<FriendLinkDriftItem>,
    after: Seq<FriendLinkDriftItem>,
)
    requires
        drift_items_sound(s, locals, peers, before),
        before.len() <= after.len() <= before.len() + 1,
        forall|i: int| 0 <= i < before.len() ==> #[trigger] after[i] == before[i],
        after.len() > before.len() ==> {
            let it = after.last();
            &&& (it.kind@ == "lock_entry"@ ==> lock_item_witness(s, locals, peers, it.key@))
            &&& it.trusted_peer == crate::session::norm_trusted_spec(
                s.peers@,
                crate::paths::strs_view_of(s.trusted_peer_ids@),
                Seq::empty(),
            ).contains(it.peer_id@)
        },
    ensures
        drift_items_sound(s, locals, peers, after),
{
    assert forall|i: int|
        0 <= i < after.len() && (#[trigger] after[i]).kind@ == "lock_entry"@ implies
        lock_item_witness(s, locals, peers, after[i].key@) by {
        if i < before.len() {
            assert(after[i] == before[i]);
        } else {
            assert(after[i] == after.last());
        }
    }
    assert forall|i: int| 0 <= i < after.len() implies (#[trigger] after[i]).trusted_peer
        == crate::session::norm_trusted_spec(
        s.peers@,
        crate::paths::strs_view_of(s.trusted_peer_ids@),
        Seq::empty(),
    ).contains(after[i].peer_id@) by {
        if i < before.len() {
            assert(after[i] == before[i]);
        } else {
            assert(after[i] == after.last());
        }
    }
}

/// Record one observation: append it unless the same peer, key and change
/// were already recorded, and keep the books straight either way.
#[verifier::rlimit(100)]
fn push_unique_item(
    items: &mut Vec<FriendLinkDriftItem>,
    seen: &mut Vec<String>,
    peer_id: &String,
    key: &String,
    change: &str,
    peer_name: &String,
    kind: &str,
    mine_preview: Option<String>,
    theirs_preview: Option<String>,
    trusted: bool,
)
    requires
        dedupe_books(old(items)@, old(seen)@),
    ensures
        dedupe_books(final(items)@, final(seen)@),
        has_dedupe(final(items)@, dedupe_of(peer_id@, key@, change@)),
        old(items)@.len() <= final(items)@.len() <= old(items)@.len() + 1,
        forall|i: int| 0 <= i < old(items)@.len() ==> #[trigger] final(items)@[i] == old(items)@[i],
        final(items)@.len() > old(items)@.len() ==> ({
            let it = final(items)@.last();
            &&& it.key@ == key@
            &&& it.kind@ == kind@
            &&& it.change@ == change@
            &&& it.peer_id@ == peer_id@
            &&& it.trusted_peer == trusted
        }),
{
    let dedupe = dedupe_key(peer_id, key, change);
    if !contains_string(seen, &dedupe) {
        let ghost items0 = items@;
        let ghost seen0 = seen@;
        items.push(
            FriendLinkDriftItem {
                id: make_drift_id(),
                key: crate::state::clone_string(key),
                kind: crate::state::lit_string(kind),
                change: crate::state::lit_string(change),
                peer_id: crate::state::clone_string(peer_id),
                peer_display_name: crate::state::clone_string(peer_name),
                mine_preview,
                theirs_preview,
                trusted_peer: trusted,
            },
        );
        seen.push(dedupe);
        proof {
            let it = items@.last();
            assert(dedupe_spec(it) =~= dedupe_of(peer_id@, key@, change@));
            assert(seen@[seen@.len() - 1]@ == dedupe_of(peer_id@, key@, change@));
            assert(has_dedupe(items@, dedupe_of(peer_id@, key@, change@))) by {
                assert(dedupe_spec(items@[items@.len() - 1]) == dedupe_of(
                    peer_id@,
                    key@,
                    change@,
                ));
            }
            assert forall|i: int| 0 <= i < items@.len() implies crate::paths::strs_view_of(
                seen@,
            ).contains(dedupe_spec(#[trigger] items@[i])) by {
                if i < items0.len() {
                    assert(crate::paths::strs_view_of(seen0).contains(dedupe_spec(items0[i])));
                    let w = choose|w: int|
                        0 <= w < seen0.len() && #[trigger] crate::paths::strs_view_of(seen0)[w]
                            == dedupe_spec(items0[i]);
                    assert(crate::paths::strs_view_of(seen@)[w] == dedupe_spec(items@[i]));
                } else {
                    assert(crate::paths::strs_view_of(seen@)[seen@.len() - 1] == dedupe_spec(
                        items@[i],
                    ));
                }
            }
            assert forall|w: int| 0 <= w < seen@.len() implies has_dedupe(
                items@,
                (#[trigger] seen@[w])@,
            ) by {
                if w < seen0.len() {
                    assert(has_dedupe(items0, seen0[w]@));
                    let i = choose|i: int|
                        0 <= i < items0.len() && dedupe_spec(#[trigger] items0[i]) == seen0[w]@;
                    assert(dedupe_spec(items@[i]) == seen@[w]@);
                } else {
                    assert(dedupe_spec(items@[items@.len() - 1]) == seen@[w]@);
                }
            }
            assert forall|i: int, j: int| 0 <= i < j < items@.len() implies dedupe_spec(
                #[trigger] items@[i],
            ) != dedupe_spec(#[trigger] items@[j]) by {
                if j < items0.len() {
                    assert(dedupe_spec(items0[i]) != dedupe_spec(items0[j]));
                } else {
                    // The new identity was absent from the seen list, which
                    // holds every earlier identity.
                    assert(crate::paths::strs_view_of(seen0).contains(dedupe_spec(items0[i])));
                    if dedupe_spec(items@[i]) == dedupe_spec(items@[j]) {
                        let w = choose|w: int|
                            0 <= w < seen0.len() && #[trigger] crate::paths::strs_view_of(
                                seen0,
                            )[w] == dedupe_spec(items0[i]);
                        assert(seen0[w]@ == dedupe@);
                        assert(false);
                    }
                }
            }
        }
    } else {
        proof {
            // Already recorded: the books say the identity is among the
            // items.
            assert(crate::paths::strs_view_of(seen@).contains(dedupe@));
            let w = choose|w: int|
                0 <= w < seen@.len() && #[trigger] crate::paths::strs_view_of(seen@)[w]
                    == dedupe@;
            assert(has_dedupe(items@, seen@[w]@));
        }
    }
}

/// Extending a processed range by one entry whose due observation is
/// recorded extends lock-add completeness.
proof fn lemma_adds_step(
    s: &FriendLinkSessionRecord,
    locals: Seq<CanonicalLockEntry>,
    snap: PeerStateSnapshot,
    items: Seq<FriendLinkDriftItem>,
    j: int,
)
    requires
        peer_lock_adds_done(s, locals, snap, items, j),
        0 <= j < snap.state.lock_entries@.len(),
        (sync_enabled_spec(s, snap.state.lock_entries@[j].content_type@) && !local_lock_has_key(
            locals,
            lock_key_spec(snap.state.lock_entries@[j]@),
        )) ==> has_dedupe(
            items,
            dedupe_of(snap.peer_id@, lock_key_spec(snap.state.lock_entries@[j]@), "added"@),
        ),
    ensures
        peer_lock_adds_done(s, locals, snap, items, j + 1),
{
}

/// The config analogue of the adds step.
proof fn lemma_config_step(
    locals: Seq<ConfigFileState>,
    snap: PeerStateSnapshot,
    items: Seq<FriendLinkDriftItem>,
    j: int,
)
    requires
        peer_config_done(locals, snap, items, j),
        0 <= j < snap.state.config_files@.len(),
        match config_expected(locals, snap.state.config_files@[j]) {
            Option::Some(ch) => has_dedupe(
                items,
                dedupe_of(snap.peer_id@, config_key_spec(snap.state.config_files@[j].path@), ch),
            ),
            Option::None => true,
        },
    ensures
        peer_config_done(locals, snap, items, j + 1),
{
}

/// The removed analogue of the adds step.
proof fn lemma_removed_step(
    s: &FriendLinkSessionRecord,
    locals: Seq<CanonicalLockEntry>,
    snap: PeerStateSnapshot,
    items: Seq<FriendLinkDriftItem>,
    j: int,
)
    requires
        peer_removed_done(s, locals, snap, items, j),
        0 <= j < locals.len(),
        (sync_enabled_spec(s, locals[j].content_type@) && !peer_lock_has_key(
            snap.state.lock_entries@,
            lock_key_spec(locals[j]@),
        )) ==> has_dedupe(items, dedupe_of(snap.peer_id@, lock_key_spec(locals[j]@), "removed"@)),
    ensures
        peer_removed_done(s, locals, snap, items, j + 1),
{
}

/// A fully processed peer joins the completed set.
proof fn lemma_peer_done(
    s: &FriendLinkSessionRecord,
    locals_lock: Seq<CanonicalLockEntry>,
    locals_cfg: Seq<ConfigFileState>,
    peers: Seq<PeerStateSnapshot>,
    items: Seq<FriendLinkDriftItem>,
    p: int,
)
    requires
        0 <= p < peers.len(),
        drift_complete(s, locals_lock, locals_cfg, peers, items, p),
        peer_lock_adds_done(
            s,
            locals_lock,
            peers[p],
            items,
            peers[p].state.lock_entries@.len() as int,
        ),
        peer_config_done(locals_cfg, peers[p], items, peers[p].state.config_files@.len() as int),
        peers.len() == 1 ==> peer_removed_done(
            s,
            locals_lock,
            peers[p],
            items,
            locals_lock.len() as int,
        ),
    ensures
        drift_complete(s, locals_lock, locals_cfg, peers, items, p + 1),
{
}

/// The exec scan over the local config files agrees with the
/// expected-change spec: local config keys are unique.
proof fn lemma_config_expected(
    locals: Seq<ConfigFileState>,
    f: ConfigFileState,
    found: Option<int>,
    change: Option<Seq<char>>,
)
    requires
        forall|l: int, l2: int|
            0 <= l < l2 < locals.len() ==> config_key_spec((#[trigger] locals[l]).path@)
                != config_key_spec((#[trigger] locals[l2]).path@),
        match found {
            Option::Some(l) => 0 <= l < locals.len() && config_key_spec(locals[l].path@)
                == config_key_spec(f.path@) && change == (if locals[l].hash@ != f.hash@ {
                Option::Some("changed"@)
            } else {
                Option::<Seq<char>>::None
            }),
            Option::None => (forall|l: int|
                0 <= l < locals.len() ==> config_key_spec((#[trigger] locals[l]).path@)
                    != config_key_spec(f.path@)) && change == Option::Some("added"@),
        },
    ensures
        config_expected(locals, f) == change,
{
    match found {
        Option::Some(l) => {
            assert(!(forall|m: int|
                0 <= m < locals.len() ==> config_key_spec((#[trigger] locals[m]).path@)
                    != config_key_spec(f.path@))) by {
                assert(config_key_spec(locals[l].path@) == config_key_spec(f.path@));
            }
            if locals[l].hash@ != f.hash@ {
                assert(exists|m: int|
                    0 <= m < locals.len() && config_key_spec((#[trigger] locals[m]).path@)
                        == config_key_spec(f.path@) && locals[m].hash@ != f.hash@) by {
                    assert(config_key_spec(locals[l].path@) == config_key_spec(f.path@)
                        && locals[l].hash@ != f.hash@);
                }
            } else {
                if exists|m: int|
                    0 <= m < locals.len() && config_key_spec((#[trigger] locals[m]).path@)
                        == config_key_spec(f.path@) && locals[m].hash@ != f.hash@ {
                    let m = choose|m: int|
                        0 <= m < locals.len() && config_key_spec((#[trigger] locals[m]).path@)
                            == config_key_spec(f.path@) && locals[m].hash@ != f.hash@;
                    assert(m == l);
                    assert(false);
                }
            }
        },
        Option::None => {},
    }
}

/// Build the drift preview. Every lock-entry item has a witness entry
/// admitted by the sync toggles; every admitted remote entry absent locally
/// yields an `added` observation; every remote config file whose hash is
/// absent or differs locally yields its observation; against a sole peer,
/// every admitted local entry the peer lacks yields a `removed`
/// observation. Items are deduped by peer, key and change; the counters
/// count exactly the items of their change kind; and the aggregate status
/// follows the drift-status table. Completeness for `changed` lock entries
/// (a key present on both sides with differing canonical hashes) is checked
/// by test, not stated here: the canonical entry hash is not a spec-level
/// function of the entry.
#[verifier::rlimit(100)]
pub fn build_friend_link_drift_preview(
    instance_id: &str,
    session: &FriendLinkSessionRecord,
    local_state: &SyncState,
    peer_states: &Vec<PeerStateSnapshot>,
    online_peers: usize,
) -> (r: FriendLinkDriftPreview)
    requires
        forall|l: int, l2: int|
            0 <= l < l2 < local_state.config_files@.len() ==> config_key_spec(
                (#[trigger] local_state.config_files@[l]).path@,
            ) != config_key_spec((#[trigger] local_state.config_files@[l2]).path@),
    ensures
        r.instance_id@ == instance_id@,
        r.total_changes == r.items@.len(),
        r.added == count_change(r.items@, "added"@),
        r.removed == count_change(r.items@, "removed"@),
        r.added + r.removed + r.changed == r.total_changes,
        r.online_peers == online_peers,
        r.peer_count == session.peers@.len(),
        r.status@ == drift_status_spec(
            session.pending_conflicts@.len(),
            session.peers@.len(),
            online_peers as nat,
            r.items@.len(),
        ),
        r.has_untrusted_changes <==> exists|i: int|
            0 <= i < r.items@.len() && !(#[trigger] r.items@[i]).trusted_peer,
        forall|i: int, j: int|
            0 <= i < j < r.items@.len() ==> dedupe_spec(#[trigger] r.items@[i]) != dedupe_spec(
                #[trigger] r.items@[j],
            ),
        drift_items_sound(session, local_state.lock_entries@, peer_states@, r.items@),
        drift_complete(
            session,
            local_state.lock_entries@,
            local_state.config_files@,
            peer_states@,
            r.items@,
            peer_states@.len() as int,
        ),
{
    let trusted = crate::session::normalize_trusted_peer_ids(session, &session.trusted_peer_ids);
    // Local lock rows: key and hash per local entry.
    let mut local_rows: Vec<(String, String)> = Vec::new();
    let mut li: usize = 0;
    while li < local_state.lock_entries.len()
        invariant
            li <= local_state.lock_entries@.len(),
            local_rows@.len() == li,
            forall|m: int|
                0 <= m < li ==> (#[trigger] local_rows@[m]).0@ == lock_key_spec(
                    local_state.lock_entries@[m]@,
                ),
        decreases local_state.lock_entries@.len() - li,
    {
        let e = &local_state.lock_entries[li];
        proof {
            assert(*e == local_state.lock_entries@[li as int]);
        }
        let ghost before = local_rows@;
        local_rows.push((crate::state::lock_key_for(e), crate::state::lock_entry_hash(e)));
        li = li + 1;
        proof {
            assert(forall|m: int| 0 <= m < before.len() ==> #[trigger] local_rows@[m] == before[m]);
        }
    }
    let mut items: Vec<FriendLinkDriftItem> = Vec::new();
    let mut seen: Vec<String> = Vec::new();
    let mut p: usize = 0;
    while p < peer_states.len()
        invariant
            p <= peer_states@.len(),
            forall|l: int, l2: int|
                0 <= l < l2 < local_state.config_files@.len() ==> config_key_spec(
                    (#[trigger] local_state.config_files@[l]).path@,
                ) != config_key_spec((#[trigger] local_state.config_files@[l2]).path@),
            local_rows@.len() == local_state.lock_entries@.len(),
            forall|m: int|
                0 <= m < local_rows@.len() ==> (#[trigger] local_rows@[m]).0@ == lock_key_spec(
                    local_state.lock_entries@[m]@,
                ),
            crate::paths::strs_view_of(trusted@) == crate::session::norm_trusted_spec(
                session.peers@,
                crate::paths::strs_view_of(session.trusted_peer_ids@),
                Seq::empty(),
            ),
            drift_items_sound(session, local_state.lock_entries@, peer_states@, items@),
            dedupe_books(items@, seen@),
            drift_complete(
                session,
                local_state.lock_entries@,
                local_state.config_files@,
                peer_states@,
                items@,
                p as int,
            ),
        decreases peer_states@.len() - p,
    {
        let peer = &peer_states[p];
        proof {
            assert(*peer == peer_states@[p as int]);
        }
        let peer_name = crate::session::peer_display_name(
            session,
            peer.peer_id.as_str(),
            peer.display_name.as_str(),
        );
        let peer_trusted = is_trusted(&trusted, &peer.peer_id);
        // Remote lock entries: added or changed.
        let mut ri: usize = 0;
        while ri < peer.state.lock_entries.len()
            invariant
                p < peer_states@.len(),
                ri <= peer.state.lock_entries@.len(),
                *peer == peer_states@[p as int],
                local_rows@.len() == local_state.lock_entries@.len(),
                forall|m: int|
                    0 <= m < local_rows@.len() ==> (#[trigger] local_rows@[m]).0@ == lock_key_spec(
                        local_state.lock_entries@[m]@,
                    ),
                peer_trusted == crate::session::norm_trusted_spec(
                    session.peers@,
                    crate::paths::strs_view_of(session.trusted_peer_ids@),
                    Seq::empty(),
                ).contains(peer.peer_id@),
                drift_items_sound(session, local_state.lock_entries@, peer_states@, items@),
                dedupe_books(items@, seen@),
                drift_complete(
                    session,
                    local_state.lock_entries@,
                    local_state.config_files@,
                    peer_states@,
                    items@,
                    p as int,
                ),
                peer_lock_adds_done(
                    session,
                    local_state.lock_entries@,
                    peer_states@[p as int],
                    items@,
                    ri as int,
                ),
            decreases peer.state.lock_entries@.len() - ri,
        {
            let e = &peer.state.lock_entries[ri];
            proof {
                assert(*e == peer_states@[p as int].state.lock_entries@[ri as int]);
            }
            let ghost items0 = items@;
            let admitted = crate::session::lock_entry_sync_enabled(session, e);
            if admitted {
                let key = crate::state::lock_key_for(e);
                let rhash = crate::state::lock_entry_hash(e);
                let local = lookup_pair(&local_rows, &key);
                proof {
                    match local {
                        Option::Some(_) => {
                            assert(local_lock_has_key(local_state.lock_entries@, key@)) by {
                                let w = choose|w: int|
                                    0 <= w < local_rows@.len() && (#[trigger] local_rows@[w]).0@
                                        == key@;
                                assert(lock_key_spec(local_state.lock_entries@[w]@) == key@);
                            }
                        },
                        Option::None => {
                            if local_lock_has_key(local_state.lock_entries@, key@) {
                                let w = choose|w: int|
                                    0 <= w < local_state.lock_entries@.len() && lock_key_spec(
                                        (#[trigger] local_state.lock_entries@[w])@,
                                    ) == key@;
                                assert(local_rows@[w].0@ == key@);
                                assert(false);
                            }
                        },
                    }
                }
                let change: Option<&str> = match local {
                    Option::Some(lh) => {
                        if crate::text::str_eq(lh, &rhash) {
                            Option::None
                        } else {
                            Option::Some("changed")
                        }
                    },
                    Option::None => Option::Some("added"),
                };
                match change {
                    Option::Some(ch) => {
                        push_unique_item(
                            &mut items,
                            &mut seen,
                            &peer.peer_id,
                            &key,
                            ch,
                            &peer_name,
                            "lock_entry",
                            Option::None,
                            Option::Some(crate::paths::preview_for_lock_entry(e)),
                            peer_trusted,
                        );
                        proof {
                            if items@.len() > items0.len() {
                                let it = items@.last();
                                assert(lock_item_witness(
                                    session,
                                    local_state.lock_entries@,
                                    peer_states@,
                                    it.key@,
                                )) by {
                                    assert(lock_key_spec(
                                        (#[trigger] peer_states@[p as int].state.lock_entries@[
                                            ri as int
                                        ])@,
                                    ) == key@);
                                    assert(sync_enabled_spec(
                                        session,
                                        peer_states@[p as int].state.lock_entries@[
                                            ri as int
                                        ].content_type@,
                                    ));
                                }
                            }
                            lemma_sound_push(
                                session,
                                local_state.lock_entries@,
                                peer_states@,
                                items0,
                                items@,
                            );
                        }
                    },
                    Option::None => {},
                }
                proof {
                    if !local_lock_has_key(local_state.lock_entries@, key@) {
                        // The lookup found nothing, so the addition was
                        // recorded.
                        assert(has_dedupe(items@, dedupe_of(peer.peer_id@, key@, "added"@)));
                    }
                }
            }
            proof {
                lemma_done_mono(
                    session,
                    local_state.lock_entries@,
                    local_state.config_files@,
                    peer_states@,
                    peer_states@[p as int],
                    items0,
                    items@,
                    ri as int,
                    0,
                    0,
                    p as int,
                );
                lemma_adds_step(
                    session,
                    local_state.lock_entries@,
                    peer_states@[p as int],
                    items@,
                    ri as int,
                );
            }
            ri = ri + 1;
        }
        // Removed lock entries: only meaningful against a single peer.
        if peer_states.len() == 1 {
            let mut si: usize = 0;
            while si < local_state.lock_entries.len()
                invariant
                    p < peer_states@.len(),
                    si <= local_state.lock_entries@.len(),
                    *peer == peer_states@[p as int],
                    peer_trusted == crate::session::norm_trusted_spec(
                        session.peers@,
                        crate::paths::strs_view_of(session.trusted_peer_ids@),
                        Seq::empty(),
                    ).contains(peer.peer_id@),
                    drift_items_sound(session, local_state.lock_entries@, peer_states@, items@),
                    dedupe_books(items@, seen@),
                    drift_complete(
                        session,
                        local_state.lock_entries@,
                        local_state.config_files@,
                        peer_states@,
                        items@,
                        p as int,
                    ),
                    peer_lock_adds_done(
                        session,
                        local_state.lock_entries@,
                        peer_states@[p as int],
                        items@,
                        peer_states@[p as int].state.lock_entries@.len() as int,
                    ),
                    peer_removed_done(
                        session,
                        local_state.lock_entries@,
                        peer_states@[p as int],
                        items@,
                        si as int,
                    ),
                decreases local_state.lock_entries@.len() - si,
            {
                let e = &local_state.lock_entries[si];
                proof {
                    assert(*e == local_state.lock_entries@[si as int]);
                }
                let ghost items0 = items@;
                let admitted = crate::session::lock_entry_sync_enabled(session, e);
                if admitted {
                    let key = crate::state::lock_key_for(e);
                    let mut absent_remotely = true;
                    let mut rj: usize = 0;
                    while rj < peer.state.lock_entries.len()
                        invariant
                            p < peer_states@.len(),
                            rj <= peer.state.lock_entries@.len(),
                            *peer == peer_states@[p as int],
                            si < local_state.lock_entries@.len(),
                            key@ == lock_key_spec(local_state.lock_entries@[si as int]@),
                            absent_remotely ==> forall|l: int|
                                0 <= l < rj ==> lock_key_spec(
                                    (#[trigger] peer_states@[p as int].state.lock_entries@[l])@,
                                ) != key@,
                            !absent_remotely ==> peer_lock_has_key(
                                peer_states@[p as int].state.lock_entries@,
                                key@,
                            ),
                        decreases peer.state.lock_entries@.len() - rj,
                    {
                        let re = &peer.state.lock_entries[rj];
                        proof {
                            assert(*re == peer_states@[p as int].state.lock_entries@[rj as int]);
                        }
                        let rkey = crate::state::lock_key_for(re);
                        if crate::text::str_eq(&rkey, &key) {
                            absent_remotely = false;
                            proof {
                                assert(peer_lock_has_key(
                                    peer_states@[p as int].state.lock_entries@,
                                    key@,
                                )) by {
                                    assert(lock_key_spec(
                                        (#[trigger] peer_states@[p as int].state.lock_entries@[
                                            rj as int
                                        ])@,
                                    ) == key@);
                                }
                            }
                        }
                        rj = rj + 1;
                    }
                    if absent_remotely {
                        proof {
                            if peer_lock_has_key(
                                peer_states@[p as int].state.lock_entries@,
                                key@,
                            ) {
                                let w = choose|w: int|
                                    0 <= w < peer_states@[p as int].state.lock_entries@.len()
                                        && lock_key_spec(
                                        (#[trigger] peer_states@[p as int].state.lock_entries@[w])@,
                                    ) == key@;
                                assert(false);
                            }
                        }
                        push_unique_item(
                            &mut items,
                            &mut seen,
                            &peer.peer_id,
                            &key,
                            "removed",
                            &peer_name,
                            "lock_entry",
                            Option::Some(crate::paths::preview_for_lock_entry(e)),
                            Option::None,
                            peer_trusted,
                        );
                        proof {
                            if items@.len() > items0.len() {
                                let it = items@.last();
                                assert(lock_item_witness(
                                    session,
                                    local_state.lock_entries@,
                                    peer_states@,
                                    it.key@,
                                )) by {
                                    assert(lock_key_spec(
                                        (#[trigger] local_state.lock_entries@[si as int])@,
                                    ) == key@);
                                    assert(sync_enabled_spec(
                                        session,
                                        local_state.lock_entries@[si as int].content_type@,
                                    ));
                                }
                            }
                            lemma_sound_push(
                                session,
                                local_state.lock_entries@,
                                peer_states@,
                                items0,
                                items@,
                            );
                        }
                    }
                }
                proof {
                    lemma_done_mono(
                        session,
                        local_state.lock_entries@,
                        local_state.config_files@,
                        peer_states@,
                        peer_states@[p as int],
                        items0,
                        items@,
                        peer_states@[p as int].state.lock_entries@.len() as int,
                        0,
                        si as int,
                        p as int,
                    );
                    lemma_removed_step(
                        session,
                        local_state.lock_entries@,
                        peer_states@[p as int],
                        items@,
                        si as int,
                    );
                }
                si = si + 1;
            }
        }
        // Remote config files: added or changed.
        let ghost removed_upto: int = if peer_states@.len() == 1 {
            local_state.lock_entries@.len() as int
        } else {
            0
        };
        let mut ci: usize = 0;
        while ci < peer.state.config_files.len()
            invariant
                p < peer_states@.len(),
                ci <= peer.state.config_files@.len(),
                *peer == peer_states@[p as int],
                removed_upto == (if peer_states@.len() == 1 {
                    local_state.lock_entries@.len() as int
                } else {
                    0
                }),
                forall|l: int, l2: int|
                    0 <= l < l2 < local_state.config_files@.len() ==> config_key_spec(
                        (#[trigger] local_state.config_files@[l]).path@,
                    ) != config_key_spec((#[trigger] local_state.config_files@[l2]).path@),
                peer_trusted == crate::session::norm_trusted_spec(
                    session.peers@,
                    crate::paths::strs_view_of(session.trusted_peer_ids@),
                    Seq::empty(),
                ).contains(peer.peer_id@),
                drift_items_sound(session, local_state.lock_entries@, peer_states@, items@),
                dedupe_books(items@, seen@),
                drift_complete(
                    session,
                    local_state.lock_entries@,
                    local_state.config_files@,
                    peer_states@,
                    items@,
                    p as int,
                ),
                peer_lock_adds_done(
                    session,
                    local_state.lock_entries@,
                    peer_states@[p as int],
                    items@,
                    peer_states@[p as int].state.lock_entries@.len() as int,
                ),
                peer_removed_done(
                    session,
                    local_state.lock_entries@,
                    peer_states@[p as int],
                    items@,
                    removed_upto,
                ),
                peer_config_done(
                    local_state.config_files@,
                    peer_states@[p as int],
                    items@,
                    ci as int,
                ),
            decreases peer.state.config_files@.len() - ci,
        {
            let f = &peer.state.config_files[ci];
            proof {
                assert(*f == peer_states@[p as int].state.config_files@[ci as int]);
            }
            let ghost items0 = items@;
            let key = crate::state::config_key_for(f.path.as_str());
            let mut local_hash: Option<&String> = Option::None;
            let ghost mut local_idx: int = 0;
            let mut lj: usize = 0;
            while lj < local_state.config_files.len()
                invariant
                    lj <= local_state.config_files@.len(),
                    ci < peer.state.config_files@.len(),
                    *peer == peer_states@[p as int],
                    key@ == config_key_spec(
                        peer_states@[p as int].state.config_files@[ci as int].path@,
                    ),
                    match local_hash {
                        Option::Some(h) => 0 <= local_idx < local_state.config_files@.len()
                            && config_key_spec(local_state.config_files@[local_idx].path@) == key@
                            && local_state.config_files@[local_idx].hash@ == h@,
                        Option::None => forall|l: int|
                            0 <= l < lj ==> config_key_spec(
                                (#[trigger] local_state.config_files@[l]).path@,
                            ) != key@,
                    },
                decreases local_state.config_files@.len() - lj,
            {
                let lf = &local_state.config_files[lj];
                proof {
                    assert(*lf == local_state.config_files@[lj as int]);
                }
                let lkey = crate::state::config_key_for(lf.path.as_str());
                if crate::text::str_eq(&lkey, &key) {
                    local_hash = Option::Some(&lf.hash);
                    proof {
                        local_idx = lj as int;
                    }
                }
                lj = lj + 1;
            }
            let change: Option<&str> = match local_hash {
                Option::Some(lh) => {
                    if crate::text::str_eq(lh, &f.hash) {
                        Option::None
                    } else {
                        Option::Some("changed")
                    }
                },
                Option::None => Option::Some("added"),
            };
            proof {
                lemma_config_expected(
                    local_state.config_files@,
                    peer_states@[p as int].state.config_files@[ci as int],
                    match local_hash {
                        Option::Some(_) => Option::Some(local_idx),
                        Option::None => Option::None,
                    },
                    match change {
                        Option::Some(ch) => Option::Some(ch@),
                        Option::None => Option::None,
                    },
                );
            }
            match change {
                Option::Some(ch) => {
                    push_unique_item(
                        &mut items,
                        &mut seen,
                        &peer.peer_id,
                        &key,
                        ch,
                        &peer_name,
                        "config_file",
                        Option::None,
                        Option::Some(crate::paths::preview_for_config_file(f)),
                        peer_trusted,
                    );
                    proof {
                        proof_config_kind_not_lock();
                        lemma_sound_push(
                            session,
                            local_state.lock_entries@,
                            peer_states@,
                            items0,
                            items@,
                        );
                    }
                },
                Option::None => {},
            }
            proof {
                lemma_done_mono(
                    session,
                    local_state.lock_entries@,
                    local_state.config_files@,
                    peer_states@,
                    peer_states@[p as int],
                    items0,
                    items@,
                    peer_states@[p as int].state.lock_entries@.len() as int,
                    ci as int,
                    removed_upto,
                    p as int,
                );
                lemma_config_step(
                    local_state.config_files@,
                    peer_states@[p as int],
                    items@,
                    ci as int,
                );
            }
            ci = ci + 1;
        }
        proof {
            lemma_peer_done(
                session,
                local_state.lock_entries@,
                local_state.config_files@,
                peer_states@,
                items@,
                p as int,
            );
        }
        p = p + 1;
    }
    let total = items.len();
    let (added2, removed2, changed2) = recount(&items);
    let mut untrusted = false;
    let mut u: usize = 0;
    while u < items.len()
        invariant
            u <= items@.len(),
            untrusted <==> exists|i: int| 0 <= i < u && !(#[trigger] items@[i]).trusted_peer,
        decreases items@.len() - u,
    {
        if !items[u].trusted_peer {
            untrusted = true;
            proof {
                assert(!items@[u as int].trusted_peer);
            }
        }
        u = u + 1;
    }
    let status = drift_status(
        session.pending_conflicts.len(),
        session.peers.len(),
        online_peers,
        total,
    );
    FriendLinkDriftPreview {
        instance_id: crate::state::lit_string(instance_id),
        status,
        added: added2,
        removed: removed2,
        changed: changed2,
        total_changes: total,
        items,
        online_peers,
        peer_count: session.peers.len(),
        has_untrusted_changes: untrusted,
    }
}

/// A fact the config-item branch relies on: the two item kinds differ.
proof fn proof_config_kind_not_lock()
    ensures
        "config_file"@ != "lock_entry"@,
{
    reveal_strlit("config_file");
    reveal_strlit("lock_entry");
    assert("config_file"@.len() == 11);
    assert("lock_entry"@.len() == 10);
}

/// Count each item once: added, removed, or everything else as changed.
fn recount(items: &Vec<FriendLinkDriftItem>) -> (r: (usize, usize, usize))
    ensures
        r.0 == count_change(items@, "added"@),
        r.1 == count_change(items@, "removed"@),
        r.0 + r.1 + r.2 == items@.len(),
{
    let mut added: usize = 0;
    let mut removed: usize = 0;
    let mut changed: usize = 0;
    let mut k: usize = 0;
    while k < items.len()
        invariant
            k <= items@.len(),
            added == count_change(items@.subrange(0, k as int), "added"@),
            removed == count_change(items@.subrange(0, k as int), "removed"@),
            added + removed + changed == k,
        decreases items@.len() - k,
    {
        let it = &items[k];
        proof {
            assert(*it == items@[k as int]);
            let pre = items@.subrange(0, k as int);
            let post = items@.subrange(0, k as int + 1);
            assert(post.drop_last() =~= pre);
            assert(post.last() == items@[k as int]);
            reveal_strlit("added");
            reveal_strlit("removed");
            assert("added"@.len() == 5);
            assert("removed"@.len() == 7);
        }
        if crate::state::str_eq_lit(&it.change, "added") {
            added = added + 1;
        } else if crate::state::str_eq_lit(&it.change, "removed") {
            removed = removed + 1;
        } else {
            changed = changed + 1;
        }
        k = k + 1;
    }
    proof {
        assert(items@.subrange(0, items@.len() as int) =~= items@);
    }
    (added, removed, changed)
}

/// Whether the peer id is in the trusted list.
fn is_trusted(trusted: &Vec<String>, peer_id: &String) -> (r: bool)
    ensures
        r == crate::paths::strs_view_of(trusted@).contains(peer_id@),
{
    let mut i: usize = 0;
    while i < trusted.len()
        invariant
            i <= trusted@.len(),
            forall|m: int|
                0 <= m < i ==> #[trigger] crate::paths::strs_view_of(trusted@)[m] != peer_id@,
        decreases trusted@.len() - i,
    {
        proof {
            assert(crate::paths::strs_view_of(trusted@)[i as int] == trusted@[i as int]@);
        }
        if crate::text::str_eq(&trusted[i], peer_id) {
            proof {
                assert(crate::paths::strs_view_of(trusted@).contains(peer_id@)) by {
                    assert(crate::paths::strs_view_of(trusted@)[i as int] == peer_id@);
                }
            }
            return true;
        }
        i = i + 1;
    }
    proof {
        if crate::paths::strs_view_of(trusted@).contains(peer_id@) {
            let w = choose|w: int|
                0 <= w < crate::paths::strs_view_of(trusted@).len()
                    && crate::paths::strs_view_of(trusted@)[w] == peer_id@;
            assert(false);
        }
    }
    false
}

/// Whether a string list holds `s`.
fn contains_string(v: &Vec<String>, s: &String) -> (r: bool)
    ensures
        r == crate::paths::strs_view_of(v@).contains(s@),
{
    let mut i: usize = 0;
    while i < v.len()
        invariant
            i <= v@.len(),
            forall|m: int| 0 <= m < i ==> #[trigger] crate::paths::strs_view_of(v@)[m] != s@,
        decreases v@.len() - i,
    {
        proof {
            assert(crate::paths::strs_view_of(v@)[i as int] == v@[i as int]@);
        }
        if crate::text::str_eq(&v[i], s) {
            proof {
                assert(crate::paths::strs_view_of(v@).contains(s@)) by {
                    assert(crate::paths::strs_view_of(v@)[i as int] == s@);
                }
            }
            return true;
        }
        i = i + 1;
    }
    proof {
        if crate::paths::strs_view_of(v@).contains(s@) {
            let w = choose|w: int|
                0 <= w < crate::paths::strs_view_of(v@).len() && crate::paths::strs_view_of(
                    v@,
                )[w] == s@;
            assert(false);
        }
    }
    false
}

/// Look up the second element of a key/value pair list.
fn lookup_pair<'a>(rows: &'a Vec<(String, String)>, key: &String) -> (r: Option<&'a String>)
    ensures
        match r {
            Option::Some(h) => exists|i: int|
                0 <= i < rows@.len() && (#[trigger] rows@[i]).0@ == key@ && rows@[i].1@ == h@,
            Option::None => forall|i: int|
                0 <= i < rows@.len() ==> (#[trigger] rows@[i]).0@ != key@,
        },
{
    let mut i: usize = 0;
    while i < rows.len()
        invariant
            i <= rows@.len(),
            forall|m: int| 0 <= m < i ==> (#[trigger] rows@[m]).0@ != key@,
        decreases rows@.len() - i,
    {
        if crate::text::str_eq(&rows[i].0, key) {
            let h = &rows[i].1;
            proof {
                assert(rows@[i as int].0@ == key@ && rows@[i as int].1@ == h@);
            }
            return Option::Some(h);
        }
        i = i + 1;
    }
    Option::None
}

/// The dedupe key of an observed item.
fn dedupe_key(peer_id: &String, key: &String, change: &str) -> (r: String)
    ensures
        r@ == peer_id@ + "::"@ + key@ + "::"@ + change@,
{
    let mut out: Vec<char> = Vec::new();
    crate::text::push_str_chars(&mut out, peer_id.as_str());
    crate::text::push_str_chars(&mut out, "::");
    crate::text::push_str_chars(&mut out, key.as_str());
    crate::text::push_str_chars(&mut out, "::");
    crate::text::push_str_chars(&mut out, change);
    proof {
        assert(out@ =~= peer_id@ + "::"@ + key@ + "::"@ + change@);
    }
    crate::text::string_from_chars(&out)
}

/// A fresh drift item identifier.
fn make_drift_id() -> (r: String)
    ensures
        crate::text::has_prefix(r@, "drift_"@),
{
    let mut out: Vec<char> = Vec::new();
    crate::text::push_str_chars(&mut out, "drift_");
    let u = crate::trusted::fresh_uuid();
    crate::text::push_str_chars(&mut out, u.as_str());
    proof {
        assert(out@.subrange(0, "drift_"@.len() as int) =~= "drift_"@);
    }
    crate::text::string_from_chars(&out)
}

/// Whether an item's key was requested; an empty request selects all.
pub open spec fn item_selected(key: Seq<char>, keys: Seq<Seq<char>>) -> bool {
    keys.len() == 0 || keys.contains(key)
}

/// Keep exactly the indices of preview items whose key was requested, in
/// order; an empty request selects everything.
#[verifier::loop_isolation(false)]
pub fn filter_selected_indices(items: &Vec<FriendLinkDriftItem>, keys: &Vec<String>) -> (r: Vec<
    usize,
>)
    ensures
        forall|m: int, m2: int| 0 <= m < m2 < r@.len() ==> (#[trigger] r@[m]) < (#[trigger] r@[m2]),
        forall|m: int|
            0 <= m < r@.len() ==> (#[trigger] r@[m]) < items@.len() && item_selected(
                items@[r@[m] as int].key@,
                crate::paths::strs_view_of(keys@),
            ),
        forall|i: int|
            0 <= i < items@.len() && item_selected(
                (#[trigger] items@[i]).key@,
                crate::paths::strs_view_of(keys@),
            ) ==> exists|m: int| 0 <= m < r@.len() && (#[trigger] r@[m]) == i,
{
    let mut out: Vec<usize> = Vec::new();
    let use_all = keys.len() == 0;
    let mut i: usize = 0;
    while i < items.len()
        invariant
            i <= items@.len(),
            use_all == (crate::paths::strs_view_of(keys@).len() == 0),
            forall|m: int, m2: int|
                0 <= m < m2 < out@.len() ==> (#[trigger] out@[m]) < (#[trigger] out@[m2]),
            forall|m: int| 0 <= m < out@.len() ==> (#[trigger] out@[m]) < i,
            forall|m: int|
                0 <= m < out@.len() ==> (#[trigger] out@[m]) < items@.len() && item_selected(
                    items@[out@[m] as int].key@,
                    crate::paths::strs_view_of(keys@),
                ),
            forall|j: int|
                0 <= j < i && item_selected(
                    (#[trigger] items@[j]).key@,
                    crate::paths::strs_view_of(keys@),
                ) ==> exists|m: int| 0 <= m < out@.len() && (#[trigger] out@[m]) == j,
        decreases items@.len() - i,
    {
        let wanted = if use_all {
            true
        } else {
            contains_string(keys, &items[i].key)
        };
        proof {
            assert(wanted == item_selected(items@[i as int].key@, crate::paths::strs_view_of(
                keys@,
            )));
        }
        if wanted {
            let ghost before = out@;
            out.push(i);
            proof {
                assert(forall|m: int| 0 <= m < before.len() ==> out@[m] == #[trigger] before[m]);
                assert(out@[out@.len() - 1] == i as int);
                assert forall|j: int|
                    0 <= j < i + 1 && item_selected(
                        (#[trigger] items@[j]).key@,
                        crate::paths::strs_view_of(keys@),
                    ) implies exists|m: int| 0 <= m < out@.len() && (#[trigger] out@[m]) == j by {
                    if j < i {
                        let m = choose|m: int|
                            0 <= m < before.len() && (#[trigger] before[m]) == j;
                        assert(out@[m] == j);
                    } else {
                        assert(out@[out@.len() - 1] == j);
                    }
                }
            }
        }
        i = i + 1;
    }
    out
}

/// The outcome status of a selective sync: binary failures first, then
/// untrusted skips, then a pending remainder, else synced.
pub open spec fn selective_status_spec(
    binary_failures: nat,
    skipped_untrusted: nat,
    remaining: nat,
) -> Seq<char> {
    if binary_failures > 0 {
        "degraded_missing_files"@
    } else if skipped_untrusted > 0 {
        "blocked_untrusted"@
    } else if remaining > 0 {
        "partial_pending"@
    } else {
        "synced"@
    }
}

/// Derive a selective sync's status.
pub fn selective_status(binary_failures: usize, skipped_untrusted: usize, remaining: usize) -> (r:
    String)
    ensures
        r@ == selective_status_spec(
            binary_failures as nat,
            skipped_untrusted as nat,
            remaining as nat,
        ),
{
    if binary_failures > 0 {
        crate::state::lit_string("degraded_missing_files")
    } else if skipped_untrusted > 0 {
        crate::state::lit_string("blocked_untrusted")
    } else if remaining > 0 {
        crate::state::lit_string("partial_pending")
    } else {
        crate::state::lit_string("synced")
    }
}


/// Remove the first lock entry carrying the key, if any.
pub open spec fn remove_lock_views(
    views: Seq<crate::state::LockEntryView>,
    key: Seq<char>,
) -> Seq<crate::state::LockEntryView> {
    let i = crate::reconcile::first_lock_key_from(views, key, 0);
    if i >= 0 {
        views.remove(i)
    } else {
        views
    }
}

/// Remove the first config file carrying the key, if any.
pub open spec fn remove_config_views(
    views: Seq<crate::state::ConfigFileView>,
    key: Seq<char>,
) -> Seq<crate::state::ConfigFileView> {
    let i = crate::reconcile::first_config_key_from(views, key, 0);
    if i >= 0 {
        views.remove(i)
    } else {
        views
    }
}

/// The last snapshot carrying the peer id, scanning the first `upto`;
/// negative when none does.
pub open spec fn last_peer_index(peers: Seq<PeerStateSnapshot>, id: Seq<char>, upto: int) -> int
    decreases upto,
{
    if upto <= 0 {
        -1
    } else if peers[upto - 1].peer_id@ == id {
        upto - 1
    } else {
        last_peer_index(peers, id, upto - 1)
    }
}

/// Whether a preview item is applied by a selective sync: its key was
/// requested (an empty request selects all) and its peer is trusted.
pub open spec fn sel_active(item: FriendLinkDriftItem, keys: Seq<Seq<char>>) -> bool {
    item_selected(item.key@, keys) && item.trusted_peer
}

/// The lock and config views after one applied item: a removal deletes the
/// first value of the key, anything else upserts the item's peer's value of
/// the key, when that peer holds one.
pub open spec fn sel_step(
    item: FriendLinkDriftItem,
    peers: Seq<PeerStateSnapshot>,
    lv: Seq<crate::state::LockEntryView>,
    cv: Seq<crate::state::ConfigFileView>,
) -> (Seq<crate::state::LockEntryView>, Seq<crate::state::ConfigFileView>) {
    if item.kind@ == "lock_entry"@ {
        if item.change@ == "removed"@ {
            (remove_lock_views(lv, item.key@), cv)
        } else {
            let p = last_peer_index(peers, item.peer_id@, peers.len() as int);
            if p >= 0 {
                let e = crate::state::last_lock_index(
                    peers[p].state.lock_entries@,
                    item.key@,
                    peers[p].state.lock_entries@.len() as int,
                );
                if e >= 0 {
                    (
                        crate::reconcile::upsert_lock_views(
                            lv,
                            item.key@,
                            peers[p].state.lock_entries@[e]@,
                        ),
                        cv,
                    )
                } else {
                    (lv, cv)
                }
            } else {
                (lv, cv)
            }
        }
    } else if item.kind@ == "config_file"@ {
        if item.change@ == "removed"@ {
            (lv, remove_config_views(cv, item.key@))
        } else {
            let p = last_peer_index(peers, item.peer_id@, peers.len() as int);
            if p >= 0 {
                let f = crate::state::last_config_index(
                    peers[p].state.config_files@,
                    item.key@,
                    peers[p].state.config_files@.len() as int,
                );
                if f >= 0 {
                    (
                        lv,
                        crate::reconcile::upsert_config_views(
                            cv,
                            item.key@,
                            peers[p].state.config_files@[f]@,
                        ),
                    )
                } else {
                    (lv, cv)
                }
            } else {
                (lv, cv)
            }
        }
    } else {
        (lv, cv)
    }
}

/// The lock and config views after a whole selective sync, folding the
/// preview items from one index on.
pub open spec fn sel_fold(
    items: Seq<FriendLinkDriftItem>,
    keys: Seq<Seq<char>>,
    peers: Seq<PeerStateSnapshot>,
    lv: Seq<crate::state::LockEntryView>,
    cv: Seq<crate::state::ConfigFileView>,
    from: int,
) -> (Seq<crate::state::LockEntryView>, Seq<crate::state::ConfigFileView>)
    decreases items.len() - from,
    when 0 <= from <= items.len()
{
    if from >= items.len() {
        (lv, cv)
    } else {
        let nxt = if sel_active(items[from], keys) {
            sel_step(items[from], peers, lv, cv)
        } else {
            (lv, cv)
        };
        sel_fold(items, keys, peers, nxt.0, nxt.1, from + 1)
    }
}

/// How many requested items an untrusted peer blocked, from one index on.
pub open spec fn sel_skipped(
    items: Seq<FriendLinkDriftItem>,
    keys: Seq<Seq<char>>,
    from: int,
) -> nat
    decreases items.len() - from,
    when 0 <= from <= items.len()
{
    if from >= items.len() {
        0
    } else {
        (if item_selected(items[from].key@, keys) && !items[from].trusted_peer {
            1nat
        } else {
            0nat
        }) + sel_skipped(items, keys, from + 1)
    }
}

/// Whether some applied item carries the key.
pub open spec fn any_active_with_key(
    items: Seq<FriendLinkDriftItem>,
    keys: Seq<Seq<char>>,
    key: Seq<char>,
) -> bool {
    exists|j: int|
        0 <= j < items.len() && sel_active(#[trigger] items[j], keys) && items[j].key@ == key
}

/// How many preview items no applied item's key covers, from one index on.
pub open spec fn sel_remaining(
    items: Seq<FriendLinkDriftItem>,
    keys: Seq<Seq<char>>,
    from: int,
) -> nat
    decreases items.len() - from,
    when 0 <= from <= items.len()
{
    if from >= items.len() {
        0
    } else {
        (if any_active_with_key(items, keys, items[from].key@) {
            0nat
        } else {
            1nat
        }) + sel_remaining(items, keys, from + 1)
    }
}

/// What a selective sync reports back.
pub struct SelectiveOutcome {
    pub skipped_untrusted: usize,
    pub remaining: usize,
    pub fully_covered: bool,
}

/// Remove the first lock entry carrying the key, if any.
fn remove_first_lock(lock: &mut Vec<CanonicalLockEntry>, key: &String)
    ensures
        crate::state::entries_view(final(lock)@) == remove_lock_views(
            crate::state::entries_view(old(lock)@),
            key@,
        ),
{
    let ghost views0 = crate::state::entries_view(lock@);
    let mut i: usize = 0;
    while i < lock.len()
        invariant
            i <= lock@.len(),
            lock@ == old(lock)@,
            views0 == crate::state::entries_view(lock@),
            crate::reconcile::first_lock_key_from(views0, key@, 0)
                == crate::reconcile::first_lock_key_from(views0, key@, i as int),
        decreases lock@.len() - i,
    {
        let le = &lock[i];
        proof {
            assert(*le == lock@[i as int]);
            assert(views0[i as int] == lock@[i as int]@);
        }
        let lkey = crate::state::lock_key_for(le);
        if crate::text::str_eq(&lkey, key) {
            proof {
                assert(crate::reconcile::first_lock_key_from(views0, key@, i as int) == i as int);
            }
            let _ = lock.remove(i);
            proof {
                assert(crate::state::entries_view(lock@) =~= views0.remove(i as int)) by {
                    assert forall|j: int| 0 <= j < lock@.len() implies crate::state::entries_view(
                        lock@,
                    )[j] == views0.remove(i as int)[j] by {
                        if j < i as int {
                            assert(lock@[j]@ == views0[j]);
                        } else {
                            assert(lock@[j]@ == views0[j + 1]);
                        }
                    }
                }
            }
            return;
        }
        i = i + 1;
    }
    proof {
        assert(crate::reconcile::first_lock_key_from(views0, key@, lock@.len() as int) == -1);
    }
}

/// Remove the first config file carrying the key, if any.
fn remove_first_config(configs: &mut Vec<ConfigFileState>, key: &String)
    ensures
        crate::state::configs_view(final(configs)@) == remove_config_views(
            crate::state::configs_view(old(configs)@),
            key@,
        ),
{
    let ghost views0 = crate::state::configs_view(configs@);
    let mut i: usize = 0;
    while i < configs.len()
        invariant
            i <= configs@.len(),
            configs@ == old(configs)@,
            views0 == crate::state::configs_view(configs@),
            crate::reconcile::first_config_key_from(views0, key@, 0)
                == crate::reconcile::first_config_key_from(views0, key@, i as int),
        decreases configs@.len() - i,
    {
        let cf = &configs[i];
        proof {
            assert(*cf == configs@[i as int]);
            assert(views0[i as int] == configs@[i as int]@);
        }
        let ckey = crate::state::config_key_for(cf.path.as_str());
        if crate::text::str_eq(&ckey, key) {
            proof {
                assert(crate::reconcile::first_config_key_from(views0, key@, i as int)
                    == i as int);
            }
            let _ = configs.remove(i);
            proof {
                assert(crate::state::configs_view(configs@) =~= views0.remove(i as int)) by {
                    assert forall|j: int| 0 <= j < configs@.len() implies crate::state::configs_view(
                        configs@,
                    )[j] == views0.remove(i as int)[j] by {
                        if j < i as int {
                            assert(configs@[j]@ == views0[j]);
                        } else {
                            assert(configs@[j]@ == views0[j + 1]);
                        }
                    }
                }
            }
            return;
        }
        i = i + 1;
    }
    proof {
        assert(crate::reconcile::first_config_key_from(views0, key@, configs@.len() as int) == -1);
    }
}

/// Apply the requested preview items, in order: an item is applied when its
/// key was requested (an empty request selects everything) and its peer is
/// trusted; a `removed` item deletes the local value of its key, any other
/// change takes the peer's value; a requested item from an untrusted peer
/// is skipped and counted. `remaining` counts the preview items no applied
/// item's key covers; the outcome is fully covered when nothing was skipped
/// and nothing remains, which is what makes the result eligible as a
/// last-good snapshot.
#[verifier::rlimit(100)]
pub fn apply_selected_items(
    items: &Vec<FriendLinkDriftItem>,
    keys: &Vec<String>,
    peer_states: &Vec<PeerStateSnapshot>,
    lock: &mut Vec<CanonicalLockEntry>,
    configs: &mut Vec<ConfigFileState>,
) -> (r: SelectiveOutcome)
    ensures
        (
            crate::state::entries_view(final(lock)@),
            crate::state::configs_view(final(configs)@),
        ) == sel_fold(
            items@,
            crate::paths::strs_view_of(keys@),
            peer_states@,
            crate::state::entries_view(old(lock)@),
            crate::state::configs_view(old(configs)@),
            0,
        ),
        r.skipped_untrusted == sel_skipped(items@, crate::paths::strs_view_of(keys@), 0),
        r.remaining == sel_remaining(items@, crate::paths::strs_view_of(keys@), 0),
        r.fully_covered == (r.skipped_untrusted == 0 && r.remaining == 0),
{
    let ghost kv = crate::paths::strs_view_of(keys@);
    let ghost lock_init = crate::state::entries_view(lock@);
    let ghost cfg_init = crate::state::configs_view(configs@);
    let mut skipped: usize = 0;
    let mut sel_keys: Vec<String> = Vec::new();
    let mut i: usize = 0;
    while i < items.len()
        invariant
            i <= items@.len(),
            kv == crate::paths::strs_view_of(keys@),
            lock_init == crate::state::entries_view(old(lock)@),
            cfg_init == crate::state::configs_view(old(configs)@),
            sel_fold(
                items@,
                kv,
                peer_states@,
                crate::state::entries_view(lock@),
                crate::state::configs_view(configs@),
                i as int,
            ) == sel_fold(items@, kv, peer_states@, lock_init, cfg_init, 0),
            skipped <= i,
            skipped + sel_skipped(items@, kv, i as int) == sel_skipped(items@, kv, 0),
            forall|w: int|
                0 <= w < sel_keys@.len() ==> any_active_with_key(
                    items@,
                    kv,
                    (#[trigger] sel_keys@[w])@,
                ),
            forall|j: int|
                0 <= j < i && sel_active(#[trigger] items@[j], kv)
                    ==> crate::paths::strs_view_of(sel_keys@).contains(items@[j].key@),
        decreases items@.len() - i,
    {
        let it = &items[i];
        proof {
            assert(*it == items@[i as int]);
        }
        let selected = keys.len() == 0 || contains_string(keys, &it.key);
        proof {
            assert(selected == item_selected(items@[i as int].key@, kv));
        }
        if selected {
            if !it.trusted_peer {
                skipped = skipped + 1;
            } else {
                let ghost sk0 = sel_keys@;
                sel_keys.push(crate::state::clone_string(&it.key));
                proof {
                    assert(forall|w: int|
                        0 <= w < sk0.len() ==> #[trigger] sel_keys@[w] == sk0[w]);
                    assert(sel_keys@[sel_keys@.len() - 1]@ == items@[i as int].key@);
                    assert(sel_active(items@[i as int], kv));
                    assert forall|w: int| 0 <= w < sel_keys@.len() implies any_active_with_key(
                        items@,
                        kv,
                        (#[trigger] sel_keys@[w])@,
                    ) by {
                        if w < sk0.len() {
                            assert(any_active_with_key(items@, kv, sk0[w]@));
                            assert(sel_keys@[w] == sk0[w]);
                        } else {
                            assert(sel_active(items@[i as int], kv) && items@[i as int].key@
                                == sel_keys@[w]@);
                        }
                    }
                    assert forall|j: int|
                        0 <= j < i + 1 && sel_active(#[trigger] items@[j], kv) implies
                        crate::paths::strs_view_of(sel_keys@).contains(items@[j].key@) by {
                        if j < i {
                            let w = choose|w: int|
                                0 <= w < sk0.len() && #[trigger] crate::paths::strs_view_of(
                                    sk0,
                                )[w] == items@[j].key@;
                            assert(crate::paths::strs_view_of(sel_keys@)[w] == items@[j].key@);
                        } else {
                            assert(crate::paths::strs_view_of(sel_keys@)[sel_keys@.len() - 1]
                                == items@[j].key@);
                        }
                    }
                }
                // Find the item's peer: the last snapshot of that id wins.
                let mut pfound = false;
                let mut pidx: usize = 0;
                let mut pj: usize = 0;
                while pj < peer_states.len()
                    invariant
                        pj <= peer_states@.len(),
                        i < items@.len(),
                        *it == items@[i as int],
                        pfound ==> pidx < pj && last_peer_index(
                            peer_states@,
                            items@[i as int].peer_id@,
                            pj as int,
                        ) == pidx as int,
                        !pfound ==> last_peer_index(
                            peer_states@,
                            items@[i as int].peer_id@,
                            pj as int,
                        ) == -1,
                    decreases peer_states@.len() - pj,
                {
                    let ps = &peer_states[pj];
                    proof {
                        assert(*ps == peer_states@[pj as int]);
                    }
                    if crate::text::str_eq(&ps.peer_id, &it.peer_id) {
                        pfound = true;
                        pidx = pj;
                    }
                    pj = pj + 1;
                }
                if crate::state::str_eq_lit(&it.kind, "lock_entry") {
                    if crate::state::str_eq_lit(&it.change, "removed") {
                        remove_first_lock(lock, &it.key);
                    } else if pfound {
                        let peer = &peer_states[pidx];
                        proof {
                            assert(*peer == peer_states@[pidx as int]);
                        }
                        // Find the peer's entry of the key: the last wins.
                        let mut efound = false;
                        let mut eidx: usize = 0;
                        let mut ej: usize = 0;
                        while ej < peer.state.lock_entries.len()
                            invariant
                                ej <= peer.state.lock_entries@.len(),
                                i < items@.len(),
                                *it == items@[i as int],
                                pidx < peer_states@.len(),
                                *peer == peer_states@[pidx as int],
                                efound ==> eidx < ej && crate::state::last_lock_index(
                                    peer_states@[pidx as int].state.lock_entries@,
                                    items@[i as int].key@,
                                    ej as int,
                                ) == eidx as int,
                                !efound ==> crate::state::last_lock_index(
                                    peer_states@[pidx as int].state.lock_entries@,
                                    items@[i as int].key@,
                                    ej as int,
                                ) == -1,
                            decreases peer.state.lock_entries@.len() - ej,
                        {
                            let re = &peer.state.lock_entries[ej];
                            proof {
                                assert(*re
                                    == peer_states@[pidx as int].state.lock_entries@[ej as int]);
                            }
                            let rkey = crate::state::lock_key_for(re);
                            if crate::text::str_eq(&rkey, &it.key) {
                                efound = true;
                                eidx = ej;
                            }
                            ej = ej + 1;
                        }
                        if efound {
                            let e = &peer.state.lock_entries[eidx];
                            proof {
                                assert(*e
                                    == peer_states@[pidx as int].state.lock_entries@[eidx as int]);
                            }
                            crate::reconcile::upsert_lock_entry(lock, &it.key, e);
                        }
                    }
                } else if crate::state::str_eq_lit(&it.kind, "config_file") {
                    if crate::state::str_eq_lit(&it.change, "removed") {
                        remove_first_config(configs, &it.key);
                    } else if pfound {
                        let peer = &peer_states[pidx];
                        proof {
                            assert(*peer == peer_states@[pidx as int]);
                        }
                        let mut ffound = false;
                        let mut fidx: usize = 0;
                        let mut fj: usize = 0;
                        while fj < peer.state.config_files.len()
                            invariant
                                fj <= peer.state.config_files@.len(),
                                i < items@.len(),
                                *it == items@[i as int],
                                pidx < peer_states@.len(),
                                *peer == peer_states@[pidx as int],
                                ffound ==> fidx < fj && crate::state::last_config_index(
                                    peer_states@[pidx as int].state.config_files@,
                                    items@[i as int].key@,
                                    fj as int,
                                ) == fidx as int,
                                !ffound ==> crate::state::last_config_index(
                                    peer_states@[pidx as int].state.config_files@,
                                    items@[i as int].key@,
                                    fj as int,
                                ) == -1,
                            decreases peer.state.config_files@.len() - fj,
                        {
                            let rf = &peer.state.config_files[fj];
                            proof {
                                assert(*rf
                                    == peer_states@[pidx as int].state.config_files@[fj as int]);
                            }
                            let rkey = crate::state::config_key_for(rf.path.as_str());
                            if crate::text::str_eq(&rkey, &it.key) {
                                ffound = true;
                                fidx = fj;
                            }
                            fj = fj + 1;
                        }
                        if ffound {
                            let f = &peer.state.config_files[fidx];
                            proof {
                                assert(*f
                                    == peer_states@[pidx as int].state.config_files@[fidx as int]);
                            }
                            crate::reconcile::upsert_config_state(configs, &it.key, f);
                        }
                    }
                }
            }
        }
        i = i + 1;
    }
    // Count the preview items no applied key covers.
    let mut remaining: usize = 0;
    let mut m: usize = 0;
    while m < items.len()
        invariant
            m <= items@.len(),
            kv == crate::paths::strs_view_of(keys@),
            remaining <= m,
            remaining + sel_remaining(items@, kv, m as int) == sel_remaining(items@, kv, 0),
            forall|w: int|
                0 <= w < sel_keys@.len() ==> any_active_with_key(
                    items@,
                    kv,
                    (#[trigger] sel_keys@[w])@,
                ),
            forall|j: int|
                0 <= j < items@.len() && sel_active(#[trigger] items@[j], kv)
                    ==> crate::paths::strs_view_of(sel_keys@).contains(items@[j].key@),
        decreases items@.len() - m,
    {
        let it = &items[m];
        proof {
            assert(*it == items@[m as int]);
        }
        let covered = contains_string(&sel_keys, &it.key);
        proof {
            if covered {
                let w = choose|w: int|
                    0 <= w < crate::paths::strs_view_of(sel_keys@).len()
                        && #[trigger] crate::paths::strs_view_of(sel_keys@)[w]
                        == items@[m as int].key@;
                assert(sel_keys@[w]@ == items@[m as int].key@);
                assert(any_active_with_key(items@, kv, sel_keys@[w]@));
            } else {
                if any_active_with_key(items@, kv, items@[m as int].key@) {
                    let j = choose|j: int|
                        0 <= j < items@.len() && sel_active(#[trigger] items@[j], kv)
                            && items@[j].key@ == items@[m as int].key@;
                    assert(crate::paths::strs_view_of(sel_keys@).contains(items@[j].key@));
                    assert(false);
                }
            }
        }
        if !covered {
            remaining = remaining + 1;
        }
        m = m + 1;
    }
    let fully_covered = skipped == 0 && remaining == 0;
    SelectiveOutcome { skipped_untrusted: skipped, remaining, fully_covered }
}

} // verus!
