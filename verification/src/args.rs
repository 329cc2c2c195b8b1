//! The argument and result shapes of the command surface: plain data the
//! host hands in and receives back.
use vstd::prelude::*;

verus! {

/// Arguments to create a session.
pub struct CreateFriendLinkSessionArgs {
    pub instance_id: String,
    pub display_name: Option<String>,
}

/// Arguments to join a session through an invite.
pub struct JoinFriendLinkSessionArgs {
    pub instance_id: String,
    pub invite_code: String,
    pub display_name: Option<String>,
}

/// Arguments to leave a session.
pub struct LeaveFriendLinkSessionArgs {
    pub instance_id: String,
}

/// Arguments to read a session's status.
pub struct GetFriendLinkStatusArgs {
    pub instance_id: String,
}

/// Arguments to replace the allowlist.
pub struct SetFriendLinkAllowlistArgs {
    pub instance_id: String,
    pub allowlist: Vec<String>,
}

/// Arguments to run a reconcile.
pub struct ReconcileFriendLinkArgs {
    pub instance_id: String,
    pub mode: Option<String>,
}

/// Arguments to resolve pending conflicts.
pub struct ResolveFriendLinkConflictsArgs {
    pub instance_id: String,
    pub resolution: crate::reconcile::ConflictResolutionPayload,
}

/// Arguments to export a debug bundle.
pub struct ExportFriendLinkDebugBundleArgs {
    pub instance_id: String,
}

/// Arguments to preview drift.
pub struct PreviewFriendLinkDriftArgs {
    pub instance_id: String,
}

/// Arguments to apply a selected subset of drift.
pub struct SyncFriendLinkSelectedArgs {
    pub instance_id: String,
    pub keys: Vec<String>,
    pub metadata_only: bool,
}

/// Arguments to set the guardrails.
pub struct SetFriendLinkGuardrailsArgs {
    pub instance_id: String,
    pub trusted_peer_ids: Vec<String>,
    pub max_auto_changes: Option<usize>,
    pub sync_mods: Option<bool>,
    pub sync_resourcepacks: Option<bool>,
    pub sync_shaderpacks: Option<bool>,
    pub sync_datapacks: Option<bool>,
}

/// Arguments to set one peer's alias.
pub struct SetFriendLinkPeerAliasArgs {
    pub instance_id: String,
    pub peer_id: String,
    pub display_name: Option<String>,
}

/// Arguments to list config files.
pub struct ListInstanceConfigFilesArgs {
    pub instance_id: String,
}

/// Arguments to read one config file.
pub struct ReadInstanceConfigFileArgs {
    pub instance_id: String,
    pub path: String,
}

/// Arguments to write one config file.
pub struct WriteInstanceConfigFileArgs {
    pub instance_id: String,
    pub path: String,
    pub content: String,
    pub expected_modified_at: Option<i64>,
}

/// One applied or pending action of a reconcile.
pub struct FriendLinkReconcileAction {
    pub kind: String,
    pub key: String,
    pub peer_id: String,
    pub applied: bool,
    pub message: String,
}

/// The outcome of a reconcile or selective sync.
pub struct FriendLinkReconcileResult {
    pub status: String,
    pub mode: String,
    pub actions_applied: usize,
    pub actions_pending: usize,
    pub actions: Vec<FriendLinkReconcileAction>,
    pub conflicts: Vec<crate::reconcile::FriendSyncConflict>,
    pub warnings: Vec<String>,
    pub blocked_reason: Option<String>,
    pub local_state_hash: String,
    pub last_good_hash: Option<String>,
    pub offline_peers: usize,
}

/// Where an exported debug bundle was written.
pub struct FriendLinkDebugBundleResult {
    pub path: String,
}

/// One listed config file.
pub struct InstanceConfigFileEntry {
    pub path: String,
    pub size_bytes: u64,
    pub modified_at: i64,
    pub editable: bool,
    pub kind: String,
    pub readonly_reason: Option<String>,
}

/// The outcome of reading one config file.
pub struct ReadInstanceConfigFileResult {
    pub path: String,
    pub editable: bool,
    pub kind: String,
    pub size_bytes: u64,
    pub modified_at: i64,
    pub readonly_reason: Option<String>,
    pub content: Option<String>,
    pub preview: Option<String>,
}

/// The outcome of writing one config file.
pub struct WriteInstanceConfigFileResult {
    pub path: String,
    pub size_bytes: u64,
    pub modified_at: i64,
    pub message: String,
}

} // verus!
