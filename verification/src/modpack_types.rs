//! The modpack authoring data model: layered entry specifications, profiles,
//! resolution settings, resolved plans, lock snapshots and drift reports.
use vstd::prelude::*;

verus! {

/// The identity of one entry: provider, project and content type.
pub struct EntryKey {
    pub provider: String,
    pub project_id: String,
    pub content_type: String,
}

/// One requested content item of a layer.
pub struct ModEntry {
    pub provider: String,
    pub project_id: String,
    pub slug: Option<String>,
    pub content_type: String,
    pub required: bool,
    pub pin: Option<String>,
    pub channel_policy: String,
    pub fallback_policy: String,
    pub replacement_group: Option<String>,
    pub notes: Option<String>,
    pub disabled_by_default: bool,
    pub optional: bool,
    pub target_scope: String,
    pub target_worlds: Vec<String>,
    pub local_file_name: Option<String>,
    pub local_file_path: Option<String>,
    pub local_sha512: Option<String>,
    pub local_fingerprints: Vec<u32>,
}

/// What one layer adds, removes and overrides.
pub struct EntriesDelta {
    pub add: Vec<ModEntry>,
    pub remove: Vec<EntryKey>,
    pub override_entries: Vec<ModEntry>,
}

/// Where a layer came from.
pub struct LayerSource {
    pub kind: String,
    pub source: Option<String>,
    pub project_id: Option<String>,
    pub spec_id: Option<String>,
    pub imported_at: Option<String>,
}

/// One layer of a modpack specification.
pub struct Layer {
    pub id: String,
    pub name: String,
    pub source: Option<LayerSource>,
    pub is_frozen: bool,
    pub entries_delta: EntriesDelta,
}

/// One optionality profile.
pub struct Profile {
    pub id: String,
    pub name: String,
    pub optional_entry_states: Vec<(String, bool)>,
}

/// How resolution picks versions.
pub struct ResolutionSettings {
    pub global_fallback_mode: String,
    pub channel_allowance: String,
    pub allow_cross_minor: bool,
    pub allow_cross_major: bool,
    pub prefer_stable: bool,
    pub max_fallback_distance: u32,
    pub dependency_mode: String,
    pub partial_apply_unsafe: bool,
}

impl Default for ResolutionSettings {
    /// The default settings: smart fallback, stable channel, cross-minor
    /// fallback allowed, a distance budget of 3, detect-only dependencies.
    fn default() -> (r: ResolutionSettings)
        ensures
            r.global_fallback_mode@ == "smart"@,
            r.channel_allowance@ == "stable"@,
            r.allow_cross_minor,
            !r.allow_cross_major,
            r.prefer_stable,
            r.max_fallback_distance == 3,
            r.dependency_mode@ == "detect_only"@,
            !r.partial_apply_unsafe,
    {
        ResolutionSettings {
            global_fallback_mode: crate::state::lit_string("smart"),
            channel_allowance: crate::state::lit_string("stable"),
            allow_cross_minor: true,
            allow_cross_major: false,
            prefer_stable: true,
            max_fallback_distance: 3,
            dependency_mode: crate::state::lit_string("detect_only"),
            partial_apply_unsafe: false,
        }
    }
}

/// A whole modpack specification.
pub struct ModpackSpec {
    pub id: String,
    pub name: String,
    pub description: Option<String>,
    pub tags: Vec<String>,
    pub created_at: String,
    pub updated_at: String,
    pub layers: Vec<Layer>,
    pub profiles: Vec<Profile>,
    pub settings: ResolutionSettings,
}

/// The instance a plan was resolved against.
pub struct TargetInstanceSnapshot {
    pub id: String,
    pub name: String,
    pub mc_version: String,
    pub loader: String,
    pub loader_version: Option<String>,
    pub java_version: Option<String>,
}

/// One successfully resolved entry.
pub struct ResolvedMod {
    pub source: String,
    pub content_type: String,
    pub project_id: String,
    pub name: String,
    pub version_id: String,
    pub version_number: String,
    pub filename: String,
    pub download_url: Option<String>,
    pub curseforge_file_id: Option<i64>,
    pub hashes: Vec<(String, String)>,
    pub enabled: bool,
    pub target_worlds: Vec<String>,
    pub rationale_text: String,
    pub added_by_dependency: bool,
    pub required: bool,
}

/// One entry that could not be resolved.
pub struct FailedMod {
    pub source: String,
    pub content_type: String,
    pub project_id: String,
    pub name: String,
    pub reason_code: String,
    pub reason_text: String,
    pub actionable_hint: String,
    pub constraints_snapshot: String,
    pub required: bool,
}

/// One conflict found while resolving.
pub struct ResolutionConflict {
    pub code: String,
    pub message: String,
    pub keys: Vec<String>,
}

/// One entry of a lock snapshot.
pub struct LockSnapshotEntry {
    pub source: String,
    pub content_type: String,
    pub project_id: String,
    pub name: String,
    pub version_id: String,
    pub version_number: String,
    pub enabled: bool,
    pub target_worlds: Vec<String>,
}

/// The lock state recorded after an apply.
pub struct LockSnapshot {
    pub id: String,
    pub instance_id: String,
    pub plan_id: String,
    pub created_at: String,
    pub entries: Vec<LockSnapshotEntry>,
    pub instance_snapshot_id: Option<String>,
}

/// How an instance is linked to a modpack.
pub struct InstanceModpackLinkState {
    pub instance_id: String,
    pub mode: String,
    pub modpack_id: String,
    pub profile_id: Option<String>,
    pub last_plan_id: Option<String>,
    pub last_lock_snapshot_id: Option<String>,
    pub last_applied_at: Option<String>,
    pub last_confidence_label: Option<String>,
}

/// One drifted entry of an instance against its snapshot.
pub struct DriftItem {
    pub source: String,
    pub content_type: String,
    pub project_id: String,
    pub name: String,
    pub expected_version: Option<String>,
    pub current_version: Option<String>,
}

/// The drift of an instance against its lock snapshot.
pub struct DriftReport {
    pub instance_id: String,
    pub status: String,
    pub added: Vec<DriftItem>,
    pub removed: Vec<DriftItem>,
    pub version_changed: Vec<DriftItem>,
    pub created_at: String,
}

/// The difference of a layer against a refreshed template.
pub struct LayerDiffResult {
    pub layer_id: Option<String>,
    pub added: Vec<ModEntry>,
    pub removed: Vec<EntryKey>,
    pub overridden: Vec<ModEntry>,
    pub conflicts: Vec<ResolutionConflict>,
    pub warnings: Vec<String>,
}

/// One preset skipped by migration.
pub struct MigrationSkippedItem {
    pub id: String,
    pub name: String,
    pub reason: String,
}

/// The outcome of a legacy-preset migration.
pub struct MigrationReport {
    pub migrated_count: usize,
    pub skipped_count: usize,
    pub skipped_items: Vec<MigrationSkippedItem>,
    pub created_spec_ids: Vec<String>,
}

/// The outcome of applying a plan.
pub struct ModpackApplyResult {
    pub message: String,
    pub applied_entries: usize,
    pub skipped_entries: usize,
    pub failed_entries: usize,
    pub snapshot_id: Option<String>,
    pub plan_id: String,
    pub lock_snapshot_id: Option<String>,
    pub warnings: Vec<String>,
}

/// Arguments naming one modpack.
pub struct ModpackIdArgs {
    pub modpack_id: String,
}

/// Arguments to store a specification.
pub struct UpsertModpackSpecArgs {
    pub spec: ModpackSpec,
}

/// Arguments to duplicate a specification.
pub struct DuplicateModpackSpecArgs {
    pub modpack_id: String,
    pub new_name: Option<String>,
}

/// Arguments to delete a specification.
pub struct DeleteModpackSpecArgs {
    pub modpack_id: String,
}

/// Arguments to import a specification from a file.
pub struct ImportModpackSpecJsonArgs {
    pub input_path: String,
}

/// Arguments to export a specification to a file.
pub struct ExportModpackSpecJsonArgs {
    pub modpack_id: String,
    pub output_path: String,
}

/// Arguments to import a provider template as a layer.
pub struct ImportLayerFromProviderArgs {
    pub modpack_id: String,
    pub layer_name: String,
    pub source: String,
    pub project_id: String,
    pub project_title: Option<String>,
}

/// Arguments to import another specification as a layer.
pub struct ImportLayerFromSpecArgs {
    pub target_modpack_id: String,
    pub source_modpack_id: String,
    pub layer_name: String,
}

/// Arguments naming one layer of one modpack.
pub struct LayerRefArgs {
    pub modpack_id: String,
    pub layer_id: String,
}

/// Arguments to resolve a modpack against an instance.
pub struct ResolveModpackArgs {
    pub modpack_id: String,
    pub instance_id: String,
    pub profile_id: Option<String>,
    pub settings: Option<ResolutionSettings>,
}

/// Arguments to apply a resolved plan.
pub struct ApplyModpackPlanArgs {
    pub plan_id: String,
    pub link_mode: Option<String>,
    pub partial_apply_unsafe: Option<bool>,
}

/// Arguments naming one instance.
pub struct InstanceArgs {
    pub instance_id: String,
}

/// Arguments to preview updating a modpack from an instance.
pub struct PreviewUpdateFromInstanceArgs {
    pub instance_id: String,
    pub modpack_id: String,
}

/// Arguments to update a modpack from an instance.
pub struct ApplyUpdateFromInstanceArgs {
    pub instance_id: String,
    pub modpack_id: String,
    pub layer_name: Option<String>,
}

/// Arguments to seed development data.
pub struct SeedDevModpackDataArgs {
    pub instance_name: Option<String>,
}

/// Where a specification was imported from or exported to.
pub struct SpecIoResult {
    pub path: String,
    pub items: usize,
}

/// What development seeding created.
pub struct SeedDevResult {
    pub created_spec_id: String,
    pub created_instance_id: String,
    pub message: String,
}

/// Arguments to import local jar files into a layer.
pub struct ImportLocalJarsToLayerArgs {
    pub modpack_id: String,
    pub layer_id: String,
    pub file_paths: Vec<String>,
    pub auto_identify: Option<bool>,
}

/// Arguments to resolve local entries against providers.
pub struct ResolveLocalModpackEntriesArgs {
    pub modpack_id: String,
    pub mode: Option<String>,
    pub layer_id: Option<String>,
}

/// One provider match found for a local entry.
pub struct ModpackLocalResolverMatch {
    pub key: String,
    pub from_source: String,
    pub to_source: String,
    pub project_id: String,
    pub version_id: String,
    pub name: String,
    pub version_number: String,
    pub confidence: String,
    pub reason: String,
}

/// The outcome of resolving local entries.
pub struct ModpackLocalResolverResult {
    pub spec: ModpackSpec,
    pub scanned_entries: usize,
    pub resolved_entries: usize,
    pub remaining_local_entries: usize,
    pub matches: Vec<ModpackLocalResolverMatch>,
    pub warnings: Vec<String>,
}

/// One imported local jar.
pub struct ModpackImportLocalJarItemResult {
    pub index: usize,
    pub path: String,
    pub file_name: String,
    pub status: String,
    pub message: String,
    pub dedupe_basis: Option<String>,
    pub duplicate_of: Option<String>,
    pub source_hint: Option<String>,
    pub resolved: bool,
}

/// Progress of one local jar import.
pub struct ModpackImportLocalJarProgressEvent {
    pub modpack_id: String,
    pub layer_id: String,
    pub index: usize,
    pub total: usize,
    pub path: String,
    pub status: String,
    pub message: Option<String>,
}

/// The outcome of a local jar import.
pub struct ModpackImportLocalJarsResult {
    pub spec: ModpackSpec,
    pub added_entries: usize,
    pub updated_entries: usize,
    pub resolved_entries: usize,
    pub remaining_local_entries: usize,
    pub items: Vec<ModpackImportLocalJarItemResult>,
    pub warnings: Vec<String>,
}

/// The default requirement flag of an entry.
pub fn default_true() -> (r: bool)
    ensures
        r,
{
    true
}

/// The default content type of an entry.
pub fn default_content_type() -> (r: String)
    ensures
        r@ == "mods"@,
{
    crate::state::lit_string("mods")
}

/// The default target scope of an entry.
pub fn default_target_scope() -> (r: String)
    ensures
        r@ == "instance"@,
{
    crate::state::lit_string("instance")
}

/// The default release-channel policy.
pub fn default_channel_policy() -> (r: String)
    ensures
        r@ == "stable"@,
{
    crate::state::lit_string("stable")
}

/// The default per-entry fallback policy: inherit the global one.
pub fn default_inherit() -> (r: String)
    ensures
        r@ == "inherit"@,
{
    crate::state::lit_string("inherit")
}

/// The default global fallback mode.
pub fn default_fallback_mode() -> (r: String)
    ensures
        r@ == "smart"@,
{
    crate::state::lit_string("smart")
}

/// The default dependency handling mode.
pub fn default_dependency_mode() -> (r: String)
    ensures
        r@ == "detect_only"@,
{
    crate::state::lit_string("detect_only")
}

/// The default fallback distance budget.
pub fn default_max_fallback_distance() -> (r: u32)
    ensures
        r == 3,
{
    3
}

} // verus!
