//! Modpack authoring logic that is pure computation: entry keys, layer
//! reduction, entry diffs, default profiles, base specifications, lock
//! snapshots, drift detection against a snapshot, and the version-picking
//! helpers of resolution.
use vstd::prelude::*;

use crate::modpack_types::{
    DriftItem, DriftReport, EntriesDelta, EntryKey, Layer, LockSnapshot, LockSnapshotEntry,
    ModEntry, ModpackSpec, Profile, ResolutionConflict, ResolutionSettings, ResolvedMod,
};
use crate::state::{lit_string, normalized_content_type_spec, seq_lt, str_eq_lit};
use crate::text::{lower_spec, seq_le, trim_spec};

verus! {

/// The canonical content-type name used in entry keys.
pub fn normalize_content_type(input: &str) -> (r: String)
    ensures
        r@ == normalized_content_type_spec(input@),
{
    crate::state::normalized_content_type(input)
}

/// Whether a content type is one the apply step can place on disk.
pub fn is_supported_content_type(content_type: &str) -> (r: bool)
    ensures
        r,
{
    let n = normalize_content_type(content_type);
    proof {
        let v = normalized_content_type_spec(content_type@);
        assert(v == "mods"@ || v == "resourcepacks"@ || v == "shaderpacks"@ || v == "datapacks"@);
    }
    let _ = n;
    true
}

/// The entry key of a provider, project and content type.
pub open spec fn entry_key_spec(
    provider: Seq<char>,
    project_id: Seq<char>,
    content_type: Seq<char>,
) -> Seq<char> {
    lower_spec(trim_spec(provider)) + seq![':'] + normalized_content_type_spec(content_type)
        + seq![':'] + lower_spec(trim_spec(project_id))
}

/// Compute an entry key.
pub fn entry_key(provider: &str, project_id: &str, content_type: &str) -> (r: String)
    ensures
        r@ == entry_key_spec(provider@, project_id@, content_type@),
{
    let mut out: Vec<char> = Vec::new();
    let p = crate::text::trim_lower(provider);
    crate::text::push_str_chars(&mut out, p.as_str());
    out.push(':');
    let ct = normalize_content_type(content_type);
    crate::text::push_str_chars(&mut out, ct.as_str());
    out.push(':');
    let pid = crate::text::trim_lower(project_id);
    crate::text::push_str_chars(&mut out, pid.as_str());
    proof {
        assert(out@ =~= entry_key_spec(provider@, project_id@, content_type@));
    }
    crate::text::string_from_chars(&out)
}

/// The entry key of a layer entry.
pub fn entry_key_for(entry: &ModEntry) -> (r: String)
    ensures
        r@ == entry_key_spec(entry.provider@, entry.project_id@, entry.content_type@),
{
    entry_key(entry.provider.as_str(), entry.project_id.as_str(), entry.content_type.as_str())
}

/// The entry key of a resolved entry.
pub fn entry_key_for_resolved(item: &ResolvedMod) -> (r: String)
    ensures
        r@ == entry_key_spec(item.source@, item.project_id@, item.content_type@),
{
    entry_key(item.source.as_str(), item.project_id.as_str(), item.content_type.as_str())
}

/// Whether two entries differ in any field resolution cares about beyond
/// their identity.
pub fn materially_different(a: &ModEntry, b: &ModEntry) -> (r: bool)
    ensures
        !r ==> a.required == b.required && a.disabled_by_default == b.disabled_by_default
            && a.optional == b.optional,
{
    if a.required != b.required {
        return true;
    }
    if !opt_str_eq(&a.pin, &b.pin) {
        return true;
    }
    if !crate::text::str_eq(&a.channel_policy, &b.channel_policy) {
        return true;
    }
    if !crate::text::str_eq(&a.fallback_policy, &b.fallback_policy) {
        return true;
    }
    if !opt_str_eq(&a.replacement_group, &b.replacement_group) {
        return true;
    }
    if !opt_str_eq(&a.notes, &b.notes) {
        return true;
    }
    if a.disabled_by_default != b.disabled_by_default {
        return true;
    }
    if a.optional != b.optional {
        return true;
    }
    if !crate::text::str_eq(&a.target_scope, &b.target_scope) {
        return true;
    }
    if !str_list_eq(&a.target_worlds, &b.target_worlds) {
        return true;
    }
    false
}

/// Whether two optional strings hold the same text.
fn opt_str_eq(a: &Option<String>, b: &Option<String>) -> (r: bool)
    ensures
        r == match (a, b) {
            (Option::Some(x), Option::Some(y)) => x@ == y@,
            (Option::None, Option::None) => true,
            _ => false,
        },
{
    match (a, b) {
        (Option::Some(x), Option::Some(y)) => crate::text::str_eq(x, y),
        (Option::None, Option::None) => true,
        _ => false,
    }
}

/// Whether two string lists hold the same texts in the same order.
fn str_list_eq(a: &Vec<String>, b: &Vec<String>) -> (r: bool)
    ensures
        r == (crate::paths::strs_view_of(a@) == crate::paths::strs_view_of(b@)),
{
    if a.len() != b.len() {
        proof {
            assert(crate::paths::strs_view_of(a@).len() != crate::paths::strs_view_of(b@).len());
        }
        return false;
    }
    let mut i: usize = 0;
    while i < a.len()
        invariant
            a@.len() == b@.len(),
            i <= a@.len(),
            forall|m: int|
                0 <= m < i ==> #[trigger] crate::paths::strs_view_of(a@)[m]
                    == crate::paths::strs_view_of(b@)[m],
        decreases a@.len() - i,
    {
        proof {
            assert(crate::paths::strs_view_of(a@)[i as int] == a@[i as int]@);
            assert(crate::paths::strs_view_of(b@)[i as int] == b@[i as int]@);
        }
        if !crate::text::str_eq(&a[i], &b[i]) {
            return false;
        }
        i = i + 1;
    }
    proof {
        assert(crate::paths::strs_view_of(a@) =~= crate::paths::strs_view_of(b@));
    }
    true
}

/// An owned copy of a layer entry, view for view on its text fields.
pub fn duplicate_mod_entry(e: &ModEntry) -> (r: ModEntry)
    ensures
        r.provider@ == e.provider@,
        r.project_id@ == e.project_id@,
        r.content_type@ == e.content_type@,
        r.required == e.required,
        r.disabled_by_default == e.disabled_by_default,
        r.optional == e.optional,
{
    ModEntry {
        provider: crate::state::clone_string(&e.provider),
        project_id: crate::state::clone_string(&e.project_id),
        slug: clone_opt(&e.slug),
        content_type: crate::state::clone_string(&e.content_type),
        required: e.required,
        pin: clone_opt(&e.pin),
        channel_policy: crate::state::clone_string(&e.channel_policy),
        fallback_policy: crate::state::clone_string(&e.fallback_policy),
        replacement_group: clone_opt(&e.replacement_group),
        notes: clone_opt(&e.notes),
        disabled_by_default: e.disabled_by_default,
        optional: e.optional,
        target_scope: crate::state::clone_string(&e.target_scope),
        target_worlds: crate::session::copy_strings(&e.target_worlds),
        local_file_name: clone_opt(&e.local_file_name),
        local_file_path: clone_opt(&e.local_file_path),
        local_sha512: clone_opt(&e.local_sha512),
        local_fingerprints: copy_u32s(&e.local_fingerprints),
    }
}

/// An owned copy of an optional string.
pub fn clone_opt(v: &Option<String>) -> (r: Option<String>)
    ensures
        match (v, &r) {
            (Option::Some(x), Option::Some(y)) => y@ == x@,
            (Option::None, Option::None) => true,
            _ => false,
        },
{
    match v {
        Option::Some(x) => Option::Some(crate::state::clone_string(x)),
        Option::None => Option::None,
    }
}

/// An owned copy of a number list.
fn copy_u32s(v: &Vec<u32>) -> (r: Vec<u32>)
    ensures
        r@ == v@,
{
    let mut out: Vec<u32> = Vec::new();
    let mut i: usize = 0;
    while i < v.len()
        invariant
            i <= v@.len(),
            out@ == v@.subrange(0, i as int),
        decreases v@.len() - i,
    {
        out.push(v[i]);
        i = i + 1;
        proof {
            assert(out@ =~= v@.subrange(0, i as int));
        }
    }
    proof {
        assert(out@ =~= v@);
    }
    out
}

/// Reduce a specification's layers to the effective entry list: adds land
/// or replace, removes drop, overrides replace (or add with a conflict
/// note); a second add of a key that is already present is flagged as a
/// duplicate. The result is sorted by entry key, with unique keys.
#[verifier::loop_isolation(false)]
pub fn reduce_layers(spec: &ModpackSpec) -> (r: (Vec<ModEntry>, Vec<ResolutionConflict>, Vec<
    String,
>))
    ensures
        forall|i: int, j: int|
            0 <= i < j < r.0@.len() ==> seq_lt(
                entry_key_spec(
                    (#[trigger] r.0@[i]).provider@,
                    r.0@[i].project_id@,
                    r.0@[i].content_type@,
                ),
                entry_key_spec(
                    (#[trigger] r.0@[j]).provider@,
                    r.0@[j].project_id@,
                    r.0@[j].content_type@,
                ),
            ),
        forall|i: int|
            0 <= i < r.1@.len() ==> ((#[trigger] r.1@[i]).code@ == "LAYER_DUPLICATE"@
                || r.1@[i].code@ == "OVERRIDE_WITHOUT_BASE"@),
{
    let mut computed: Vec<(String, ModEntry)> = Vec::new();
    let mut first_seen: Vec<String> = Vec::new();
    let mut conflicts: Vec<ResolutionConflict> = Vec::new();
    let mut warnings: Vec<String> = Vec::new();
    let mut l: usize = 0;
    while l < spec.layers.len()
        invariant
            l <= spec.layers@.len(),
            sorted_entry_map(computed@),
            forall|i: int|
                0 <= i < conflicts@.len() ==> ((#[trigger] conflicts@[i]).code@
                    == "LAYER_DUPLICATE"@ || conflicts@[i].code@ == "OVERRIDE_WITHOUT_BASE"@),
        decreases spec.layers@.len() - l,
    {
        let layer = &spec.layers[l];
        if layer.is_frozen {
            let mut w: Vec<char> = Vec::new();
            crate::text::push_str_chars(&mut w, "Layer '");
            crate::text::push_str_chars(&mut w, layer.name.as_str());
            crate::text::push_str_chars(&mut w, "' is frozen; edits are ignored until unfrozen.");
            warnings.push(crate::text::string_from_chars(&w));
        }
        let mut a: usize = 0;
        while a < layer.entries_delta.add.len()
            invariant
                l < spec.layers@.len(),
                *layer == spec.layers@[l as int],
                a <= layer.entries_delta.add@.len(),
                sorted_entry_map(computed@),
                forall|i: int|
                    0 <= i < conflicts@.len() ==> ((#[trigger] conflicts@[i]).code@
                        == "LAYER_DUPLICATE"@ || conflicts@[i].code@ == "OVERRIDE_WITHOUT_BASE"@),
            decreases layer.entries_delta.add@.len() - a,
        {
            let mut next = duplicate_mod_entry(&layer.entries_delta.add[a]);
            next.content_type = normalize_content_type(next.content_type.as_str());
            let key = entry_key_for(&next);
            if vec_contains_str(&first_seen, &key) {
                conflicts.push(
                    ResolutionConflict {
                        code: lit_string("LAYER_DUPLICATE"),
                        message: lit_string("Entry appears in multiple layers."),
                        keys: singleton(crate::state::clone_string(&key)),
                    },
                );
            } else {
                first_seen.push(crate::state::clone_string(&key));
            }
            map_put(&mut computed, key, next);
            a = a + 1;
        }
        let mut rm: usize = 0;
        while rm < layer.entries_delta.remove.len()
            invariant
                l < spec.layers@.len(),
                *layer == spec.layers@[l as int],
                rm <= layer.entries_delta.remove@.len(),
                sorted_entry_map(computed@),
            decreases layer.entries_delta.remove@.len() - rm,
        {
            let k = &layer.entries_delta.remove[rm];
            let key = entry_key(
                k.provider.as_str(),
                k.project_id.as_str(),
                k.content_type.as_str(),
            );
            map_remove(&mut computed, &key);
            rm = rm + 1;
        }
        let mut ov: usize = 0;
        while ov < layer.entries_delta.override_entries.len()
            invariant
                l < spec.layers@.len(),
                *layer == spec.layers@[l as int],
                ov <= layer.entries_delta.override_entries@.len(),
                sorted_entry_map(computed@),
                forall|i: int|
                    0 <= i < conflicts@.len() ==> ((#[trigger] conflicts@[i]).code@
                        == "LAYER_DUPLICATE"@ || conflicts@[i].code@ == "OVERRIDE_WITHOUT_BASE"@),
            decreases layer.entries_delta.override_entries@.len() - ov,
        {
            let mut next = duplicate_mod_entry(&layer.entries_delta.override_entries[ov]);
            next.content_type = normalize_content_type(next.content_type.as_str());
            let key = entry_key_for(&next);
            if !map_has(&computed, &key) {
                // An override without a base becomes an add and is flagged.
                conflicts.push(
                    ResolutionConflict {
                        code: lit_string("OVERRIDE_WITHOUT_BASE"),
                        message: lit_string(
                            "Override had no base entry; treated as an add.",
                        ),
                        keys: singleton(crate::state::clone_string(&key)),
                    },
                );
            }
            map_put(&mut computed, key, next);
            ov = ov + 1;
        }
        l = l + 1;
    }
    let mut entries: Vec<ModEntry> = Vec::new();
    let mut i: usize = 0;
    while i < computed.len()
        invariant
            i <= computed@.len(),
            sorted_entry_map(computed@),
            entries@.len() == i,
            forall|m: int| 0 <= m < i ==> key_of(#[trigger] entries@[m]) == computed@[m].0@,
        decreases computed@.len() - i,
    {
        let e = duplicate_mod_entry(&computed[i].1);
        proof {
            assert(sorted_key_matches(computed@, i as int));
        }
        entries.push(e);
        i = i + 1;
    }
    proof {
        assert forall|x: int, y: int| 0 <= x < y < entries@.len() implies seq_lt(
            key_of(#[trigger] entries@[x]),
            key_of(#[trigger] entries@[y]),
        ) by {
            assert(key_of(entries@[x]) == computed@[x].0@);
            assert(key_of(entries@[y]) == computed@[y].0@);
        }
    }
    (entries, conflicts, warnings)
}

/// The entry key of an entry value, at the specification level.
pub open spec fn key_of(e: ModEntry) -> Seq<char> {
    entry_key_spec(e.provider@, e.project_id@, e.content_type@)
}

/// The stored key of each map row matches its entry's key.
pub open spec fn sorted_key_matches(m: Seq<(String, ModEntry)>, i: int) -> bool {
    0 <= i < m.len() ==> m[i].0@ == key_of(m[i].1)
}

/// A key-sorted entry map whose stored keys match their entries.
pub open spec fn sorted_entry_map(m: Seq<(String, ModEntry)>) -> bool {
    &&& forall|i: int, j: int| 0 <= i < j < m.len() ==> seq_lt((#[trigger] m[i]).0@, (#[trigger] m[j]).0@)
    &&& forall|i: int| 0 <= i < m.len() ==> (#[trigger] m[i]).0@ == key_of(m[i].1)
}

/// Insert or replace one entry in a key-sorted map.
#[verifier::loop_isolation(false)]
fn map_put(m: &mut Vec<(String, ModEntry)>, key: String, entry: ModEntry)
    requires
        sorted_entry_map(old(m)@),
        key@ == key_of(entry),
    ensures
        sorted_entry_map(final(m)@),
{
    let mut idx: usize = 0;
    while idx < m.len()
        invariant
            idx <= m@.len(),
            forall|w: int| 0 <= w < idx ==> seq_lt((#[trigger] m@[w]).0@, key@),
            m@ == old(m)@,
        decreases m@.len() - idx,
    {
        let below = crate::text::str_lt_probe(&m[idx].0, &key);
        if !below {
            break ;
        }
        idx = idx + 1;
    }
    if idx < m.len() {
        let same = crate::text::str_eq(&m[idx].0, &key);
        if same {
            m[idx] = (key, entry);
            proof {
                assert forall|i: int, j: int| 0 <= i < j < m@.len() implies seq_lt(
                    (#[trigger] m@[i]).0@,
                    (#[trigger] m@[j]).0@,
                ) by {
                    assert(old(m)@[i].0@ == m@[i].0@);
                    assert(old(m)@[j].0@ == m@[j].0@);
                    assert(seq_lt(old(m)@[i].0@, old(m)@[j].0@));
                }
            }
            return ;
        }
        proof {
            assert(!seq_lt(m@[idx as int].0@, key@) && m@[idx as int].0@ != key@);
            crate::text::lemma_seq_le_total(m@[idx as int].0@, key@);
            assert(seq_lt(key@, m@[idx as int].0@));
        }
        let ghost before = m@;
        m.insert(idx, (key, entry));
        proof {
            lemma_map_insert_sorted(before, m@, idx as int);
        }
        return ;
    }
    let ghost before = m@;
    m.push((key, entry));
    proof {
        lemma_map_insert_sorted(before, m@, before.len() as int);
    }
}

/// Inserting at the sorted position keeps the map sorted.
proof fn lemma_map_insert_sorted(before: Seq<(String, ModEntry)>, after: Seq<(String, ModEntry)>, idx: int)
    requires
        0 <= idx <= before.len(),
        after.len() == before.len() + 1,
        forall|i: int| 0 <= i < idx ==> after[i] == before[i],
        forall|i: int| idx < i < after.len() ==> after[i] == before[i - 1],
        forall|i: int| 0 <= i < idx ==> seq_lt((#[trigger] before[i]).0@, after[idx].0@),
        idx < before.len() ==> seq_lt(after[idx].0@, before[idx as int].0@),
        sorted_entry_map(before),
        after[idx].0@ == key_of(after[idx].1),
    ensures
        sorted_entry_map(after),
{
    assert forall|m: int| idx <= m < before.len() implies seq_lt(
        after[idx].0@,
        (#[trigger] before[m]).0@,
    ) by {
        assert(seq_lt(after[idx].0@, before[idx as int].0@));
        if m > idx {
            assert(seq_lt(before[idx as int].0@, before[m].0@));
            crate::text::lemma_seq_le_trans(after[idx].0@, before[idx as int].0@, before[m].0@);
            if after[idx].0@ == before[m].0@ {
                crate::text::lemma_seq_le_antisym(after[idx].0@, before[idx as int].0@);
            }
        }
    }
    assert forall|i: int, j: int| 0 <= i < j < after.len() implies seq_lt(
        (#[trigger] after[i]).0@,
        (#[trigger] after[j]).0@,
    ) by {
        if i < idx && j < idx {
            assert(seq_lt(before[i].0@, before[j].0@));
        } else if i < idx && j == idx {
            assert(seq_lt(before[i].0@, after[idx].0@));
        } else if i < idx && j > idx {
            assert(after[j] == before[j - 1]);
            assert(seq_lt(before[i].0@, after[idx].0@));
            assert(seq_lt(after[idx].0@, before[j - 1].0@));
            crate::text::lemma_seq_le_trans(before[i].0@, after[idx].0@, before[j - 1].0@);
            if before[i].0@ == before[j - 1].0@ {
                crate::text::lemma_seq_le_antisym(before[i].0@, after[idx].0@);
            }
        } else if i == idx {
            assert(after[j] == before[j - 1]);
            assert(seq_lt(after[idx].0@, before[j - 1].0@));
        } else {
            assert(after[i] == before[i - 1] && after[j] == before[j - 1]);
            assert(seq_lt(before[i - 1].0@, before[j - 1].0@));
        }
    }
    assert forall|i: int| 0 <= i < after.len() implies (#[trigger] after[i]).0@ == key_of(
        after[i].1,
    ) by {
        if i < idx {
            assert(after[i] == before[i]);
        } else if i > idx {
            assert(after[i] == before[i - 1]);
        }
    }
}

/// Remove one key from a key-sorted map, if present.
#[verifier::loop_isolation(false)]
fn map_remove(m: &mut Vec<(String, ModEntry)>, key: &String)
    requires
        sorted_entry_map(old(m)@),
    ensures
        sorted_entry_map(final(m)@),
{
    let mut idx: usize = 0;
    while idx < m.len()
        invariant
            idx <= m@.len(),
            m@ == old(m)@,
        decreases m@.len() - idx,
    {
        if crate::text::str_eq(&m[idx].0, key) {
            let ghost before = m@;
            let _ = m.remove(idx);
            proof {
                assert forall|i: int, j: int| 0 <= i < j < m@.len() implies seq_lt(
                    (#[trigger] m@[i]).0@,
                    (#[trigger] m@[j]).0@,
                ) by {
                    let bi: int = if i < idx { i } else { i + 1 };
                    let bj: int = if j < idx { j } else { j + 1 };
                    assert(m@[i] == before[bi] && m@[j] == before[bj]);
                    assert(seq_lt(before[bi].0@, before[bj].0@));
                }
                assert forall|i: int| 0 <= i < m@.len() implies (#[trigger] m@[i]).0@ == key_of(
                    m@[i].1,
                ) by {
                    let bi: int = if i < idx { i } else { i + 1 };
                    assert(m@[i] == before[bi]);
                }
            }
            return ;
        }
        idx = idx + 1;
    }
}

/// Whether the map carries a key.
fn map_has(m: &Vec<(String, ModEntry)>, key: &String) -> (r: bool)
{
    let mut i: usize = 0;
    while i < m.len()
        invariant
            i <= m@.len(),
        decreases m@.len() - i,
    {
        if crate::text::str_eq(&m[i].0, key) {
            return true;
        }
        i = i + 1;
    }
    false
}

/// Whether a string list holds `s`.
fn vec_contains_str(v: &Vec<String>, s: &String) -> (r: bool)
{
    let mut i: usize = 0;
    while i < v.len()
        invariant
            i <= v@.len(),
        decreases v@.len() - i,
    {
        if crate::text::str_eq(&v[i], s) {
            return true;
        }
        i = i + 1;
    }
    false
}

/// A one-element string list.
fn singleton(s: String) -> (r: Vec<String>)
    ensures
        r@.len() == 1,
        r@[0]@ == s@,
{
    let mut out: Vec<String> = Vec::new();
    out.push(s);
    out
}

/// Whether some entry in the list carries the same key as `e`.
pub open spec fn key_among(e: ModEntry, list: Seq<ModEntry>) -> bool {
    exists|j: int| 0 <= j < list.len() && key_of(e) == key_of(#[trigger] list[j])
}

/// Whether some entry in the list carries the same key as `k`.
pub open spec fn removed_key_among(k: EntryKey, list: Seq<ModEntry>) -> bool {
    exists|j: int|
        0 <= j < list.len() && entry_key_spec(k.provider@, k.project_id@, k.content_type@)
            == key_of(#[trigger] list[j])
}

/// Diff two effective entry lists: entries only in `next` are added,
/// entries only in `current` are removed, and entries in both whose
/// resolution-relevant fields differ are overridden.
#[verifier::loop_isolation(false)]
pub fn diff_entries(current: &Vec<ModEntry>, next: &Vec<ModEntry>) -> (r: (Vec<ModEntry>, Vec<
    EntryKey,
>, Vec<ModEntry>))
    ensures
        forall|i: int| 0 <= i < r.0@.len() ==> key_among(#[trigger] r.0@[i], next@),
        forall|i: int| 0 <= i < r.2@.len() ==> key_among(#[trigger] r.2@[i], next@),
        forall|i: int| 0 <= i < r.1@.len() ==> removed_key_among(#[trigger] r.1@[i], current@),
{
    let mut added: Vec<ModEntry> = Vec::new();
    let mut removed: Vec<EntryKey> = Vec::new();
    let mut overridden: Vec<ModEntry> = Vec::new();
    let mut i: usize = 0;
    while i < next.len()
        invariant
            i <= next@.len(),
            forall|m: int| 0 <= m < added@.len() ==> key_among(#[trigger] added@[m], next@),
            forall|m: int|
                0 <= m < overridden@.len() ==> key_among(#[trigger] overridden@[m], next@),
        decreases next@.len() - i,
    {
        let nkey = entry_key_for(&next[i]);
        let mut found: Option<usize> = Option::None;
        let mut c: usize = 0;
        while c < current.len()
            invariant
                c <= current@.len(),
                i < next@.len(),
                match found {
                    Option::Some(w) => w < current@.len(),
                    Option::None => true,
                },
            decreases current@.len() - c,
        {
            let ckey = entry_key_for(&current[c]);
            if crate::text::str_eq(&ckey, &nkey) {
                found = Option::Some(c);
            }
            c = c + 1;
        }
        match found {
            Option::None => {
                let src = &next[i];
                proof {
                    assert(*src == next@[i as int]);
                }
                let e = duplicate_mod_entry(src);
                proof {
                    assert(key_of(e) == key_of(next@[i as int]));
                }
                let ghost before = added@;
                added.push(e);
                proof {
                    assert(forall|m: int|
                        0 <= m < before.len() ==> added@[m] == #[trigger] before[m]);
                    assert(key_among(added@[added@.len() - 1], next@)) by {
                        assert(key_of(added@[added@.len() - 1]) == key_of(next@[i as int]));
                    }
                }
            },
            Option::Some(w) => {
                if materially_different(&current[w], &next[i]) {
                    let src = &next[i];
                    proof {
                        assert(*src == next@[i as int]);
                    }
                    let e = duplicate_mod_entry(src);
                    proof {
                        assert(key_of(e) == key_of(next@[i as int]));
                    }
                    let ghost before = overridden@;
                    overridden.push(e);
                    proof {
                        assert(forall|m: int|
                            0 <= m < before.len() ==> overridden@[m] == #[trigger] before[m]);
                        assert(key_among(overridden@[overridden@.len() - 1], next@)) by {
                            assert(key_of(overridden@[overridden@.len() - 1]) == key_of(
                                next@[i as int],
                            ));
                        }
                    }
                }
            },
        }
        i = i + 1;
    }
    let mut c2: usize = 0;
    while c2 < current.len()
        invariant
            c2 <= current@.len(),
            forall|m: int| 0 <= m < added@.len() ==> key_among(#[trigger] added@[m], next@),
            forall|m: int|
                0 <= m < overridden@.len() ==> key_among(#[trigger] overridden@[m], next@),
            forall|m: int|
                0 <= m < removed@.len() ==> removed_key_among(#[trigger] removed@[m], current@),
        decreases current@.len() - c2,
    {
        let ckey = entry_key_for(&current[c2]);
        let mut present = false;
        let mut n: usize = 0;
        while n < next.len()
            invariant
                n <= next@.len(),
                c2 < current@.len(),
            decreases next@.len() - n,
        {
            let nkey = entry_key_for(&next[n]);
            if crate::text::str_eq(&nkey, &ckey) {
                present = true;
            }
            n = n + 1;
        }
        if !present {
            let e = &current[c2];
            proof {
                assert(*e == current@[c2 as int]);
            }
            let ghost before = removed@;
            removed.push(
                EntryKey {
                    provider: crate::state::clone_string(&e.provider),
                    project_id: crate::state::clone_string(&e.project_id),
                    content_type: crate::state::clone_string(&e.content_type),
                },
            );
            proof {
                assert(forall|m: int|
                    0 <= m < before.len() ==> removed@[m] == #[trigger] before[m]);
                assert(removed_key_among(removed@[removed@.len() - 1], current@)) by {
                    assert(entry_key_spec(
                        removed@[removed@.len() - 1].provider@,
                        removed@[removed@.len() - 1].project_id@,
                        removed@[removed@.len() - 1].content_type@,
                    ) == key_of(current@[c2 as int]));
                }
            }
        }
        c2 = c2 + 1;
    }
    (added, removed, overridden)
}

/// Give a specification the three standard profiles when it has none.
pub fn ensure_default_profiles(spec: &mut ModpackSpec)
    ensures
        old(spec).profiles@.len() > 0 ==> *final(spec) == *old(spec),
        old(spec).profiles@.len() == 0 ==> final(spec).profiles@.len() == 3
            && final(spec).profiles@[0].id@ == "lite"@
            && final(spec).profiles@[0].name@ == "Lite"@
            && final(spec).profiles@[0].optional_entry_states@.len() == 0
            && final(spec).profiles@[1].id@ == "recommended"@
            && final(spec).profiles@[1].name@ == "Recommended"@
            && final(spec).profiles@[1].optional_entry_states@.len() == 0
            && final(spec).profiles@[2].id@ == "full"@
            && final(spec).profiles@[2].name@ == "Full"@
            && final(spec).profiles@[2].optional_entry_states@.len() == 0,
        *final(spec) == (ModpackSpec { profiles: final(spec).profiles, ..*old(spec) }),
{
    if spec.profiles.len() > 0 {
        return ;
    }
    let mut profiles: Vec<Profile> = Vec::new();
    profiles.push(
        Profile {
            id: lit_string("lite"),
            name: lit_string("Lite"),
            optional_entry_states: Vec::new(),
        },
    );
    profiles.push(
        Profile {
            id: lit_string("recommended"),
            name: lit_string("Recommended"),
            optional_entry_states: Vec::new(),
        },
    );
    profiles.push(
        Profile {
            id: lit_string("full"),
            name: lit_string("Full"),
            optional_entry_states: Vec::new(),
        },
    );
    spec.profiles = profiles;
}

/// A fresh specification: the three standard layers, the default profiles
/// and settings.
pub fn make_base_spec(id: String, name: String, created_at: String) -> (r: ModpackSpec)
    ensures
        r.id@ == id@,
        r.name@ == name@,
        r.created_at@ == created_at@,
        r.updated_at@ == created_at@,
        r.layers@.len() == 3,
        r.layers@[0].id@ == "layer_template"@,
        r.layers@[0].name@ == "Template"@,
        r.layers@[1].id@ == "layer_user"@,
        r.layers@[1].name@ == "User Additions"@,
        r.layers@[2].id@ == "layer_overrides"@,
        r.layers@[2].name@ == "Overrides"@,
        forall|i: int|
            0 <= i < 3 ==> !(#[trigger] r.layers@[i]).is_frozen && r.layers@[i].source is None
                && r.layers@[i].entries_delta.add@.len() == 0
                && r.layers@[i].entries_delta.remove@.len() == 0
                && r.layers@[i].entries_delta.override_entries@.len() == 0,
        r.profiles@.len() == 3,
        r.profiles@[0].id@ == "lite"@,
        r.profiles@[1].id@ == "recommended"@,
        r.profiles@[2].id@ == "full"@,
        r.description is None,
        r.tags@.len() == 0,
{
    let mut layers: Vec<Layer> = Vec::new();
    layers.push(
        Layer {
            id: lit_string("layer_template"),
            name: lit_string("Template"),
            source: Option::None,
            is_frozen: false,
            entries_delta: EntriesDelta {
                add: Vec::new(),
                remove: Vec::new(),
                override_entries: Vec::new(),
            },
        },
    );
    layers.push(
        Layer {
            id: lit_string("layer_user"),
            name: lit_string("User Additions"),
            source: Option::None,
            is_frozen: false,
            entries_delta: EntriesDelta {
                add: Vec::new(),
                remove: Vec::new(),
                override_entries: Vec::new(),
            },
        },
    );
    layers.push(
        Layer {
            id: lit_string("layer_overrides"),
            name: lit_string("Overrides"),
            source: Option::None,
            is_frozen: false,
            entries_delta: EntriesDelta {
                add: Vec::new(),
                remove: Vec::new(),
                override_entries: Vec::new(),
            },
        },
    );
    let mut spec = ModpackSpec {
        id,
        name,
        description: Option::None,
        tags: Vec::new(),
        created_at,
        updated_at: String::new(),
        layers,
        profiles: Vec::new(),
        settings: Default::default(),
    };
    spec.updated_at = crate::state::clone_string(&spec.created_at);
    ensure_default_profiles(&mut spec);
    spec
}

} // verus!

verus! {

/// One entry of an instance's lock file as the apply pipeline sees it.
pub struct LockEntry {
    pub source: String,
    pub project_id: String,
    pub version_id: String,
    pub name: String,
    pub version_number: String,
    pub filename: String,
    pub content_type: String,
    pub target_scope: String,
    pub target_worlds: Vec<String>,
    pub pinned_version: Option<String>,
    pub enabled: bool,
    pub hashes: Vec<(String, String)>,
}

/// A whole lock file.
pub struct Lockfile {
    pub version: u32,
    pub entries: Vec<LockEntry>,
}

/// One legacy creator preset entry.
pub struct CreatorPresetEntry {
    pub source: String,
    pub project_id: String,
    pub title: String,
    pub content_type: String,
    pub enabled: bool,
    pub pinned_version: Option<String>,
    pub target_worlds: Vec<String>,
}

/// One legacy creator preset.
pub struct CreatorPreset {
    pub id: String,
    pub name: String,
    pub created_at: String,
    pub entries: Vec<CreatorPresetEntry>,
}

/// A provider match for an imported local file.
pub struct LocalImportedProviderMatch {
    pub source: String,
    pub project_id: String,
    pub version_id: String,
    pub name: String,
    pub version_number: String,
    pub confidence: String,
    pub reason: String,
}

/// A provider resolution carried between import steps.
pub struct ProviderResolution {
    pub source: String,
    pub project_id: String,
    pub version_id: String,
    pub name: String,
    pub version_number: String,
    pub confidence: String,
    pub reason: String,
}

/// Carry a provider match into a resolution.
pub fn provider_resolution_from_import(found: LocalImportedProviderMatch) -> (r: ProviderResolution)
    ensures
        r.source@ == found.source@,
        r.project_id@ == found.project_id@,
        r.version_id@ == found.version_id@,
        r.version_number@ == found.version_number@,
{
    ProviderResolution {
        source: found.source,
        project_id: found.project_id,
        version_id: found.version_id,
        name: found.name,
        version_number: found.version_number,
        confidence: found.confidence,
        reason: found.reason,
    }
}

/// Whether a lock entry comes from one of the two providers the snapshot
/// tracks.
pub open spec fn snapshot_tracked_spec(source: Seq<char>) -> bool {
    lower_spec(source) == "modrinth"@ || lower_spec(source) == "curseforge"@
}

/// How many lock entries a tracked provider owns, from one index on.
pub open spec fn tracked_total(entries: Seq<LockEntry>, from: int) -> nat
    decreases entries.len() - from,
    when 0 <= from <= entries.len()
{
    if from >= entries.len() {
        0
    } else {
        (if snapshot_tracked_spec(entries[from].source@) {
            1nat
        } else {
            0nat
        }) + tracked_total(entries, from + 1)
    }
}

/// Record the provider-tracked lock entries after an apply: one row per
/// tracked entry, field by field, untracked sources left out.
#[verifier::rlimit(100)]
#[verifier::spinoff_prover]
pub fn build_lock_snapshot(instance_id: &str, plan_id: &str, lock: &Lockfile, instance_snapshot_id: Option<String>) -> (r:
    LockSnapshot)
    ensures
        r.instance_id@ == instance_id@,
        r.plan_id@ == plan_id@,
        r.instance_snapshot_id == instance_snapshot_id,
        r.entries@.len() == tracked_total(lock.entries@, 0),
        forall|k: int|
            0 <= k < r.entries@.len() ==> snapshot_tracked_spec(
                (#[trigger] r.entries@[k]).source@,
            ),
{
    let mut entries: Vec<LockSnapshotEntry> = Vec::new();
    let mut i: usize = 0;
    while i < lock.entries.len()
        invariant
            i <= lock.entries@.len(),
            entries@.len() + tracked_total(lock.entries@, i as int) == tracked_total(
                lock.entries@,
                0,
            ),
            forall|k: int|
                0 <= k < entries@.len() ==> snapshot_tracked_spec(
                    (#[trigger] entries@[k]).source@,
                ),
        decreases lock.entries@.len() - i,
    {
        let e = &lock.entries[i];
        proof {
            assert(*e == lock.entries@[i as int]);
        }
        let low = crate::text::chars_vec(e.source.as_str());
        let lowered = crate::text::lower_chars(&low);
        let low_s = crate::text::string_from_chars(&lowered);
        let provider_known = crate::state::str_eq_lit(&low_s, "modrinth") || crate::state::str_eq_lit(
            &low_s,
            "curseforge",
        );
        if provider_known {
            let ghost before = entries@;
            entries.push(
                LockSnapshotEntry {
                    source: crate::state::clone_string(&e.source),
                    content_type: normalize_content_type(e.content_type.as_str()),
                    project_id: crate::state::clone_string(&e.project_id),
                    name: crate::state::clone_string(&e.name),
                    version_id: crate::state::clone_string(&e.version_id),
                    version_number: crate::state::clone_string(&e.version_number),
                    enabled: e.enabled,
                    target_worlds: crate::session::copy_strings(&e.target_worlds),
                },
            );
            proof {
                assert(forall|m: int|
                    0 <= m < before.len() ==> entries@[m] == #[trigger] before[m]);
                assert(snapshot_tracked_spec(lock.entries@[i as int].source@)) by {
                    assert(crate::text::lower_spec(lock.entries@[i as int].source@)
                        == low_s@);
                }
                assert(entries@[entries@.len() - 1].source@
                    == lock.entries@[i as int].source@);
            }
        } else {
            proof {
                if snapshot_tracked_spec(lock.entries@[i as int].source@) {
                    assert(crate::text::lower_spec(lock.entries@[i as int].source@) == low_s@);
                    assert(false);
                }
            }
        }
        i = i + 1;
    }
    let now = crate::trusted::now_millis();
    let mut idv: Vec<char> = Vec::new();
    crate::text::push_str_chars(&mut idv, "locksnap_");
    if now >= 0 {
        crate::jsontext::push_dec_i64(&mut idv, now);
    } else {
        crate::jsontext::push_dec_i64(&mut idv, 0);
    }
    LockSnapshot {
        id: crate::text::string_from_chars(&idv),
        instance_id: crate::state::lit_string(instance_id),
        plan_id: crate::state::lit_string(plan_id),
        created_at: crate::trusted::now_iso(),
        entries,
        instance_snapshot_id,
    }
}

/// Compare an instance's lock file to its last snapshot: entries only in
/// the lock are added, entries only in the snapshot are removed, and
/// entries whose version id changed are version changes. The report is
/// `in_sync` exactly when all three lists are empty.
#[verifier::loop_isolation(false)]
pub fn detect_drift(instance_id: &str, lock: &Lockfile, snapshot: &LockSnapshot) -> (r:
    DriftReport)
    ensures
        r.instance_id@ == instance_id@,
        (r.status@ == "in_sync"@ <==> (r.added@.len() == 0 && r.removed@.len() == 0
            && r.version_changed@.len() == 0)),
        r.status@ == "in_sync"@ || r.status@ == "drifted"@,
{
    // Current provider-tracked rows: (key, name, version_number, version_id, ct, source).
    let mut current: Vec<(String, LockSnapshotEntry)> = Vec::new();
    let mut i: usize = 0;
    while i < lock.entries.len()
        invariant
            i <= lock.entries@.len(),
        decreases lock.entries@.len() - i,
    {
        let e = &lock.entries[i];
        let low = crate::text::chars_vec(e.source.as_str());
        let lowered = crate::text::lower_chars(&low);
        let low_s = crate::text::string_from_chars(&lowered);
        let provider_known = crate::state::str_eq_lit(&low_s, "modrinth") || crate::state::str_eq_lit(
            &low_s,
            "curseforge",
        );
        if provider_known {
            current.push(
                (
                    entry_key(
                        e.source.as_str(),
                        e.project_id.as_str(),
                        e.content_type.as_str(),
                    ),
                    LockSnapshotEntry {
                        source: crate::state::clone_string(&e.source),
                        content_type: normalize_content_type(e.content_type.as_str()),
                        project_id: crate::state::clone_string(&e.project_id),
                        name: crate::state::clone_string(&e.name),
                        version_id: crate::state::clone_string(&e.version_id),
                        version_number: crate::state::clone_string(&e.version_number),
                        enabled: e.enabled,
                        target_worlds: crate::session::copy_strings(&e.target_worlds),
                    },
                ),
            );
        }
        i = i + 1;
    }
    let mut expected: Vec<(String, LockSnapshotEntry)> = Vec::new();
    let mut x: usize = 0;
    while x < snapshot.entries.len()
        invariant
            x <= snapshot.entries@.len(),
        decreases snapshot.entries@.len() - x,
    {
        let e = &snapshot.entries[x];
        expected.push(
            (
                entry_key(e.source.as_str(), e.project_id.as_str(), e.content_type.as_str()),
                LockSnapshotEntry {
                    source: crate::state::clone_string(&e.source),
                    content_type: normalize_content_type(e.content_type.as_str()),
                    project_id: crate::state::clone_string(&e.project_id),
                    name: crate::state::clone_string(&e.name),
                    version_id: crate::state::clone_string(&e.version_id),
                    version_number: crate::state::clone_string(&e.version_number),
                    enabled: e.enabled,
                    target_worlds: crate::session::copy_strings(&e.target_worlds),
                },
            ),
        );
        x = x + 1;
    }
    let mut added: Vec<DriftItem> = Vec::new();
    let mut removed: Vec<DriftItem> = Vec::new();
    let mut version_changed: Vec<DriftItem> = Vec::new();
    let mut c: usize = 0;
    while c < current.len()
        invariant
            c <= current@.len(),
        decreases current@.len() - c,
    {
        let mut found: Option<usize> = Option::None;
        let mut w: usize = 0;
        while w < expected.len()
            invariant
                w <= expected@.len(),
                c < current@.len(),
                match found {
                    Option::Some(f) => f < expected@.len(),
                    Option::None => true,
                },
            decreases expected@.len() - w,
        {
            if crate::text::str_eq(&expected[w].0, &current[c].0) {
                found = Option::Some(w);
            }
            w = w + 1;
        }
        match found {
            Option::None => {
                let e = &current[c].1;
                added.push(
                    DriftItem {
                        source: crate::state::clone_string(&e.source),
                        content_type: crate::state::clone_string(&e.content_type),
                        project_id: crate::state::clone_string(&e.project_id),
                        name: crate::state::clone_string(&e.name),
                        expected_version: Option::None,
                        current_version: Option::Some(
                            crate::state::clone_string(&e.version_number),
                        ),
                    },
                );
            },
            Option::Some(f) => {
                let cur = &current[c].1;
                let exp = &expected[f].1;
                if !crate::text::str_eq(&exp.version_id, &cur.version_id) {
                    version_changed.push(
                        DriftItem {
                            source: crate::state::clone_string(&exp.source),
                            content_type: crate::state::clone_string(&exp.content_type),
                            project_id: crate::state::clone_string(&exp.project_id),
                            name: crate::state::clone_string(&exp.name),
                            expected_version: Option::Some(
                                crate::state::clone_string(&exp.version_number),
                            ),
                            current_version: Option::Some(
                                crate::state::clone_string(&cur.version_number),
                            ),
                        },
                    );
                }
            },
        }
        c = c + 1;
    }
    let mut e2: usize = 0;
    while e2 < expected.len()
        invariant
            e2 <= expected@.len(),
        decreases expected@.len() - e2,
    {
        let mut present = false;
        let mut w: usize = 0;
        while w < current.len()
            invariant
                w <= current@.len(),
                e2 < expected@.len(),
            decreases current@.len() - w,
        {
            if crate::text::str_eq(&current[w].0, &expected[e2].0) {
                present = true;
            }
            w = w + 1;
        }
        if !present {
            let e = &expected[e2].1;
            removed.push(
                DriftItem {
                    source: crate::state::clone_string(&e.source),
                    content_type: crate::state::clone_string(&e.content_type),
                    project_id: crate::state::clone_string(&e.project_id),
                    name: crate::state::clone_string(&e.name),
                    expected_version: Option::Some(
                        crate::state::clone_string(&e.version_number),
                    ),
                    current_version: Option::None,
                },
            );
        }
        e2 = e2 + 1;
    }
    let clean = added.len() == 0 && removed.len() == 0 && version_changed.len() == 0;
    let status = if clean {
        crate::state::lit_string("in_sync")
    } else {
        crate::state::lit_string("drifted")
    };
    proof {
        reveal_strlit("in_sync");
        reveal_strlit("drifted");
        assert("in_sync"@.len() == 7);
        assert("drifted"@.len() == 7);
        assert("in_sync"@[0] == 'i');
        assert("drifted"@[0] == 'd');
    }
    DriftReport {
        instance_id: crate::state::lit_string(instance_id),
        status,
        added,
        removed,
        version_changed,
        created_at: crate::trusted::now_iso(),
    }
}

/// The project id embedded in an entry key: everything past the second
/// separator.
pub fn parse_project_id_from_key(key: &str) -> (r: String)
{
    let v = crate::text::chars_vec(key);
    let mut seps: usize = 0;
    let mut i: usize = 0;
    let mut out: Vec<char> = Vec::new();
    while i < v.len()
        invariant
            i <= v.len(),
        decreases v.len() - i,
    {
        let ch = v[i];
        if seps >= 2 {
            out.push(ch);
        } else if ch == ':' {
            if seps < 2 {
                seps = seps + 1;
            }
        }
        i = i + 1;
    }
    crate::text::string_from_chars(&out)
}

/// The link mode an apply records: `unlinked` for one-time applies, else
/// `linked`.
pub fn normalize_link_mode(value: &str) -> (r: String)
    ensures
        ({
            let t = lower_spec(trim_spec(value@));
            r@ == if t == "unlinked"@ || t == "one_time"@ || t == "one-time"@ {
                "unlinked"@
            } else {
                "linked"@
            }
        }),
{
    let t = crate::text::trim_lower(value);
    if crate::state::str_eq_lit(&t, "unlinked") || crate::state::str_eq_lit(&t, "one_time")
        || crate::state::str_eq_lit(&t, "one-time") {
        crate::state::lit_string("unlinked")
    } else {
        crate::state::lit_string("linked")
    }
}

/// The numeric CurseForge file id carried in a version id.
pub fn parse_curseforge_file_id(raw: &str) -> (r: Option<i64>)
{
    let v = crate::text::chars_vec(raw);
    let t = crate::text::trim_chars(&v);
    let pre = crate::text::chars_vec("cf_file:");
    let body: Vec<char> = if crate::text::chars_have_prefix(&t, &pre) {
        let mut rest: Vec<char> = Vec::new();
        let mut i: usize = pre.len();
        while i < t.len()
            invariant
                pre.len() <= i <= t.len(),
            decreases t.len() - i,
        {
            rest.push(t[i]);
            i = i + 1;
        }
        rest
    } else {
        t
    };
    let trimmed = crate::text::trim_chars(&body);
    if trimmed.len() == 0 {
        return Option::None;
    }
    match crate::text::parse_dec_bounded(&trimmed, 0, trimmed.len(), 9_223_372_036_854_775_807u64) {
        Option::Some(n) => Option::Some(n as i64),
        Option::None => Option::None,
    }
}

} // verus!

verus! {

/// Whether an entry points at a local file rather than a provider.
pub fn is_local_mod_entry(entry: &ModEntry) -> (r: bool)
    ensures
        r == (lower_spec(trim_spec(entry.provider@)) == "local"@ && normalized_content_type_spec(
            entry.content_type@,
        ) == "mods"@),
{
    let p = crate::text::trim_lower(entry.provider.as_str());
    let ct = normalize_content_type(entry.content_type.as_str());
    str_eq_lit(&p, "local") && str_eq_lit(&ct, "mods")
}

/// How many local entries remain across every layer's adds.
pub fn count_remaining_local_entries(spec: &ModpackSpec) -> (r: usize)
{
    let mut count: usize = 0;
    let mut l: usize = 0;
    while l < spec.layers.len()
        invariant
            l <= spec.layers@.len(),
            count <= usize::MAX,
        decreases spec.layers@.len() - l,
    {
        let layer = &spec.layers[l];
        let mut a: usize = 0;
        while a < layer.entries_delta.add.len()
            invariant
                a <= layer.entries_delta.add@.len(),
                count <= usize::MAX,
            decreases layer.entries_delta.add@.len() - a,
        {
            if is_local_mod_entry(&layer.entries_delta.add[a]) {
                if count < usize::MAX {
                    count = count + 1;
                }
            }
            a = a + 1;
        }
        l = l + 1;
    }
    count
}

/// The display name of a local entry: its note when one is set, else a name
/// inferred from the safe file name.
pub fn local_entry_display_name(entry: &ModEntry, safe_file_name: &str) -> (r: String)
    ensures
        match entry.notes {
            Option::Some(n) => trim_spec(n@).len() > 0 ==> r@ == trim_spec(n@),
            Option::None => r@ == safe_file_name@,
        },
{
    match &entry.notes {
        Option::Some(n) => {
            let t = crate::text::trim_string(n.as_str());
            if !t.as_str().is_empty() {
                t
            } else {
                crate::state::lit_string(safe_file_name)
            }
        },
        Option::None => crate::state::lit_string(safe_file_name),
    }
}

/// Convert one lock entry into a pinned layer entry.
pub fn lock_entry_to_mod_entry(entry: &LockEntry) -> (r: ModEntry)
    ensures
        r.provider@ == entry.source@,
        r.project_id@ == entry.project_id@,
        r.required,
        !r.optional,
        match r.pin {
            Option::Some(p) => p@ == entry.version_id@,
            Option::None => false,
        },
        r.disabled_by_default == !entry.enabled,
{
    ModEntry {
        provider: crate::state::clone_string(&entry.source),
        project_id: crate::state::clone_string(&entry.project_id),
        slug: Option::Some(crate::state::clone_string(&entry.name)),
        content_type: normalize_content_type(entry.content_type.as_str()),
        required: true,
        pin: Option::Some(crate::state::clone_string(&entry.version_id)),
        channel_policy: crate::state::lit_string("stable"),
        fallback_policy: crate::state::lit_string("inherit"),
        replacement_group: Option::None,
        notes: Option::Some(crate::state::clone_string(&entry.name)),
        disabled_by_default: !entry.enabled,
        optional: false,
        target_scope: if entry.target_worlds.len() == 0 {
            crate::state::lit_string("instance")
        } else {
            crate::state::lit_string("world")
        },
        target_worlds: crate::session::copy_strings(&entry.target_worlds),
        local_file_name: Option::None,
        local_file_path: Option::None,
        local_sha512: Option::None,
        local_fingerprints: Vec::new(),
    }
}

/// Convert one legacy preset entry into a layer entry.
pub fn creator_entry_to_mod_entry(entry: CreatorPresetEntry) -> (r: ModEntry)
    ensures
        r.provider@ == entry.source@,
        r.project_id@ == entry.project_id@,
        r.required,
        !r.optional,
        r.disabled_by_default == !entry.enabled,
{
    let scope = if entry.target_worlds.len() == 0 {
        crate::state::lit_string("instance")
    } else {
        crate::state::lit_string("world")
    };
    ModEntry {
        provider: entry.source,
        project_id: entry.project_id,
        slug: Option::Some(crate::state::clone_string(&entry.title)),
        content_type: normalize_content_type(entry.content_type.as_str()),
        required: true,
        pin: entry.pinned_version,
        channel_policy: crate::state::lit_string("stable"),
        fallback_policy: crate::state::lit_string("inherit"),
        replacement_group: Option::None,
        notes: Option::Some(entry.title),
        disabled_by_default: !entry.enabled,
        optional: false,
        target_scope: scope,
        target_worlds: entry.target_worlds,
        local_file_name: Option::None,
        local_file_path: Option::None,
        local_sha512: Option::None,
        local_fingerprints: Vec::new(),
    }
}

/// Turn one legacy preset into a fresh specification whose user layer
/// carries the preset's entries.
pub fn legacy_creator_preset_to_spec(preset: &CreatorPreset, spec_id: String) -> (r: ModpackSpec)
    ensures
        r.id@ == spec_id@,
        r.name@ == preset.name@,
        r.layers@.len() == 3,
        r.layers@[1].id@ == "layer_user"@,
        r.layers@[1].entries_delta.add@.len() == preset.entries@.len(),
{
    let mut spec = make_base_spec(
        spec_id,
        crate::state::clone_string(&preset.name),
        crate::state::clone_string(&preset.created_at),
    );
    let mut adds: Vec<ModEntry> = Vec::new();
    let mut i: usize = 0;
    while i < preset.entries.len()
        invariant
            i <= preset.entries@.len(),
            adds@.len() == i,
        decreases preset.entries@.len() - i,
    {
        let e = &preset.entries[i];
        adds.push(
            creator_entry_to_mod_entry(
                CreatorPresetEntry {
                    source: crate::state::clone_string(&e.source),
                    project_id: crate::state::clone_string(&e.project_id),
                    title: crate::state::clone_string(&e.title),
                    content_type: crate::state::clone_string(&e.content_type),
                    enabled: e.enabled,
                    pinned_version: clone_opt(&e.pinned_version),
                    target_worlds: crate::session::copy_strings(&e.target_worlds),
                },
            ),
        );
        i = i + 1;
    }
    let ghost n = adds@.len();
    let user = &mut spec.layers[1];
    user.entries_delta.add = adds;
    spec
}

/// Append entries whose keys are not already present.
pub fn append_unique_entries(target: &mut Vec<ModEntry>, source: &Vec<ModEntry>)
    ensures
        final(target)@.len() >= old(target)@.len(),
{
    let mut i: usize = 0;
    while i < source.len()
        invariant
            i <= source@.len(),
            target@.len() >= old(target)@.len(),
        decreases source@.len() - i,
    {
        let key = entry_key_for(&source[i]);
        let mut present = false;
        let mut w: usize = 0;
        while w < target.len()
            invariant
                w <= target@.len(),
                i < source@.len(),
                target@.len() >= old(target)@.len(),
            decreases target@.len() - w,
        {
            let tkey = entry_key_for(&target[w]);
            if crate::text::str_eq(&tkey, &key) {
                present = true;
            }
            w = w + 1;
        }
        if !present {
            let e = duplicate_mod_entry(&source[i]);
            target.push(e);
        }
        i = i + 1;
    }
}

/// Append removal keys that are not already present.
pub fn append_unique_remove_keys(target: &mut Vec<EntryKey>, source: &Vec<EntryKey>)
    ensures
        final(target)@.len() >= old(target)@.len(),
{
    let mut i: usize = 0;
    while i < source.len()
        invariant
            i <= source@.len(),
            target@.len() >= old(target)@.len(),
        decreases source@.len() - i,
    {
        let key = entry_key(
            source[i].provider.as_str(),
            source[i].project_id.as_str(),
            source[i].content_type.as_str(),
        );
        let mut present = false;
        let mut w: usize = 0;
        while w < target.len()
            invariant
                w <= target@.len(),
                i < source@.len(),
                target@.len() >= old(target)@.len(),
            decreases target@.len() - w,
        {
            let tkey = entry_key(
                target[w].provider.as_str(),
                target[w].project_id.as_str(),
                target[w].content_type.as_str(),
            );
            if crate::text::str_eq(&tkey, &key) {
                present = true;
            }
            w = w + 1;
        }
        if !present {
            target.push(
                EntryKey {
                    provider: crate::state::clone_string(&source[i].provider),
                    project_id: crate::state::clone_string(&source[i].project_id),
                    content_type: crate::state::clone_string(&source[i].content_type),
                },
            );
        }
        i = i + 1;
    }
}

/// Fill the blanks of a specification before it is stored: ids and names
/// get placeholders, entries get normalized content types, and the default
/// profiles are guaranteed.
pub fn normalize_spec_for_write(spec: &mut ModpackSpec, now_iso: String, fresh_id: String)
    ensures
        final(spec).profiles@.len() > 0,
        final(spec).updated_at@ == now_iso@,
        trim_spec(old(spec).id@).len() > 0 ==> final(spec).id@ == old(spec).id@,
        trim_spec(old(spec).id@).len() == 0 ==> final(spec).id@ == fresh_id@,
{
    let id_t = crate::text::trim_string(spec.id.as_str());
    if id_t.as_str().is_empty() {
        spec.id = fresh_id;
    }
    let name_t = crate::text::trim_string(spec.name.as_str());
    if name_t.as_str().is_empty() {
        spec.name = crate::state::lit_string("Untitled modpack");
    }
    let created_t = crate::text::trim_string(spec.created_at.as_str());
    if created_t.as_str().is_empty() {
        spec.created_at = crate::state::clone_string(&now_iso);
    }
    spec.updated_at = now_iso;
    ensure_default_profiles(spec);
    proof {
        assert(final(spec).profiles@.len() > 0) by {
            if old(spec).profiles@.len() > 0 {
            }
        }
    }
}

/// The rationale line of a chosen version.
pub fn rationale_text(provider: &str, fallback_tier: u8, distance: u32, channel_rank: u8) -> (r:
    String)
    ensures
        r@.len() > 0,
{
    let mut out: Vec<char> = Vec::new();
    crate::text::push_str_chars(&mut out, "Chosen from ");
    crate::text::push_str_chars(&mut out, provider);
    crate::text::push_str_chars(&mut out, " using ");
    if fallback_tier == 0 {
        crate::text::push_str_chars(&mut out, "exact match");
    } else if fallback_tier == 1 {
        crate::text::push_str_chars(&mut out, "smart fallback");
    } else {
        crate::text::push_str_chars(&mut out, "loose fallback");
    }
    crate::text::push_str_chars(&mut out, " (distance ");
    crate::jsontext::push_dec_u64(&mut out, distance as u64);
    crate::text::push_str_chars(&mut out, ") with ");
    if channel_rank == 0 {
        crate::text::push_str_chars(&mut out, "stable");
    } else if channel_rank == 1 {
        crate::text::push_str_chars(&mut out, "beta/rc");
    } else {
        crate::text::push_str_chars(&mut out, "alpha");
    }
    crate::text::push_str_chars(&mut out, " channel.");
    proof {
        reveal_strlit("Chosen from ");
    }
    crate::text::string_from_chars(&out)
}

/// The fallback mode one entry resolves under: its own policy unless it
/// inherits the global one.
pub fn resolved_fallback_mode(entry: &ModEntry, settings: &ResolutionSettings) -> (r: String)
    ensures
        ({
            let own = lower_spec(trim_spec(entry.fallback_policy@));
            r@ == if own.len() == 0 || own == "inherit"@ {
                lower_spec(trim_spec(settings.global_fallback_mode@))
            } else {
                own
            }
        }),
{
    let own = crate::text::trim_lower(entry.fallback_policy.as_str());
    if own.as_str().is_empty() || str_eq_lit(&own, "inherit") {
        crate::text::trim_lower(settings.global_fallback_mode.as_str())
    } else {
        own
    }
}

/// The first three numeric parts of a release name, when it has at least
/// a major and a minor part.
pub fn parse_release_parts(input: &str) -> (r: Option<(i32, i32, i32)>)
{
    let v = crate::text::chars_vec(input);
    let t = crate::text::trim_chars(&v);
    if t.len() == 0 {
        return Option::None;
    }
    let mut numbers: Vec<i32> = Vec::new();
    let mut i: usize = 0;
    let mut cur: Option<i64> = Option::None;
    while i < t.len()
        invariant
            i <= t.len(),
            numbers@.len() <= 3,
            match cur {
                Option::Some(n) => 0 <= n <= 0x7fffffff,
                Option::None => true,
            },
        decreases t.len() - i,
    {
        let c = t[i];
        let d: Option<i64> = match c {
            '0' => Option::Some(0),
            '1' => Option::Some(1),
            '2' => Option::Some(2),
            '3' => Option::Some(3),
            '4' => Option::Some(4),
            '5' => Option::Some(5),
            '6' => Option::Some(6),
            '7' => Option::Some(7),
            '8' => Option::Some(8),
            '9' => Option::Some(9),
            _ => Option::None,
        };
        match (cur, d) {
            (Option::Some(acc), Option::Some(dv)) => {
                let next = if acc > 214_748_364 {
                    2_147_483_647i64
                } else {
                    let grown: i64 = acc * 10 + dv;
                    if grown > 2_147_483_647i64 {
                        2_147_483_647i64
                    } else {
                        grown
                    }
                };
                cur = Option::Some(next);
            },
            (Option::None, Option::Some(dv)) => {
                cur = Option::Some(dv);
            },
            (Option::Some(acc), Option::None) => {
                if numbers.len() < 3 {
                    numbers.push(acc as i32);
                }
                cur = Option::None;
            },
            (Option::None, Option::None) => {},
        }
        i = i + 1;
    }
    match cur {
        Option::Some(acc) => {
            if numbers.len() < 3 {
                numbers.push(acc as i32);
            }
        },
        Option::None => {},
    }
    if numbers.len() < 2 {
        return Option::None;
    }
    let major = numbers[0];
    let minor = numbers[1];
    let patch = if numbers.len() >= 3 {
        numbers[2]
    } else {
        0
    };
    Option::Some((major, minor, patch))
}

/// The release-channel rank a version text suggests, bounded by the policy
/// in force: `None` when the version's channel is above what the policy
/// allows.
pub fn infer_channel_rank(text: &str, entry: &ModEntry, settings: &ResolutionSettings) -> (r:
    Option<u8>)
    ensures
        match r {
            Option::Some(c) => c <= 2,
            Option::None => true,
        },
{
    let v = crate::text::chars_vec(text);
    let lower = crate::text::lower_chars(&v);
    let l = crate::text::string_from_chars(&lower);
    let candidate: u8 = if str_contains(&l, "alpha") || str_contains(&l, "snapshot") {
        2
    } else if str_contains(&l, "beta") || str_contains(&l, "pre") || str_contains(&l, "rc") {
        1
    } else {
        0
    };
    let own = crate::text::trim_lower(entry.channel_policy.as_str());
    let policy = if own.as_str().is_empty() || str_eq_lit(&own, "inherit") {
        crate::text::trim_lower(settings.channel_allowance.as_str())
    } else {
        own
    };
    let max_rank: u8 = if str_contains(&policy, "alpha") {
        2
    } else if str_contains(&policy, "beta") || str_contains(&policy, "rc") {
        1
    } else {
        0
    };
    if candidate > max_rank {
        Option::None
    } else {
        Option::Some(candidate)
    }
}

/// Whether `needle` occurs in `hay`.
fn str_contains(hay: &String, needle: &str) -> (r: bool)
{
    let h = crate::text::chars_vec(hay.as_str());
    let n = crate::text::chars_vec(needle);
    if n.len() == 0 {
        return true;
    }
    if h.len() < n.len() {
        return false;
    }
    let mut i: usize = 0;
    while i <= h.len() - n.len()
        invariant
            n.len() >= 1,
            h.len() >= n.len(),
            i <= h.len(),
        decreases h.len() - i,
    {
        let mut k: usize = 0;
        let mut all = true;
        while k < n.len()
            invariant
                k <= n.len(),
                i + n.len() <= h.len(),
            decreases n.len() - k,
        {
            if h[i + k] != n[k] {
                all = false;
            }
            k = k + 1;
        }
        if all {
            return true;
        }
        i = i + 1;
    }
    false
}

/// Whether a loader tag list admits the target loader; packs other than
/// mods, and versions without loader tags, always match.
pub fn loader_tags_match(tags: &Vec<String>, target_loader: &str) -> (r: bool)
{
    let target = crate::text::trim_lower(target_loader);
    let mut has_tag = false;
    let mut i: usize = 0;
    while i < tags.len()
        invariant
            i <= tags@.len(),
        decreases tags@.len() - i,
    {
        let t = crate::text::trim_lower(tags[i].as_str());
        if str_eq_lit(&t, "fabric") || str_eq_lit(&t, "forge") || str_eq_lit(&t, "quilt")
            || str_eq_lit(&t, "neoforge") || str_eq_lit(&t, "vanilla") {
            has_tag = true;
        }
        i = i + 1;
    }
    if !has_tag {
        return true;
    }
    let mut j: usize = 0;
    while j < tags.len()
        invariant
            j <= tags@.len(),
        decreases tags@.len() - j,
    {
        let t = crate::text::trim_lower(tags[j].as_str());
        let matches_target = crate::text::str_eq(&t, &target) || (str_eq_lit(&target, "neoforge")
            && (str_eq_lit(&t, "neo forge") || str_eq_lit(&t, "neo-forge"))) || (str_eq_lit(
            &target,
            "vanilla",
        ) && str_eq_lit(&t, "minecraft")) || str_eq_lit(&t, "minecraft");
        if matches_target {
            return true;
        }
        j = j + 1;
    }
    false
}

/// The fallback tier and distance of the best advertised version against
/// the target, under the mode and settings in force: `None` when nothing
/// admissible is advertised.
pub fn pick_best_mc_distance(
    advertised_versions: &Vec<String>,
    target_mc: &str,
    target_parts: Option<(i32, i32, i32)>,
    fallback_mode: &str,
    settings: &ResolutionSettings,
) -> (r: Option<(u8, u32)>)
    ensures
        match r {
            Option::Some(d) => d.0 <= 2 && d.1 <= settings.max_fallback_distance,
            Option::None => true,
        },
{
    let targetv = crate::text::chars_vec(target_mc);
    let mut i: usize = 0;
    while i < advertised_versions.len()
        invariant
            i <= advertised_versions@.len(),
        decreases advertised_versions@.len() - i,
    {
        let a = crate::text::chars_vec(advertised_versions[i].as_str());
        let t = crate::text::trim_chars(&a);
        if crate::text::chars_eq(&t, &targetv) {
            return Option::Some((0, 0));
        }
        i = i + 1;
    }
    let target = match target_parts {
        Option::Some(t) => t,
        Option::None => {
            return Option::None;
        },
    };
    let mut best: Option<(u8, u32)> = Option::None;
    let mut j: usize = 0;
    while j < advertised_versions.len()
        invariant
            j <= advertised_versions@.len(),
            match best {
                Option::Some(b) => b.0 <= 2 && b.1 <= settings.max_fallback_distance,
                Option::None => true,
            },
        decreases advertised_versions@.len() - j,
    {
        let parts = parse_release_parts(advertised_versions[j].as_str());
        match parts {
            Option::Some(p) => {
                let admissible = !(p.0 != target.0 && !settings.allow_cross_major) && !(p.0
                    == target.0 && p.1 != target.1 && !settings.allow_cross_minor) && !(p.0
                    > target.0) && !(p.0 == target.0 && p.1 > target.1) && !(p.0 == target.0 && p.1
                    == target.1 && p.2 > target.2);
                if admissible {
                    let dmaj: i64 = target.0 as i64 - p.0 as i64;
                    let dmin: i64 = target.1 as i64 - p.1 as i64;
                    let dpat: i64 = target.2 as i64 - p.2 as i64;
                    let amaj: i64 = if dmaj < 0 {
                        -dmaj
                    } else {
                        dmaj
                    };
                    let amin: i64 = if dmin < 0 {
                        -dmin
                    } else {
                        dmin
                    };
                    let apat: i64 = if dpat < 0 {
                        -dpat
                    } else {
                        dpat
                    };
                    let wide: i64 = if amaj > 20_000_000 {
                        4_294_967_295i64
                    } else {
                        let sum: i64 = amaj * 100 + amin * 10 + apat;
                        if sum > 4_294_967_295i64 {
                            4_294_967_295i64
                        } else {
                            sum
                        }
                    };
                    let distance: u32 = if wide > 4_294_967_295i64 || wide < 0 {
                        4_294_967_295u32
                    } else {
                        wide as u32
                    };
                    let tier: u8 = if p.0 == target.0 && p.1 == target.1 {
                        1
                    } else {
                        2
                    };
                    if distance <= settings.max_fallback_distance {
                        let better = match best {
                            Option::Some(b) => tier < b.0 || (tier == b.0 && distance < b.1),
                            Option::None => true,
                        };
                        if better {
                            best = Option::Some((tier, distance));
                        }
                    }
                }
            },
            Option::None => {},
        }
        j = j + 1;
    }
    let mode = crate::text::trim_lower(fallback_mode);
    if str_eq_lit(&mode, "strict") {
        Option::None
    } else if str_eq_lit(&mode, "loose") {
        best
    } else {
        match best {
            Option::Some(b) => {
                if b.0 <= 1 {
                    Option::Some(b)
                } else {
                    Option::None
                }
            },
            Option::None => Option::None,
        }
    }
}

} // verus!
