//! Path handling: the safety gate every untrusted relative path passes
//! through, the hard-excluded directory prefixes, allowlist matching, and
//! the on-disk locations of lock entries and stores.
use vstd::prelude::*;

use crate::state::{lit_string, normalized_content_type_spec, str_eq_lit};
use crate::text::{has_prefix, lower_spec, trim_spec};

verus! {

/// Backslashes replaced by forward slashes.
pub open spec fn slashify_spec(s: Seq<char>) -> Seq<char> {
    s.map_values(|c: char| if c == '\\' { '/' } else { c })
}

/// Leading slashes removed.
pub open spec fn strip_lead_slash_spec(s: Seq<char>) -> Seq<char>
    decreases s.len(),
{
    if s.len() > 0 && s[0] == '/' {
        strip_lead_slash_spec(s.drop_first())
    } else {
        s
    }
}

/// The normalized form of a raw relative path: slashes unified, whitespace
/// trimmed, leading slashes removed.
pub open spec fn norm_rel_path_spec(s: Seq<char>) -> Seq<char> {
    strip_lead_slash_spec(trim_spec(slashify_spec(s)))
}

/// Whether the path holds two consecutive dots anywhere.
pub open spec fn has_dotdot(s: Seq<char>) -> bool {
    exists|i: int| 0 <= i && i + 1 < s.len() && s[i] == '.' && #[trigger] s[i + 1] == '.'
}

/// The path-safety gate: normalize the raw path, reject it when empty or
/// when it holds a `..` segment. Every filesystem path derived from
/// untrusted input passes through here.
pub fn safe_rel_path(raw: &str) -> (r: Result<String, String>)
    ensures
        match r {
            Ok(p) => p@ == norm_rel_path_spec(raw@) && p@.len() > 0 && !has_dotdot(p@),
            Err(_) => norm_rel_path_spec(raw@).len() == 0 || has_dotdot(norm_rel_path_spec(raw@)),
        },
{
    let v = crate::text::chars_vec(raw);
    let mut slashed: Vec<char> = Vec::new();
    let mut i: usize = 0;
    while i < v.len()
        invariant
            i <= v.len(),
            slashed@.len() == i,
            forall|k: int|
                0 <= k < i ==> slashed@[k] == (if v@[k] == '\\' {
                    '/'
                } else {
                    v@[k]
                }),
        decreases v.len() - i,
    {
        let c = v[i];
        if c == '\\' {
            slashed.push('/');
        } else {
            slashed.push(c);
        }
        i = i + 1;
    }
    proof {
        assert(slashed@ =~= slashify_spec(v@));
    }
    let trimmed = crate::text::trim_chars(&slashed);
    let mut start: usize = 0;
    while start < trimmed.len() && trimmed[start] == '/'
        invariant
            start <= trimmed.len(),
            forall|k: int| 0 <= k < start ==> trimmed@[k] == '/',
        decreases trimmed.len() - start,
    {
        start = start + 1;
    }
    let mut out: Vec<char> = Vec::new();
    let mut j: usize = start;
    while j < trimmed.len()
        invariant
            start <= j <= trimmed.len(),
            out@ == trimmed@.subrange(start as int, j as int),
        decreases trimmed.len() - j,
    {
        out.push(trimmed[j]);
        j = j + 1;
        proof {
            assert(out@ =~= trimmed@.subrange(start as int, j as int));
        }
    }
    proof {
        lemma_strip_lead_slash(trimmed@, start as int);
        assert(out@ =~= trimmed@.subrange(start as int, trimmed@.len() as int));
        assert(out@ == norm_rel_path_spec(raw@));
    }
    if out.len() == 0 {
        return Err(lit_string("path is required"));
    }
    let mut k: usize = 0;
    while k < out.len() - 1
        invariant
            out@.len() > 0,
            k <= out@.len(),
            out@ == norm_rel_path_spec(raw@),
            forall|m: int| 0 <= m && m + 1 < out@.len() && m < k ==> !(out@[m] == '.' && #[trigger] out@[m + 1] == '.'),
        decreases out.len() - k,
    {
        if out[k] == '.' && out[k + 1] == '.' {
            proof {
                assert(has_dotdot(out@)) by {
                    assert(out@[k as int] == '.' && out@[k as int + 1] == '.');
                }
                assert(has_dotdot(norm_rel_path_spec(raw@)));
            }
            return Err(lit_string("path traversal is not allowed"));
        }
        k = k + 1;
    }
    proof {
        assert(!has_dotdot(out@));
    }
    Ok(crate::text::string_from_chars(&out))
}

proof fn lemma_strip_lead_slash(s: Seq<char>, i: int)
    requires
        0 <= i <= s.len(),
        forall|k: int| 0 <= k < i ==> s[k] == '/',
        i == s.len() || s[i] != '/',
    ensures
        strip_lead_slash_spec(s) == s.subrange(i, s.len() as int),
    decreases i,
{
    if i > 0 {
        assert(s[0] == '/');
        let t = s.drop_first();
        assert(strip_lead_slash_spec(s) == strip_lead_slash_spec(t));
        lemma_strip_lead_slash(t, i - 1);
        assert(t.subrange(i - 1, t.len() as int) =~= s.subrange(i, s.len() as int));
    } else {
        if s.len() > 0 {
            assert(s[0] != '/');
        }
        assert(s.subrange(0, s.len() as int) =~= s);
    }
}

/// Whether a lower-cased relative path starts with one of the directory
/// prefixes that are never synchronized.
pub open spec fn path_excluded_spec(s: Seq<char>) -> bool {
    let l = lower_spec(s);
    has_prefix(l, "saves/"@) || has_prefix(l, "logs/"@) || has_prefix(l, "crash-reports/"@)
        || has_prefix(l, "screenshots/"@) || has_prefix(l, "resourcepacks/"@) || has_prefix(
        l,
        "shaderpacks/"@,
    ) || has_prefix(l, "mods/"@)
}

/// The directory prefixes that are never synchronized as config files.
pub fn hard_excluded_prefixes() -> (r: Vec<String>)
    ensures
        r@.len() == 7,
        r@[0]@ == "saves/"@,
        r@[1]@ == "logs/"@,
        r@[2]@ == "crash-reports/"@,
        r@[3]@ == "screenshots/"@,
        r@[4]@ == "resourcepacks/"@,
        r@[5]@ == "shaderpacks/"@,
        r@[6]@ == "mods/"@,
{
    let mut out: Vec<String> = Vec::new();
    out.push(lit_string("saves/"));
    out.push(lit_string("logs/"));
    out.push(lit_string("crash-reports/"));
    out.push(lit_string("screenshots/"));
    out.push(lit_string("resourcepacks/"));
    out.push(lit_string("shaderpacks/"));
    out.push(lit_string("mods/"));
    out
}

/// Whether the path is rejected outright by the hard exclusion list.
pub fn path_is_excluded(rel_path: &str) -> (r: bool)
    ensures
        r == path_excluded_spec(rel_path@),
{
    let v = crate::text::chars_vec(rel_path);
    let l = crate::text::lower_chars(&v);
    let prefixes = hard_excluded_prefixes();
    let mut i: usize = 0;
    let mut hit = false;
    while i < prefixes.len()
        invariant
            i <= prefixes@.len(),
            prefixes@.len() == 7,
            prefixes@[0]@ == "saves/"@,
            prefixes@[1]@ == "logs/"@,
            prefixes@[2]@ == "crash-reports/"@,
            prefixes@[3]@ == "screenshots/"@,
            prefixes@[4]@ == "resourcepacks/"@,
            prefixes@[5]@ == "shaderpacks/"@,
            prefixes@[6]@ == "mods/"@,
            l@ == lower_spec(rel_path@),
            hit ==> path_excluded_spec(rel_path@),
            !hit ==> forall|m: int|
                0 <= m < i ==> !has_prefix(lower_spec(rel_path@), #[trigger] prefixes@[m]@),
        decreases prefixes@.len() - i,
    {
        let p = crate::text::chars_vec(prefixes[i].as_str());
        if crate::text::chars_have_prefix(&l, &p) {
            hit = true;
        }
        i = i + 1;
    }
    proof {
        if !hit {
            assert(!has_prefix(lower_spec(rel_path@), prefixes@[0]@));
            assert(!has_prefix(lower_spec(rel_path@), prefixes@[1]@));
            assert(!has_prefix(lower_spec(rel_path@), prefixes@[2]@));
            assert(!has_prefix(lower_spec(rel_path@), prefixes@[3]@));
            assert(!has_prefix(lower_spec(rel_path@), prefixes@[4]@));
            assert(!has_prefix(lower_spec(rel_path@), prefixes@[5]@));
            assert(!has_prefix(lower_spec(rel_path@), prefixes@[6]@));
        }
    }
    hit
}

/// The built-in allowlist used when the caller supplies none.
pub fn default_allowlist() -> (r: Vec<String>)
    ensures
        r@.len() == 4,
        r@[0]@ == "options.txt"@,
        r@[1]@ == "config/**/*.json"@,
        r@[2]@ == "config/**/*.toml"@,
        r@[3]@ == "config/**/*.properties"@,
{
    let mut out: Vec<String> = Vec::new();
    out.push(lit_string("options.txt"));
    out.push(lit_string("config/**/*.json"));
    out.push(lit_string("config/**/*.toml"));
    out.push(lit_string("config/**/*.properties"));
    out
}

/// The allowlist patterns that take part in glob matching: trimmed and
/// non-empty, in order.
pub open spec fn clean_patterns_spec(ps: Seq<Seq<char>>) -> Seq<Seq<char>>
    decreases ps.len(),
{
    if ps.len() == 0 {
        Seq::empty()
    } else if trim_spec(ps[0]).len() > 0 {
        seq![trim_spec(ps[0])] + clean_patterns_spec(ps.drop_first())
    } else {
        clean_patterns_spec(ps.drop_first())
    }
}

/// Whether a relative path takes part in config sync: hard-excluded paths
/// never do, `options.txt` always does, and everything else goes by the
/// allowlist glob set.
pub open spec fn path_allowed_spec(rel: Seq<char>, allowlist: Seq<Seq<char>>) -> bool {
    if path_excluded_spec(rel) {
        false
    } else if lower_spec(rel) == lower_spec("options.txt"@) {
        true
    } else if allowlist.len() == 0 {
        false
    } else {
        crate::trusted::glob_match_of(clean_patterns_spec(allowlist), rel)
    }
}

/// Decide whether a path is synchronized under the allowlist. `Err` only
/// when a pattern in the allowlist is not a well-formed glob. Paths and
/// patterns are forward-slashed by the time they reach matching, which the
/// glob wrapper demands for machine-independence.
pub fn path_matches_allowlist(rel_path: &str, allowlist: &Vec<String>) -> (r: Result<bool, String>)
    requires
        !rel_path@.contains('\\'),
        forall|i: int|
            0 <= i < allowlist@.len() ==> !(#[trigger] allowlist@[i])@.contains('\\'),
    ensures
        r matches Ok(b) ==> b == path_allowed_spec(rel_path@, strs_view_of(allowlist@)),
{
    if path_is_excluded(rel_path) {
        return Ok(false);
    }
    if crate::text::eq_ignore_case(rel_path, "options.txt") {
        return Ok(true);
    }
    if allowlist.len() == 0 {
        proof {
            assert(strs_view_of(allowlist@).len() == 0);
        }
        return Ok(false);
    }
    let mut clean: Vec<String> = Vec::new();
    let mut i: usize = 0;
    proof {
        assert(allowlist@.skip(0) =~= allowlist@);
    }
    while i < allowlist.len()
        invariant
            i <= allowlist@.len(),
            forall|m: int|
                0 <= m < allowlist@.len() ==> !(#[trigger] allowlist@[m])@.contains('\\'),
            forall|m: int| 0 <= m < clean@.len() ==> !(#[trigger] clean@[m])@.contains('\\'),
            clean_patterns_spec(strs_view_of(allowlist@)) == strs_view_of(clean@)
                + clean_patterns_spec(strs_view_of(allowlist@.skip(i as int))),
        decreases allowlist@.len() - i,
    {
        let ghost rem = strs_view_of(allowlist@.skip(i as int));
        proof {
            assert(rem[0] == allowlist@[i as int]@);
            assert(rem.drop_first() =~= strs_view_of(allowlist@.skip(i + 1)));
        }
        let t = crate::text::trim_string(allowlist[i].as_str());
        if t.as_str().is_empty() {
            proof {
                assert(strs_view_of(clean@) + clean_patterns_spec(
                    strs_view_of(allowlist@.skip(i + 1)),
                ) =~= strs_view_of(clean@) + clean_patterns_spec(rem.drop_first()));
            }
        } else {
            let ghost before = strs_view_of(clean@);
            let ghost before_vals = clean@;
            proof {
                crate::text::lemma_trim_keeps_absence(allowlist@[i as int]@, '\\');
            }
            clean.push(t);
            proof {
                assert(forall|m: int|
                    0 <= m < before_vals.len() ==> clean@[m] == #[trigger] before_vals[m]);
                assert(strs_view_of(clean@) =~= before.push(trim_spec(allowlist@[i as int]@)));
                assert(before.push(trim_spec(rem[0])) + clean_patterns_spec(rem.drop_first()) =~= before + (seq![trim_spec(rem[0])] + clean_patterns_spec(rem.drop_first())));
            }
        }
        i = i + 1;
    }
    proof {
        assert(strs_view_of(allowlist@.skip(allowlist@.len() as int)).len() == 0);
        assert(strs_view_of(clean@) + clean_patterns_spec(
            strs_view_of(allowlist@.skip(allowlist@.len() as int)),
        ) =~= strs_view_of(clean@));
    }
    let matched = crate::trusted::glob_set_is_match(&clean, rel_path);
    match matched {
        Ok(b) => {
            proof {
                assert(clean.deep_view() =~= strs_view_of(clean@));
            }
            Ok(b)
        },
        Err(e) => Err(e),
    }
}

/// The views of a string list.
pub open spec fn strs_view_of(s: Seq<String>) -> Seq<Seq<char>> {
    s.map_values(|x: String| x@)
}

/// The directory of one instance under the instances root.
pub fn instance_dir(instances_dir: &str, instance_id: &str) -> (r: String)
    ensures
        r@ == instances_dir@ + seq!['/'] + instance_id@,
{
    let mut out: Vec<char> = Vec::new();
    crate::text::push_str_chars(&mut out, instances_dir);
    out.push('/');
    crate::text::push_str_chars(&mut out, instance_id);
    proof {
        assert(out@ =~= instances_dir@ + seq!['/'] + instance_id@);
    }
    crate::text::string_from_chars(&out)
}

/// The lock file location of one instance.
pub fn lock_file_path(instances_dir: &str, instance_id: &str) -> (r: String)
    ensures
        r@ == instances_dir@ + seq!['/'] + instance_id@ + "/lock.json"@,
{
    let dir = instance_dir(instances_dir, instance_id);
    let mut out: Vec<char> = Vec::new();
    crate::text::push_str_chars(&mut out, dir.as_str());
    crate::text::push_str_chars(&mut out, "/lock.json");
    proof {
        assert(out@ =~= instances_dir@ + seq!['/'] + instance_id@ + "/lock.json"@);
    }
    crate::text::string_from_chars(&out)
}

/// The store file location under the application data directory.
pub fn store_path_from_app_data(app_data_dir: &str) -> (r: String)
    ensures
        r@ == app_data_dir@ + "/friend_link/store.v1.json"@,
{
    let mut out: Vec<char> = Vec::new();
    crate::text::push_str_chars(&mut out, app_data_dir);
    crate::text::push_str_chars(&mut out, "/friend_link/store.v1.json");
    proof {
        assert(out@ =~= app_data_dir@ + "/friend_link/store.v1.json"@);
    }
    crate::text::string_from_chars(&out)
}

/// The content directory a non-datapack content type lives in, relative to
/// the instance directory; `None` for datapacks and unknown types.
pub fn content_dir_for_type(content_type: &str) -> (r: Option<String>)
    ensures
        match r {
            Some(d) => normalized_content_type_spec(content_type@) == d@ && (d@ == "mods"@ || d@
                == "resourcepacks"@ || d@ == "shaderpacks"@),
            None => normalized_content_type_spec(content_type@) == "datapacks"@,
        },
{
    let ct = crate::state::normalized_content_type(content_type);
    if str_eq_lit(&ct, "mods") {
        Some(ct)
    } else if str_eq_lit(&ct, "resourcepacks") {
        Some(ct)
    } else if str_eq_lit(&ct, "shaderpacks") {
        Some(ct)
    } else {
        proof {
            let n = normalized_content_type_spec(content_type@);
            assert(n == "mods"@ || n == "resourcepacks"@ || n == "shaderpacks"@ || n
                == "datapacks"@);
        }
        None
    }
}

/// The datapack target paths: one per named, non-blank target world.
pub open spec fn datapack_paths_spec(
    dir: Seq<char>,
    worlds: Seq<Seq<char>>,
    filename: Seq<char>,
) -> Seq<Seq<char>>
    decreases worlds.len(),
{
    if worlds.len() == 0 {
        Seq::empty()
    } else if trim_spec(worlds[0]).len() > 0 {
        seq![dir + "/saves/"@ + trim_spec(worlds[0]) + "/datapacks/"@ + filename]
            + datapack_paths_spec(dir, worlds.drop_first(), filename)
    } else {
        datapack_paths_spec(dir, worlds.drop_first(), filename)
    }
}

/// Every on-disk location a lock entry's binary lives at: per-world
/// datapack paths, the enabled or disabled mod path, or the single pack
/// path for resource and shader packs.
pub open spec fn lock_entry_paths_spec(dir: Seq<char>, ev: crate::state::LockEntryView) -> Seq<
    Seq<char>,
> {
    let ct = normalized_content_type_spec(ev.content_type);
    if ct == "datapacks"@ {
        datapack_paths_spec(dir, ev.target_worlds, ev.filename)
    } else if ct == "mods"@ {
        if ev.enabled {
            seq![dir + "/mods/"@ + ev.filename]
        } else {
            seq![dir + "/mods/"@ + ev.filename + ".disabled"@]
        }
    } else {
        seq![dir + seq!['/'] + ct + seq!['/'] + ev.filename]
    }
}

/// Compute the target paths of one lock entry under an instance directory.
pub fn lock_entry_paths(instances_dir: &str, instance_id: &str, entry: &crate::state::CanonicalLockEntry) -> (r:
    Vec<String>)
    ensures
        strs_view_of(r@) == lock_entry_paths_spec(
            instances_dir@ + seq!['/'] + instance_id@,
            entry@,
        ),
{
    let dir = instance_dir(instances_dir, instance_id);
    let ct = crate::state::normalized_content_type(entry.content_type.as_str());
    let mut out: Vec<String> = Vec::new();
    if str_eq_lit(&ct, "datapacks") {
        let mut i: usize = 0;
        proof {
            assert(crate::state::strs_view(entry.target_worlds@).skip(0) =~= crate::state::strs_view(entry.target_worlds@));
        }
        while i < entry.target_worlds.len()
            invariant
                i <= entry.target_worlds@.len(),
                dir@ == instances_dir@ + seq!['/'] + instance_id@,
                normalized_content_type_spec(entry.content_type@) == "datapacks"@,
                datapack_paths_spec(
                    dir@,
                    crate::state::strs_view(entry.target_worlds@),
                    entry.filename@,
                ) == strs_view_of(out@) + datapack_paths_spec(
                    dir@,
                    crate::state::strs_view(entry.target_worlds@).skip(i as int),
                    entry.filename@,
                ),
            decreases entry.target_worlds@.len() - i,
        {
            let ghost rem = crate::state::strs_view(entry.target_worlds@).skip(i as int);
            proof {
                assert(rem[0] == entry.target_worlds@[i as int]@);
                assert(rem.drop_first() =~= crate::state::strs_view(entry.target_worlds@).skip(
                    i + 1,
                ));
            }
            let w = crate::text::trim_string(entry.target_worlds[i].as_str());
            if !w.as_str().is_empty() {
                let mut p: Vec<char> = Vec::new();
                crate::text::push_str_chars(&mut p, dir.as_str());
                crate::text::push_str_chars(&mut p, "/saves/");
                crate::text::push_str_chars(&mut p, w.as_str());
                crate::text::push_str_chars(&mut p, "/datapacks/");
                crate::text::push_str_chars(&mut p, entry.filename.as_str());
                let ghost before = strs_view_of(out@);
                out.push(crate::text::string_from_chars(&p));
                proof {
                    assert(strs_view_of(out@) =~= before.push(
                        dir@ + "/saves/"@ + trim_spec(rem[0]) + "/datapacks/"@ + entry.filename@,
                    ));
                    assert(before.push(
                        dir@ + "/saves/"@ + trim_spec(rem[0]) + "/datapacks/"@ + entry.filename@,
                    ) + datapack_paths_spec(dir@, rem.drop_first(), entry.filename@) =~= before + (
                    seq![dir@ + "/saves/"@ + trim_spec(rem[0]) + "/datapacks/"@ + entry.filename@]
                        + datapack_paths_spec(dir@, rem.drop_first(), entry.filename@)));
                }
            } else {
                proof {
                    assert(strs_view_of(out@) + datapack_paths_spec(
                        dir@,
                        rem.drop_first(),
                        entry.filename@,
                    ) =~= strs_view_of(out@) + datapack_paths_spec(dir@, rem, entry.filename@));
                }
            }
            i = i + 1;
        }
        proof {
            let all = crate::state::strs_view(entry.target_worlds@);
            assert(all.skip(all.len() as int).len() == 0);
            assert(strs_view_of(out@) + datapack_paths_spec(
                dir@,
                all.skip(all.len() as int),
                entry.filename@,
            ) =~= strs_view_of(out@));
        }
        return out;
    }
    if str_eq_lit(&ct, "mods") {
        let mut p: Vec<char> = Vec::new();
        crate::text::push_str_chars(&mut p, dir.as_str());
        crate::text::push_str_chars(&mut p, "/mods/");
        crate::text::push_str_chars(&mut p, entry.filename.as_str());
        if !entry.enabled {
            crate::text::push_str_chars(&mut p, ".disabled");
        }
        proof {
            if entry.enabled {
                assert(p@ =~= dir@ + "/mods/"@ + entry.filename@);
            } else {
                assert(p@ =~= dir@ + "/mods/"@ + entry.filename@ + ".disabled"@);
            }
        }
        out.push(crate::text::string_from_chars(&p));
        proof {
            if entry.enabled {
                assert(strs_view_of(out@) =~= seq![dir@ + "/mods/"@ + entry.filename@]);
            } else {
                assert(strs_view_of(out@) =~= seq![
                    dir@ + "/mods/"@ + entry.filename@ + ".disabled"@,
                ]);
            }
        }
        return out;
    }
    let mut p: Vec<char> = Vec::new();
    crate::text::push_str_chars(&mut p, dir.as_str());
    p.push('/');
    crate::text::push_str_chars(&mut p, ct.as_str());
    p.push('/');
    crate::text::push_str_chars(&mut p, entry.filename.as_str());
    proof {
        assert(p@ =~= dir@ + seq!['/'] + ct@ + seq!['/'] + entry.filename@);
    }
    out.push(crate::text::string_from_chars(&p));
    proof {
        let n = normalized_content_type_spec(entry.content_type@);
        assert(ct@ == n);
        assert(strs_view_of(out@) =~= seq![dir@ + seq!['/'] + n + seq!['/'] + entry.filename@]);
    }
    out
}

/// Whether the entry's binary is missing: no target path, or some target
/// path absent from the list of files present on disk.
pub fn lock_entry_file_missing(paths: &Vec<String>, files_present: &Vec<String>) -> (r: bool)
    ensures
        r == (paths@.len() == 0 || exists|i: int|
            0 <= i < paths@.len() && !strs_view_of(files_present@).contains(
                #[trigger] strs_view_of(paths@)[i],
            )),
{
    if paths.len() == 0 {
        return true;
    }
    let mut i: usize = 0;
    while i < paths.len()
        invariant
            i <= paths@.len(),
            forall|m: int|
                0 <= m < i ==> strs_view_of(files_present@).contains(
                    #[trigger] strs_view_of(paths@)[m],
                ),
        decreases paths@.len() - i,
    {
        let mut found = false;
        let mut j: usize = 0;
        while j < files_present.len()
            invariant
                i < paths@.len(),
                j <= files_present@.len(),
                found ==> strs_view_of(files_present@).contains(strs_view_of(paths@)[i as int]),
                !found ==> forall|m: int|
                    0 <= m < j ==> #[trigger] strs_view_of(files_present@)[m] != strs_view_of(
                        paths@,
                    )[i as int],
            decreases files_present@.len() - j,
        {
            proof {
                assert(strs_view_of(files_present@)[j as int] == files_present@[j as int]@);
                assert(strs_view_of(paths@)[i as int] == paths@[i as int]@);
            }
            if crate::text::str_eq(&paths[i], &files_present[j]) {
                found = true;
                proof {
                    assert(strs_view_of(files_present@)[j as int] == strs_view_of(
                        paths@,
                    )[i as int]);
                }
            }
            j = j + 1;
        }
        if !found {
            proof {
                assert(!strs_view_of(files_present@).contains(strs_view_of(paths@)[i as int]));
            }
            return true;
        }
        i = i + 1;
    }
    false
}

/// The editor kind shown for a config file, from its extension.
pub open spec fn infer_file_kind_spec(path: Seq<char>) -> Seq<char> {
    let l = lower_spec(path);
    if has_suffix(l, ".json"@) {
        "json"@
    } else if has_suffix(l, ".toml"@) {
        "toml"@
    } else if has_suffix(l, ".properties"@) {
        "properties"@
    } else if has_suffix(l, ".txt"@) {
        "text"@
    } else {
        "file"@
    }
}

/// Whether `p` is a suffix of `s`.
pub open spec fn has_suffix(s: Seq<char>, p: Seq<char>) -> bool {
    p.len() <= s.len() && s.subrange(s.len() - p.len(), s.len() as int) == p
}

fn chars_have_suffix(s: &Vec<char>, p: &Vec<char>) -> (r: bool)
    ensures
        r == has_suffix(s@, p@),
{
    if p.len() > s.len() {
        return false;
    }
    let base = s.len() - p.len();
    let mut i: usize = 0;
    while i < p.len()
        invariant
            p.len() <= s.len(),
            base == s.len() - p.len(),
            i <= p.len(),
            forall|k: int| 0 <= k < i ==> s@[base + k] == p@[k],
        decreases p.len() - i,
    {
        if s[base + i] != p[i] {
            proof {
                assert(s@.subrange(s@.len() - p@.len(), s@.len() as int)[i as int] == s@[base + i]);
            }
            return false;
        }
        i = i + 1;
    }
    proof {
        assert(s@.subrange(s@.len() - p@.len(), s@.len() as int) =~= p@);
    }
    true
}

/// Classify a config file by its extension for display purposes.
pub fn infer_file_kind(path: &str) -> (r: String)
    ensures
        r@ == infer_file_kind_spec(path@),
{
    let v = crate::text::chars_vec(path);
    let l = crate::text::lower_chars(&v);
    let json = crate::text::chars_vec(".json");
    let toml = crate::text::chars_vec(".toml");
    let props = crate::text::chars_vec(".properties");
    let txt = crate::text::chars_vec(".txt");
    if chars_have_suffix(&l, &json) {
        lit_string("json")
    } else if chars_have_suffix(&l, &toml) {
        lit_string("toml")
    } else if chars_have_suffix(&l, &props) {
        lit_string("properties")
    } else if chars_have_suffix(&l, &txt) {
        lit_string("text")
    } else {
        lit_string("file")
    }
}

/// The lower-cased extension of the path's last component, empty when the
/// file name holds no dot after its first character.
pub open spec fn path_ext_spec(path: Seq<char>) -> Seq<char> {
    ext_of_name(last_component(path))
}

/// The last `/`-separated component of a path.
pub open spec fn last_component(path: Seq<char>) -> Seq<char>
    decreases path.len(),
{
    if path.len() == 0 {
        path
    } else if path[path.len() - 1] == '/' {
        Seq::empty()
    } else {
        last_component_rec(path)
    }
}

/// The trailing run of non-slash characters.
pub open spec fn last_component_rec(path: Seq<char>) -> Seq<char>
    decreases path.len(),
{
    if path.len() == 0 {
        path
    } else if path[path.len() - 1] == '/' {
        Seq::empty()
    } else {
        last_component_rec(path.drop_last()).push(path[path.len() - 1])
    }
}

/// The lower-cased text after the last dot of a file name, empty when the
/// name has no usable extension.
pub open spec fn ext_of_name(name: Seq<char>) -> Seq<char>
    decreases name.len(),
{
    if name.len() <= 1 {
        Seq::empty()
    } else if name[name.len() - 1] == '.' {
        Seq::empty()
    } else {
        ext_scan(name.drop_last(), seq![name[name.len() - 1]])
    }
}

/// Scan backwards for a dot, accumulating the candidate extension.
pub open spec fn ext_scan(prefix: Seq<char>, acc: Seq<char>) -> Seq<char>
    decreases prefix.len(),
{
    if prefix.len() <= 1 {
        Seq::empty()
    } else if prefix[prefix.len() - 1] == '.' {
        lower_spec(acc)
    } else {
        ext_scan(prefix.drop_last(), seq![prefix[prefix.len() - 1]] + acc)
    }
}

/// Whether the extension belongs to the editable text whitelist.
pub open spec fn editable_ext_spec(ext: Seq<char>) -> bool {
    ext == "json"@ || ext == "toml"@ || ext == "properties"@ || ext == "txt"@ || ext == "cfg"@
        || ext == "conf"@ || ext == "ini"@
}

/// Why a config file cannot be edited: a file outside the text whitelist
/// whose sampled prefix holds a NUL byte is treated as binary.
pub fn describe_non_editable_reason(path: &str, sample: &Vec<u8>) -> (r: Option<String>)
    ensures
        match r {
            Some(msg) => !editable_ext_spec(path_ext_spec(path@)) && sample@.contains(0u8) && msg@
                == "Binary file cannot be edited here."@,
            None => editable_ext_spec(path_ext_spec(path@)) || !sample@.contains(0u8),
        },
{
    let ext = path_extension(path);
    let editable = str_eq_lit(&ext, "json") || str_eq_lit(&ext, "toml") || str_eq_lit(
        &ext,
        "properties",
    ) || str_eq_lit(&ext, "txt") || str_eq_lit(&ext, "cfg") || str_eq_lit(&ext, "conf")
        || str_eq_lit(&ext, "ini");
    if editable {
        return None;
    }
    let mut i: usize = 0;
    while i < sample.len()
        invariant
            i <= sample@.len(),
            !editable_ext_spec(path_ext_spec(path@)),
            forall|m: int| 0 <= m < i ==> sample@[m] != 0u8,
        decreases sample@.len() - i,
    {
        if sample[i] == 0u8 {
            proof {
                assert(sample@.contains(0u8)) by {
                    assert(sample@[i as int] == 0u8);
                }
            }
            return Some(lit_string("Binary file cannot be edited here."));
        }
        i = i + 1;
    }
    proof {
        if sample@.contains(0u8) {
            let w = choose|w: int| 0 <= w < sample@.len() && sample@[w] == 0u8;
            assert(false);
        }
    }
    None
}

/// The lower-cased extension of a path's file name.
fn path_extension(path: &str) -> (r: String)
    ensures
        r@ == path_ext_spec(path@),
{
    let v = crate::text::chars_vec(path);
    // Find the last component.
    let mut start: usize = v.len();
    while start > 0 && v[start - 1] != '/'
        invariant
            start <= v.len(),
            forall|m: int| start <= m < v@.len() ==> v@[m] != '/',
        decreases start,
    {
        start = start - 1;
    }
    let mut name: Vec<char> = Vec::new();
    let mut i: usize = start;
    while i < v.len()
        invariant
            start <= i <= v.len(),
            name@ == v@.subrange(start as int, i as int),
        decreases v.len() - i,
    {
        name.push(v[i]);
        i = i + 1;
        proof {
            assert(name@ =~= v@.subrange(start as int, i as int));
        }
    }
    proof {
        lemma_last_component(v@, start as int);
        assert(name@ =~= v@.subrange(start as int, v@.len() as int));
    }
    // Find the last dot strictly after the first character.
    let n = name.len();
    if n <= 1 {
        return String::new();
    }
    let mut dot: usize = n;
    let mut k: usize = n;
    while k > 1
        invariant
            1 <= k <= n,
            n == name@.len(),
            dot == n || (k <= dot < n && name@[dot as int] == '.'),
            dot < n ==> forall|m: int| dot < m < n ==> name@[m] != '.',
            dot == n ==> forall|m: int| k <= m < n ==> name@[m] != '.',
        decreases k,
    {
        if name[k - 1] == '.' && dot == n {
            dot = k - 1;
        }
        k = k - 1;
    }
    if dot == n || dot == n - 1 {
        proof {
            lemma_ext_empty(name@, dot as int);
        }
        return String::new();
    }
    let mut ext: Vec<char> = Vec::new();
    let mut m: usize = dot + 1;
    while m < n
        invariant
            dot + 1 <= m <= n,
            n == name@.len(),
            ext@ == name@.subrange(dot + 1, m as int),
        decreases n - m,
    {
        ext.push(name[m]);
        m = m + 1;
        proof {
            assert(ext@ =~= name@.subrange(dot + 1, m as int));
        }
    }
    let low = crate::text::lower_chars(&ext);
    proof {
        lemma_ext_found(name@, dot as int);
        assert(ext@ =~= name@.subrange(dot + 1, name@.len() as int));
    }
    crate::text::string_from_chars(&low)
}

proof fn lemma_last_component(path: Seq<char>, start: int)
    requires
        0 <= start <= path.len(),
        forall|m: int| start <= m < path.len() ==> path[m] != '/',
        start > 0 ==> path[start - 1] == '/',
    ensures
        last_component(path) == path.subrange(start, path.len() as int),
{
    lemma_last_component_rec(path, start);
    if path.len() == 0 {
        assert(path.subrange(0, 0) =~= path);
    } else if path[path.len() - 1] == '/' {
        assert(start == path.len());
        assert(path.subrange(start, path.len() as int) =~= Seq::<char>::empty());
    }
}

proof fn lemma_last_component_rec(path: Seq<char>, start: int)
    requires
        0 <= start <= path.len(),
        forall|m: int| start <= m < path.len() ==> path[m] != '/',
        start > 0 ==> path[start - 1] == '/',
    ensures
        path.len() > 0 && path[path.len() - 1] != '/' ==> last_component_rec(path) == path.subrange(
            start,
            path.len() as int,
        ),
    decreases path.len(),
{
    if path.len() > 0 && path[path.len() - 1] != '/' {
        assert(start < path.len());
        let t = path.drop_last();
        if start == path.len() - 1 {
            assert(t.len() == 0 || t[t.len() - 1] == '/');
            if t.len() == 0 {
                assert(last_component_rec(t) == t);
                assert(t =~= Seq::<char>::empty());
            }
            assert(last_component_rec(path) == last_component_rec(t).push(path[path.len() - 1]));
            assert(last_component_rec(t) =~= Seq::<char>::empty());
            assert(last_component_rec(path) =~= path.subrange(start, path.len() as int));
        } else {
            assert(forall|m: int| start <= m < t.len() ==> t[m] != '/');
            lemma_last_component_rec(t, start);
            assert(last_component_rec(t) == t.subrange(start, t.len() as int));
            assert(t.subrange(start, t.len() as int).push(path[path.len() - 1]) =~= path.subrange(
                start,
                path.len() as int,
            ));
        }
    }
}

proof fn lemma_ext_empty(name: Seq<char>, dot: int)
    requires
        name.len() > 1,
        dot == name.len() || dot == name.len() - 1,
        dot < name.len() ==> name[dot] == '.',
        dot == name.len() ==> forall|m: int| 1 <= m < name.len() ==> name[m] != '.',
    ensures
        ext_of_name(name) == Seq::<char>::empty(),
{
    if dot == name.len() - 1 {
    } else {
        assert(name[name.len() - 1] != '.');
        lemma_ext_scan_none(name.drop_last(), seq![name[name.len() - 1]]);
    }
}

proof fn lemma_ext_scan_none(prefix: Seq<char>, acc: Seq<char>)
    requires
        forall|m: int| 1 <= m < prefix.len() ==> prefix[m] != '.',
    ensures
        ext_scan(prefix, acc) == Seq::<char>::empty(),
    decreases prefix.len(),
{
    if prefix.len() > 1 {
        assert(prefix[prefix.len() - 1] != '.');
        lemma_ext_scan_none(prefix.drop_last(), seq![prefix[prefix.len() - 1]] + acc);
    }
}

proof fn lemma_ext_found(name: Seq<char>, dot: int)
    requires
        name.len() > 1,
        1 <= dot < name.len() - 1,
        name[dot] == '.',
        forall|m: int| dot < m < name.len() ==> name[m] != '.',
    ensures
        ext_of_name(name) == lower_spec(name.subrange(dot + 1, name.len() as int)),
{
    assert(name[name.len() - 1] != '.');
    lemma_ext_scan_found(name.drop_last(), seq![name[name.len() - 1]], dot, name);
}

proof fn lemma_ext_scan_found(prefix: Seq<char>, acc: Seq<char>, dot: int, orig: Seq<char>)
    requires
        1 <= dot < prefix.len(),
        prefix[dot] == '.',
        forall|m: int| dot < m < prefix.len() ==> prefix[m] != '.',
        prefix.len() < orig.len(),
        prefix =~= orig.subrange(0, prefix.len() as int),
        acc =~= orig.subrange(prefix.len() as int, orig.len() as int),
        forall|m: int| dot < m < orig.len() ==> orig[m] != '.',
    ensures
        ext_scan(prefix, acc) == lower_spec(orig.subrange(dot + 1, orig.len() as int)),
    decreases prefix.len(),
{
    if prefix.len() - 1 == dot {
        assert(ext_scan(prefix, acc) == lower_spec(acc));
        assert(acc =~= orig.subrange(dot + 1, orig.len() as int));
    } else {
        assert(prefix[prefix.len() - 1] != '.');
        let t = prefix.drop_last();
        assert(t =~= orig.subrange(0, t.len() as int));
        assert(seq![prefix[prefix.len() - 1]] + acc =~= orig.subrange(
            t.len() as int,
            orig.len() as int,
        ));
        lemma_ext_scan_found(t, seq![prefix[prefix.len() - 1]] + acc, dot, orig);
    }
}

/// One-line preview of a lock entry: name, version, source and type.
pub fn preview_for_lock_entry(entry: &crate::state::CanonicalLockEntry) -> (r: String)
    ensures
        r@ == entry.name@ + seq![' '] + entry.version_number@ + seq![' '] + entry.source@ + seq![
            ' ',
        ] + entry.content_type@,
{
    let mut out: Vec<char> = Vec::new();
    crate::text::push_str_chars(&mut out, entry.name.as_str());
    out.push(' ');
    crate::text::push_str_chars(&mut out, entry.version_number.as_str());
    out.push(' ');
    crate::text::push_str_chars(&mut out, entry.source.as_str());
    out.push(' ');
    crate::text::push_str_chars(&mut out, entry.content_type.as_str());
    proof {
        assert(out@ =~= entry.name@ + seq![' '] + entry.version_number@ + seq![' ']
            + entry.source@ + seq![' '] + entry.content_type@);
    }
    crate::text::string_from_chars(&out)
}

/// One-line preview of a config file: path and hash.
pub fn preview_for_config_file(file: &crate::state::ConfigFileState) -> (r: String)
    ensures
        r@ == file.path@ + " ("@ + file.hash@ + seq![')'],
{
    let mut out: Vec<char> = Vec::new();
    crate::text::push_str_chars(&mut out, file.path.as_str());
    crate::text::push_str_chars(&mut out, " (");
    crate::text::push_str_chars(&mut out, file.hash.as_str());
    out.push(')');
    proof {
        assert(out@ =~= file.path@ + " ("@ + file.hash@ + seq![')']);
    }
    crate::text::string_from_chars(&out)
}

} // verus!
