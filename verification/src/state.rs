//! The canonical view of one instance: lock entries, config file records,
//! and the deterministic content hash over both. Normalization here makes
//! the hash invariant to field noise: hash-map ordering, duplicate hash
//! algorithms, whitespace and case in digests, and world-list ordering.
use vstd::prelude::*;

use crate::trusted::sha256_hex_of;
use crate::jsontext::{dec_i64_spec, esc_str, jstr_spec, push_json_string};
use crate::text::{
    despace_lower_spec, is_space, is_space_char, lower_spec, seq_le, trim_lower, trim_spec,
    trim_string,
};

verus! {

/// The metadata record for one tracked content item.
pub struct CanonicalLockEntry {
    pub source: String,
    pub project_id: String,
    pub version_id: String,
    pub name: String,
    pub version_number: String,
    pub filename: String,
    pub content_type: String,
    pub target_scope: String,
    pub target_worlds: Vec<String>,
    pub enabled: bool,
    pub hashes: Vec<(String, String)>,
}

/// One synchronized text configuration file.
pub struct ConfigFileState {
    pub path: String,
    pub modified_at: i64,
    pub hash: String,
    pub content: String,
}

/// A whole instance view: entries, config files, and their content hash.
pub struct SyncState {
    pub state_hash: String,
    pub lock_entries: Vec<CanonicalLockEntry>,
    pub config_files: Vec<ConfigFileState>,
}

/// Strict order on character sequences: ordered and distinct.
pub open spec fn seq_lt(a: Seq<char>, b: Seq<char>) -> bool {
    seq_le(a, b) && a != b
}

/// The normalized form of a hash-algorithm name.
pub open spec fn norm_key_spec(k: Seq<char>) -> Seq<char> {
    lower_spec(trim_spec(k))
}

/// The normalized form of a digest value: all whitespace removed,
/// ASCII letters lower-cased.
pub open spec fn norm_val_spec(v: Seq<char>) -> Seq<char> {
    despace_lower_spec(v)
}

/// The views of a pair list.
pub open spec fn pairs_view(s: Seq<(String, String)>) -> Seq<(Seq<char>, Seq<char>)> {
    s.map_values(|p: (String, String)| (p.0@, p.1@))
}

/// Whether a raw pair survives normalization: neither side collapses
/// to the empty string.
pub open spec fn pair_admitted(p: (Seq<char>, Seq<char>)) -> bool {
    norm_key_spec(p.0).len() > 0 && norm_val_spec(p.1).len() > 0
}

/// Whether some admitted input pair normalizes to the key `k`.
pub open spec fn admits_key(iv: Seq<(Seq<char>, Seq<char>)>, k: Seq<char>) -> bool {
    exists|i: int|
        0 <= i < iv.len() && #[trigger] pair_admitted(iv[i]) && norm_key_spec(iv[i].0) == k
}

/// Whether `v` is the least normalized value any admitted input pair
/// with key `k` carries.
pub open spec fn is_min_val(iv: Seq<(Seq<char>, Seq<char>)>, k: Seq<char>, v: Seq<char>) -> bool {
    &&& exists|i: int|
        0 <= i < iv.len() && #[trigger] pair_admitted(iv[i]) && norm_key_spec(iv[i].0) == k
            && norm_val_spec(iv[i].1) == v
    &&& forall|i: int|
        0 <= i < iv.len() && #[trigger] pair_admitted(iv[i]) && norm_key_spec(iv[i].0) == k
            ==> seq_le(v, norm_val_spec(iv[i].1))
}

/// Whether the pair list has strictly increasing keys.
pub open spec fn pairs_sorted(pv: Seq<(Seq<char>, Seq<char>)>) -> bool {
    forall|i: int, j: int| 0 <= i < j < pv.len() ==> seq_lt(#[trigger] pv[i].0, #[trigger] pv[j].0)
}

/// Whether the pair list carries the key `k`.
pub open spec fn pairs_have_key(pv: Seq<(Seq<char>, Seq<char>)>, k: Seq<char>) -> bool {
    exists|i: int| 0 <= i < pv.len() && #[trigger] pv[i].0 == k
}

/// What `normalized_hashes_pairs` promises of its result against its input:
/// sorted unique keys, exactly the admitted keys, each carrying the least
/// normalized value seen for it.
pub open spec fn normalized_pairs_ok(
    iv: Seq<(Seq<char>, Seq<char>)>,
    pv: Seq<(Seq<char>, Seq<char>)>,
) -> bool {
    &&& pairs_sorted(pv)
    &&& forall|k: Seq<char>| #[trigger] pairs_have_key(pv, k) ==> admits_key(iv, k)
    &&& forall|k: Seq<char>| #[trigger] admits_key(iv, k) ==> pairs_have_key(pv, k)
    &&& forall|n: int| 0 <= n < pv.len() ==> is_min_val(iv, #[trigger] pv[n].0, pv[n].1)
}

/// Remove all whitespace and lower-case ASCII letters, as digest values
/// are normalized.
pub fn normalize_hash_value(input: &str) -> (r: String)
    ensures
        r@ == norm_val_spec(input@),
{
    let v = crate::text::chars_vec(input);
    let mut out: Vec<char> = Vec::new();
    let mut i: usize = 0;
    proof {
        assert(v@.skip(0) =~= v@);
    }
    while i < v.len()
        invariant
            i <= v.len(),
            despace_lower_spec(v@) == out@ + despace_lower_spec(v@.skip(i as int)),
        decreases v.len() - i,
    {
        let ghost rem = v@.skip(i as int);
        proof {
            assert(rem[0] == v@[i as int]);
            assert(rem.drop_first() =~= v@.skip(i + 1));
        }
        let c = v[i];
        if !is_space(c) {
            out.push(crate::text::lower_char(c));
            proof {
                assert(out@.drop_last() + despace_lower_spec(rem) =~= out@
                    + despace_lower_spec(v@.skip(i + 1)));
            }
        }
        i = i + 1;
    }
    proof {
        assert(v@.skip(v@.len() as int).len() == 0);
        assert(out@ + despace_lower_spec(v@.skip(v@.len() as int)) =~= out@);
    }
    crate::text::string_from_chars(&out)
}

/// Insert a normalized pair into a key-sorted list, keeping the least
/// value when the key is already present.
#[verifier::rlimit(100)]
#[verifier::spinoff_prover]
fn insert_pair_min(out: &mut Vec<(String, String)>, nk: String, nv: String)
    requires
        pairs_sorted(pairs_view(old(out)@)),
    ensures
        pairs_sorted(pairs_view(final(out)@)),
        forall|k: Seq<char>| #[trigger]
            pairs_have_key(pairs_view(final(out)@), k) <==> (pairs_have_key(
                pairs_view(old(out)@),
                k,
            ) || k == nk@),
        forall|n: int|
            0 <= n < final(out)@.len() && final(out)@[n].0@ != nk@ ==> exists|m: int|
                0 <= m < old(out)@.len() && #[trigger] pairs_view(old(out)@)[m] == pairs_view(
                    final(out)@,
                )[n],
        forall|n: int|
            0 <= n < final(out)@.len() && final(out)@[n].0@ == nk@ ==> ({
                let v = #[trigger] final(out)@[n].1@;
                &&& (v == nv@ || exists|m: int|
                    0 <= m < old(out)@.len() && #[trigger] pairs_view(old(out)@)[m] == (nk@, v))
                &&& seq_le(v, nv@)
                &&& forall|m: int|
                    0 <= m < old(out)@.len() && #[trigger] old(out)@[m].0@ == nk@ ==> seq_le(
                        v,
                        old(out)@[m].1@,
                    )
            }),
{
    let n = out.len();
    let idx = pair_lower_bound(out, &nk);
    proof {
        // A key strictly below `nk` everywhere before `idx` means any
        // occurrence of `nk` in the old list sits at `idx` or later; by
        // sortedness it can only sit at `idx`.
        assert forall|m: int|
            0 <= m < old(out)@.len() && #[trigger] old(out)@[m].0@ == nk@ implies m >= idx by {
            if m < idx {
                assert(seq_lt(old(out)@[m].0@, nk@));
            }
        }
    }
    if idx < n {
        let same = crate::text::str_eq(&out[idx].0, &nk);
        if same {
            proof {
                assert forall|m: int|
                    0 <= m < old(out)@.len() && #[trigger] old(out)@[m].0@ == nk@ implies m
                    == idx by {
                    if m > idx {
                        assert(seq_lt(pairs_view(old(out)@)[idx as int].0, pairs_view(
                            old(out)@,
                        )[m].0));
                    }
                }
            }
            let keep_new = crate::text::str_lt_probe(&nv, &out[idx].1);
            if keep_new {
                let ghost before = out@;
                out[idx] = (nk, nv);
                proof {
                    lemma_insert_pair_replace(before, out@, idx as int);
                    crate::text::lemma_seq_le_refl(nv@);
                    assert forall|w: int|
                        0 <= w < out@.len() && out@[w].0@ != nk@ implies exists|m: int|
                        0 <= m < before.len() && #[trigger] pairs_view(before)[m] == pairs_view(
                            out@,
                        )[w] by {
                        assert(w != idx);
                        assert(pairs_view(before)[w] == pairs_view(out@)[w]);
                    }
                    assert forall|w: int|
                        0 <= w < out@.len() && out@[w].0@ == nk@ implies w == idx by {
                        if w != idx {
                            assert(before[w].0@ == nk@);
                        }
                    }
                }
            } else {
                proof {
                    assert(pairs_have_key(pairs_view(out@), nk@)) by {
                        assert(pairs_view(out@)[idx as int].0 == nk@);
                    }
                    assert forall|w: int|
                        0 <= w < out@.len() && out@[w].0@ != nk@ implies exists|m: int|
                        0 <= m < out@.len() && #[trigger] pairs_view(out@)[m] == pairs_view(
                            out@,
                        )[w] by {
                        assert(pairs_view(out@)[w] == pairs_view(out@)[w]);
                    }
                    // The value kept at `idx` is no larger than the new one.
                    let v = out@[idx as int].1@;
                    crate::text::lemma_seq_le_total(nv@, v);
                    crate::text::lemma_seq_le_refl(v);
                    assert(seq_le(v, nv@));
                    assert forall|w: int|
                        0 <= w < out@.len() && out@[w].0@ == nk@ implies w == idx by {
                        if w > idx {
                            assert(seq_lt(pairs_view(out@)[idx as int].0, pairs_view(out@)[w].0));
                        }
                    }
                }
            }
            return ;
        }
        proof {
            // `nk` is absent from the old list: everything from `idx` on is
            // strictly above it.
            assert(!seq_lt(out@[idx as int].0@, nk@) && out@[idx as int].0@ != nk@);
            crate::text::lemma_seq_le_total(out@[idx as int].0@, nk@);
            assert(seq_lt(nk@, out@[idx as int].0@));
            assert forall|m: int| 0 <= m < out@.len() implies #[trigger] out@[m].0@ != nk@ by {
                if m < idx {
                    assert(seq_lt(out@[m].0@, nk@));
                } else if m > idx {
                    assert(seq_lt(pairs_view(out@)[idx as int].0, pairs_view(out@)[m].0));
                    crate::text::lemma_seq_le_trans(nk@, out@[idx as int].0@, out@[m].0@);
                    if out@[m].0@ == nk@ {
                        crate::text::lemma_seq_le_antisym(nk@, out@[idx as int].0@);
                    }
                }
            }
        }
        let ghost before = out@;
        out.insert(idx, (nk, nv));
        proof {
            lemma_insert_pair_fresh(before, out@, idx as int);
            crate::text::lemma_seq_le_refl(nv@);
            assert forall|w: int|
                0 <= w < out@.len() && out@[w].0@ != nk@ implies exists|m: int|
                0 <= m < before.len() && #[trigger] pairs_view(before)[m] == pairs_view(
                    out@,
                )[w] by {
                if w < idx {
                    assert(pairs_view(before)[w] == pairs_view(out@)[w]);
                } else {
                    assert(w != idx);
                    assert(pairs_view(before)[w - 1] == pairs_view(out@)[w]);
                }
            }
            assert forall|w: int|
                0 <= w < out@.len() && out@[w].0@ == nk@ implies w == idx by {
                if w < idx {
                    assert(before[w].0@ == nk@);
                    assert(seq_lt(before[w].0@, nk@));
                } else if w > idx {
                    assert(before[w - 1].0@ == nk@);
                }
            }
        }
        return ;
    }
    proof {
        assert forall|m: int| 0 <= m < out@.len() implies #[trigger] out@[m].0@ != nk@ by {
            assert(seq_lt(out@[m].0@, nk@));
        }
    }
    let ghost before = out@;
    out.push((nk, nv));
    proof {
        assert(out@ == before.push((nk, nv)));
        lemma_insert_pair_fresh(before, out@, before.len() as int);
        crate::text::lemma_seq_le_refl(nv@);
        assert forall|w: int|
            0 <= w < out@.len() && out@[w].0@ != nk@ implies exists|m: int|
            0 <= m < before.len() && #[trigger] pairs_view(before)[m] == pairs_view(out@)[w] by {
            assert(w != before.len());
            assert(pairs_view(before)[w] == pairs_view(out@)[w]);
        }
        assert forall|w: int|
            0 <= w < out@.len() && out@[w].0@ == nk@ implies w == before.len() by {
            if w < before.len() {
                assert(before[w].0@ == nk@);
                assert(seq_lt(before[w].0@, nk@));
            }
        }
    }
}

/// First position whose key is not strictly below `nk` in a key-sorted list.
fn pair_lower_bound(out: &Vec<(String, String)>, nk: &String) -> (idx: usize)
    ensures
        idx <= out@.len(),
        forall|m: int| 0 <= m < idx ==> seq_lt(#[trigger] out@[m].0@, nk@),
        idx < out@.len() ==> !seq_lt(out@[idx as int].0@, nk@),
{
    let mut idx: usize = 0;
    while idx < out.len()
        invariant
            idx <= out@.len(),
            forall|m: int| 0 <= m < idx ==> seq_lt(#[trigger] out@[m].0@, nk@),
        decreases out@.len() - idx,
    {
        let below = crate::text::str_lt_probe(&out[idx].0, nk);
        if !below {
            return idx;
        }
        idx = idx + 1;
    }
    idx
}

/// After replacing the value at `idx` with a smaller one, the list still
/// meets the insertion contract shape.
proof fn lemma_insert_pair_replace(before: Seq<(String, String)>, after: Seq<(String, String)>, idx: int)
    requires
        0 <= idx < before.len(),
        after.len() == before.len(),
        forall|m: int| 0 <= m < before.len() && m != idx ==> after[m] == before[m],
        after[idx].0@ == before[idx].0@,
        pairs_sorted(pairs_view(before)),
    ensures
        pairs_sorted(pairs_view(after)),
        forall|k: Seq<char>| #[trigger]
            pairs_have_key(pairs_view(after), k) <==> pairs_have_key(pairs_view(before), k),
{
    let pb = pairs_view(before);
    let pa = pairs_view(after);
    assert(forall|m: int| 0 <= m < pa.len() ==> #[trigger] pa[m].0 == pb[m].0);
    assert forall|k: Seq<char>| #[trigger]
        pairs_have_key(pa, k) implies pairs_have_key(pb, k) by {
        let w = choose|w: int| 0 <= w < pa.len() && #[trigger] pa[w].0 == k;
        assert(pb[w].0 == k);
    }
    assert forall|k: Seq<char>| #[trigger]
        pairs_have_key(pb, k) implies pairs_have_key(pa, k) by {
        let w = choose|w: int| 0 <= w < pb.len() && #[trigger] pb[w].0 == k;
        assert(pa[w].0 == k);
    }
}

/// After inserting a pair whose key was absent at the sorted position,
/// the list is still sorted and has exactly the old keys plus the new one.
proof fn lemma_insert_pair_fresh(before: Seq<(String, String)>, after: Seq<(String, String)>, idx: int)
    requires
        0 <= idx <= before.len(),
        after.len() == before.len() + 1,
        forall|m: int| 0 <= m < idx ==> after[m] == before[m],
        forall|m: int| idx < m < after.len() ==> after[m] == before[m - 1],
        forall|m: int| 0 <= m < idx ==> seq_lt(#[trigger] before[m].0@, after[idx].0@),
        idx < before.len() ==> seq_lt(after[idx].0@, before[idx as int].0@),
        pairs_sorted(pairs_view(before)),
    ensures
        pairs_sorted(pairs_view(after)),
        forall|k: Seq<char>| #[trigger]
            pairs_have_key(pairs_view(after), k) <==> (pairs_have_key(pairs_view(before), k) || k
                == after[idx].0@),
{
    let pb = pairs_view(before);
    let pa = pairs_view(after);
    let nk = after[idx].0@;
    assert forall|m: int| idx <= m < pb.len() implies seq_lt(nk, #[trigger] pb[m].0) by {
        assert(seq_lt(nk, pb[idx as int].0));
        if m > idx {
            assert(seq_lt(pb[idx as int].0, pb[m].0));
            crate::text::lemma_seq_le_trans(nk, pb[idx as int].0, pb[m].0);
            if nk == pb[m].0 {
                crate::text::lemma_seq_le_antisym(nk, pb[idx as int].0);
            }
        }
    }
    assert forall|i: int, j: int| 0 <= i < j < pa.len() implies seq_lt(
        #[trigger] pa[i].0,
        #[trigger] pa[j].0,
    ) by {
        if i < idx && j < idx {
            assert(pa[i].0 == pb[i].0 && pa[j].0 == pb[j].0);
        } else if i < idx && j == idx {
            assert(pa[i].0 == pb[i].0);
        } else if i < idx && j > idx {
            assert(pa[i].0 == pb[i].0 && pa[j].0 == pb[j - 1].0);
            assert(seq_lt(pa[i].0, nk));
            assert(seq_lt(nk, pa[j].0));
            crate::text::lemma_seq_le_trans(pa[i].0, nk, pa[j].0);
            if pa[i].0 == pa[j].0 {
                crate::text::lemma_seq_le_antisym(pa[i].0, nk);
            }
        } else if i == idx && j > idx {
            assert(pa[j].0 == pb[j - 1].0);
            assert(seq_lt(nk, pb[j - 1].0));
        } else {
            assert(pa[i].0 == pb[i - 1].0 && pa[j].0 == pb[j - 1].0);
        }
    }
    assert forall|k: Seq<char>| #[trigger]
        pairs_have_key(pa, k) implies (pairs_have_key(pb, k) || k == nk) by {
        let w = choose|w: int| 0 <= w < pa.len() && #[trigger] pa[w].0 == k;
        if w < idx {
            assert(pb[w].0 == k);
        } else if w > idx {
            assert(pb[w - 1].0 == k);
        }
    }
    assert forall|k: Seq<char>| pairs_have_key(pb, k) || k == nk implies #[trigger]
        pairs_have_key(pa, k) by {
        if pairs_have_key(pb, k) {
            let w = choose|w: int| 0 <= w < pb.len() && #[trigger] pb[w].0 == k;
            if w < idx {
                assert(pa[w].0 == k);
            } else {
                assert(pa[w + 1].0 == k);
            }
        } else {
            assert(pa[idx].0 == k);
        }
    }
}

/// Normalize a hash map: keys trimmed and lower-cased, values stripped of
/// whitespace and lower-cased, empty sides dropped, duplicate keys collapsed
/// to the least value, result sorted by key.
pub fn normalized_hashes_pairs(input: &Vec<(String, String)>) -> (r: Vec<(String, String)>)
    ensures
        normalized_pairs_ok(pairs_view(input@), pairs_view(r@)),
{
    let mut out: Vec<(String, String)> = Vec::new();
    let mut i: usize = 0;
    while i < input.len()
        invariant
            i <= input@.len(),
            normalized_pairs_ok(pairs_view(input@.subrange(0, i as int)), pairs_view(out@)),
        decreases input@.len() - i,
    {
        let ghost prefix = pairs_view(input@.subrange(0, i as int));
        let ghost next_prefix = pairs_view(input@.subrange(0, i + 1));
        proof {
            assert(input@.subrange(0, i + 1) =~= input@.subrange(0, i as int).push(
                input@[i as int],
            ));
            assert(next_prefix =~= prefix.push((input@[i as int].0@, input@[i as int].1@)));
        }
        let nk = trim_lower(input[i].0.as_str());
        let nv = normalize_hash_value(input[i].1.as_str());
        if nk.as_str().is_empty() || nv.as_str().is_empty() {
            proof {
                assert(!pair_admitted(next_prefix[next_prefix.len() - 1]));
                lemma_pairs_ok_skip(prefix, next_prefix, pairs_view(out@));
            }
        } else {
            let ghost before = out@;
            insert_pair_min(&mut out, nk, nv);
            proof {
                lemma_pairs_ok_insert(prefix, next_prefix, pairs_view(before), pairs_view(out@));
            }
        }
        i = i + 1;
    }
    proof {
        assert(input@.subrange(0, input@.len() as int) =~= input@);
    }
    out
}

/// Adding a pair that normalization drops leaves the contract intact.
proof fn lemma_pairs_ok_skip(
    prefix: Seq<(Seq<char>, Seq<char>)>,
    next: Seq<(Seq<char>, Seq<char>)>,
    pv: Seq<(Seq<char>, Seq<char>)>,
)
    requires
        next == prefix.push(next[next.len() - 1]),
        next.len() == prefix.len() + 1,
        !pair_admitted(next[next.len() - 1]),
        normalized_pairs_ok(prefix, pv),
    ensures
        normalized_pairs_ok(next, pv),
{
    assert(forall|i: int| 0 <= i < prefix.len() ==> next[i] == #[trigger] prefix[i]);
    assert forall|k: Seq<char>| #[trigger] admits_key(next, k) implies admits_key(prefix, k) by {
        let w = choose|w: int|
            0 <= w < next.len() && #[trigger] pair_admitted(next[w]) && norm_key_spec(next[w].0)
                == k;
        assert(w < prefix.len());
        assert(pair_admitted(prefix[w]) && norm_key_spec(prefix[w].0) == k);
    }
    assert forall|k: Seq<char>| #[trigger] admits_key(prefix, k) implies admits_key(next, k) by {
        let w = choose|w: int|
            0 <= w < prefix.len() && #[trigger] pair_admitted(prefix[w]) && norm_key_spec(
                prefix[w].0,
            ) == k;
        assert(pair_admitted(next[w]) && norm_key_spec(next[w].0) == k);
    }
    assert forall|n: int| 0 <= n < pv.len() implies is_min_val(next, #[trigger] pv[n].0, pv[n].1) by {
        assert(is_min_val(prefix, pv[n].0, pv[n].1));
        let w = choose|w: int|
            0 <= w < prefix.len() && #[trigger] pair_admitted(prefix[w]) && norm_key_spec(
                prefix[w].0,
            ) == pv[n].0 && norm_val_spec(prefix[w].1) == pv[n].1;
        assert(pair_admitted(next[w]) && norm_key_spec(next[w].0) == pv[n].0 && norm_val_spec(
            next[w].1,
        ) == pv[n].1);
        assert forall|m: int|
            0 <= m < next.len() && #[trigger] pair_admitted(next[m]) && norm_key_spec(next[m].0)
                == pv[n].0 implies seq_le(pv[n].1, norm_val_spec(next[m].1)) by {
            if m < prefix.len() {
                assert(pair_admitted(prefix[m]) && norm_key_spec(prefix[m].0) == pv[n].0);
            }
        }
    }
}

/// Inserting the normalized form of an admitted pair extends the contract
/// by exactly that pair's key.
proof fn lemma_pairs_ok_insert(
    prefix: Seq<(Seq<char>, Seq<char>)>,
    next: Seq<(Seq<char>, Seq<char>)>,
    before: Seq<(Seq<char>, Seq<char>)>,
    after: Seq<(Seq<char>, Seq<char>)>,
)
    requires
        next == prefix.push(next[next.len() - 1]),
        next.len() == prefix.len() + 1,
        pair_admitted(next[next.len() - 1]),
        normalized_pairs_ok(prefix, before),
        pairs_sorted(after),
        forall|k: Seq<char>| #[trigger]
            pairs_have_key(after, k) <==> (pairs_have_key(before, k) || k == norm_key_spec(
                next[next.len() - 1].0,
            )),
        forall|n: int|
            0 <= n < after.len() && after[n].0 != norm_key_spec(next[next.len() - 1].0)
                ==> exists|m: int| 0 <= m < before.len() && #[trigger] before[m] == after[n],
        forall|n: int|
            0 <= n < after.len() && after[n].0 == norm_key_spec(next[next.len() - 1].0) ==> ({
                let v = #[trigger] after[n].1;
                &&& (v == norm_val_spec(next[next.len() - 1].1) || exists|m: int|
                    0 <= m < before.len() && #[trigger] before[m] == (
                    norm_key_spec(next[next.len() - 1].0),
                    v,
                    ))
                &&& seq_le(v, norm_val_spec(next[next.len() - 1].1))
                &&& forall|m: int|
                    0 <= m < before.len() && #[trigger] before[m].0 == norm_key_spec(
                        next[next.len() - 1].0,
                    ) ==> seq_le(v, before[m].1)
            }),
    ensures
        normalized_pairs_ok(next, after),
{
    let p = next[next.len() - 1];
    let nk = norm_key_spec(p.0);
    let nv = norm_val_spec(p.1);
    assert(forall|i: int| 0 <= i < prefix.len() ==> next[i] == #[trigger] prefix[i]);
    assert forall|k: Seq<char>| #[trigger] pairs_have_key(after, k) implies admits_key(next, k) by {
        if k == nk {
            assert(pair_admitted(next[next.len() - 1]) && norm_key_spec(next[next.len() - 1].0)
                == k);
        } else {
            assert(pairs_have_key(before, k));
            assert(admits_key(prefix, k));
            let w = choose|w: int|
                0 <= w < prefix.len() && #[trigger] pair_admitted(prefix[w]) && norm_key_spec(
                    prefix[w].0,
                ) == k;
            assert(pair_admitted(next[w]) && norm_key_spec(next[w].0) == k);
        }
    }
    assert forall|k: Seq<char>| #[trigger] admits_key(next, k) implies pairs_have_key(after, k) by {
        let w = choose|w: int|
            0 <= w < next.len() && #[trigger] pair_admitted(next[w]) && norm_key_spec(next[w].0)
                == k;
        if w < prefix.len() {
            assert(pair_admitted(prefix[w]) && norm_key_spec(prefix[w].0) == k);
            assert(admits_key(prefix, k));
            assert(pairs_have_key(before, k));
        } else {
            assert(k == nk);
        }
    }
    assert forall|n: int| 0 <= n < after.len() implies is_min_val(next, #[trigger] after[n].0, after[n].1) by {
        let k = after[n].0;
        let v = after[n].1;
        if k == nk {
            if v == nv {
                assert(pair_admitted(next[next.len() - 1]) && norm_key_spec(
                    next[next.len() - 1].0,
                ) == k && norm_val_spec(next[next.len() - 1].1) == v);
            } else {
                let m = choose|m: int| 0 <= m < before.len() && #[trigger] before[m] == (nk, v);
                assert(is_min_val(prefix, before[m].0, before[m].1));
                let w = choose|w: int|
                    0 <= w < prefix.len() && #[trigger] pair_admitted(prefix[w]) && norm_key_spec(
                        prefix[w].0,
                    ) == k && norm_val_spec(prefix[w].1) == v;
                assert(pair_admitted(next[w]) && norm_key_spec(next[w].0) == k && norm_val_spec(
                    next[w].1,
                ) == v);
            }
            assert forall|m: int|
                0 <= m < next.len() && #[trigger] pair_admitted(next[m]) && norm_key_spec(
                    next[m].0,
                ) == k implies seq_le(v, norm_val_spec(next[m].1)) by {
                if m < prefix.len() {
                    assert(pair_admitted(prefix[m]) && norm_key_spec(prefix[m].0) == k);
                    assert(admits_key(prefix, k));
                    assert(pairs_have_key(before, k));
                    let w = choose|w: int| 0 <= w < before.len() && #[trigger] before[w].0 == k;
                    assert(is_min_val(prefix, before[w].0, before[w].1));
                    assert(seq_le(before[w].1, norm_val_spec(prefix[m].1)));
                    assert(seq_le(v, before[w].1));
                    crate::text::lemma_seq_le_trans(v, before[w].1, norm_val_spec(prefix[m].1));
                } else {
                    assert(seq_le(v, nv));
                }
            }
        } else {
            let m = choose|m: int| 0 <= m < before.len() && #[trigger] before[m] == after[n];
            assert(is_min_val(prefix, before[m].0, before[m].1));
            let w = choose|w: int|
                0 <= w < prefix.len() && #[trigger] pair_admitted(prefix[w]) && norm_key_spec(
                    prefix[w].0,
                ) == k && norm_val_spec(prefix[w].1) == v;
            assert(pair_admitted(next[w]) && norm_key_spec(next[w].0) == k && norm_val_spec(
                next[w].1,
            ) == v);
            assert forall|q: int|
                0 <= q < next.len() && #[trigger] pair_admitted(next[q]) && norm_key_spec(
                    next[q].0,
                ) == k implies seq_le(v, norm_val_spec(next[q].1)) by {
                if q < prefix.len() {
                    assert(pair_admitted(prefix[q]) && norm_key_spec(prefix[q].0) == k);
                }
            }
        }
    }
}

/// Two normalized pair lists over inputs that admit the same keys with the
/// same least values are equal, view for view.
pub proof fn lemma_normalized_pairs_unique(
    iv1: Seq<(Seq<char>, Seq<char>)>,
    iv2: Seq<(Seq<char>, Seq<char>)>,
    pv1: Seq<(Seq<char>, Seq<char>)>,
    pv2: Seq<(Seq<char>, Seq<char>)>,
)
    requires
        normalized_pairs_ok(iv1, pv1),
        normalized_pairs_ok(iv2, pv2),
        forall|k: Seq<char>| #[trigger] admits_key(iv1, k) <==> admits_key(iv2, k),
        forall|k: Seq<char>, v: Seq<char>|
            admits_key(iv1, k) ==> (#[trigger] is_min_val(iv1, k, v) <==> is_min_val(iv2, k, v)),
    ensures
        pv1 == pv2,
    decreases pv1.len(),
{
    if pv1.len() == 0 {
        if pv2.len() > 0 {
            assert(pairs_have_key(pv2, pv2[0].0));
            assert(admits_key(iv2, pv2[0].0));
            assert(admits_key(iv1, pv2[0].0));
            assert(pairs_have_key(pv1, pv2[0].0));
            assert(false);
        }
        assert(pv1 =~= pv2);
    } else {
        assert(pv2.len() > 0) by {
            assert(pairs_have_key(pv1, pv1[0].0));
            assert(admits_key(iv1, pv1[0].0));
            assert(admits_key(iv2, pv1[0].0));
            assert(pairs_have_key(pv2, pv1[0].0));
        }
        // The first keys agree: each list starts with its least key, and the
        // key sets agree.
        assert(pairs_have_key(pv1, pv1[0].0));
        assert(admits_key(iv1, pv1[0].0));
        assert(pairs_have_key(pv2, pv1[0].0));
        let w2 = choose|w: int| 0 <= w < pv2.len() && #[trigger] pv2[w].0 == pv1[0].0;
        assert(pairs_have_key(pv2, pv2[0].0));
        assert(admits_key(iv2, pv2[0].0));
        assert(admits_key(iv1, pv2[0].0));
        assert(pairs_have_key(pv1, pv2[0].0));
        let w1 = choose|w: int| 0 <= w < pv1.len() && #[trigger] pv1[w].0 == pv2[0].0;
        assert(pv1[0].0 == pv2[0].0) by {
            if w1 > 0 {
                assert(seq_lt(pv1[0].0, pv1[w1].0));
            }
            if w2 > 0 {
                assert(seq_lt(pv2[0].0, pv2[w2].0));
            }
            if w1 == 0 && w2 == 0 {
            } else if w1 > 0 && w2 > 0 {
                crate::text::lemma_seq_le_trans(pv1[0].0, pv2[0].0, pv1[0].0);
                crate::text::lemma_seq_le_antisym(pv1[0].0, pv2[0].0);
            } else if w1 > 0 {
                // pv2[0].0 == pv1[w1].0 with w1 > 0 and pv2[w2] == pv1[0] with w2 == 0
                crate::text::lemma_seq_le_antisym(pv1[0].0, pv2[0].0);
            } else {
                crate::text::lemma_seq_le_antisym(pv1[0].0, pv2[0].0);
            }
        }
        assert(is_min_val(iv1, pv1[0].0, pv1[0].1));
        assert(is_min_val(iv2, pv2[0].0, pv2[0].1));
        assert(is_min_val(iv1, pv2[0].0, pv2[0].1));
        assert(pv1[0].1 == pv2[0].1) by {
            lemma_min_val_unique(iv1, pv1[0].0, pv1[0].1, pv2[0].1);
        }
        let t1 = pv1.drop_first();
        let t2 = pv2.drop_first();
        // Restrict the admitted-key view to the keys above the first.
        lemma_normalized_pairs_tail(iv1, pv1);
        lemma_normalized_pairs_tail(iv2, pv2);
        let k0 = pv1[0].0;
        let f1 = key_filtered(iv1, k0);
        let f2 = key_filtered(iv2, k0);
        assert forall|k: Seq<char>| #[trigger] admits_key(f1, k) implies admits_key(f2, k) by {
            lemma_admits_filtered(iv1, k0, k);
            lemma_admits_filtered(iv2, k0, k);
        }
        assert forall|k: Seq<char>| #[trigger] admits_key(f2, k) implies admits_key(f1, k) by {
            lemma_admits_filtered(iv1, k0, k);
            lemma_admits_filtered(iv2, k0, k);
        }
        assert forall|k: Seq<char>, v: Seq<char>|
            admits_key(f1, k) implies (#[trigger] is_min_val(f1, k, v) <==> is_min_val(
            f2,
            k,
            v,
        )) by {
            lemma_admits_filtered(iv1, k0, k);
            lemma_min_val_filtered(iv1, k0, k, v);
            lemma_min_val_filtered(iv2, k0, k, v);
        }
        lemma_normalized_pairs_unique(f1, f2, t1, t2);
        assert(pv1 =~= seq![pv1[0]] + t1);
        assert(pv2 =~= seq![pv2[0]] + t2);
        assert(pv1[0] == pv2[0]) by {
            assert(pv1[0].0 == pv2[0].0 && pv1[0].1 == pv2[0].1);
        }
        assert(seq![pv1[0]] + t1 =~= seq![pv2[0]] + t2);
    }
}

/// Filtering one key out admits exactly the other keys.
proof fn lemma_admits_filtered(iv: Seq<(Seq<char>, Seq<char>)>, k0: Seq<char>, k: Seq<char>)
    ensures
        admits_key(key_filtered(iv, k0), k) <==> (admits_key(iv, k) && k != k0),
{
    let fv = key_filtered(iv, k0);
    lemma_filter_membership(iv, k0);
    if admits_key(fv, k) {
        let w = choose|w: int|
            0 <= w < fv.len() && #[trigger] pair_admitted(fv[w]) && norm_key_spec(fv[w].0) == k;
        assert(iv.contains(fv[w]));
        let z = choose|z: int| 0 <= z < iv.len() && iv[z] == fv[w];
        assert(admits_key(iv, k)) by {
            assert(pair_admitted(iv[z]) && norm_key_spec(iv[z].0) == k);
        }
        assert(k != k0);
    }
    if admits_key(iv, k) && k != k0 {
        let m = choose|m: int|
            0 <= m < iv.len() && #[trigger] pair_admitted(iv[m]) && norm_key_spec(iv[m].0) == k;
        assert(fv.contains(iv[m]));
        let q = choose|q: int| 0 <= q < fv.len() && fv[q] == iv[m];
        assert(admits_key(fv, k)) by {
            assert(pair_admitted(fv[q]) && norm_key_spec(fv[q].0) == k);
        }
    }
}

/// For any other key, the least value is unchanged by filtering `k0` out.
proof fn lemma_min_val_filtered(
    iv: Seq<(Seq<char>, Seq<char>)>,
    k0: Seq<char>,
    k: Seq<char>,
    v: Seq<char>,
)
    requires
        k != k0,
    ensures
        is_min_val(key_filtered(iv, k0), k, v) <==> is_min_val(iv, k, v),
{
    let fv = key_filtered(iv, k0);
    lemma_filter_membership(iv, k0);
    if is_min_val(fv, k, v) {
        let w = choose|w: int|
            0 <= w < fv.len() && #[trigger] pair_admitted(fv[w]) && norm_key_spec(fv[w].0) == k
                && norm_val_spec(fv[w].1) == v;
        assert(iv.contains(fv[w]));
        let z = choose|z: int| 0 <= z < iv.len() && iv[z] == fv[w];
        assert(pair_admitted(iv[z]) && norm_key_spec(iv[z].0) == k && norm_val_spec(iv[z].1) == v);
        assert forall|m: int|
            0 <= m < iv.len() && #[trigger] pair_admitted(iv[m]) && norm_key_spec(iv[m].0)
                == k implies seq_le(v, norm_val_spec(iv[m].1)) by {
            assert(fv.contains(iv[m]));
            let q = choose|q: int| 0 <= q < fv.len() && fv[q] == iv[m];
            assert(pair_admitted(fv[q]) && norm_key_spec(fv[q].0) == k);
        }
        assert(is_min_val(iv, k, v));
    }
    if is_min_val(iv, k, v) {
        let m = choose|m: int|
            0 <= m < iv.len() && #[trigger] pair_admitted(iv[m]) && norm_key_spec(iv[m].0) == k
                && norm_val_spec(iv[m].1) == v;
        assert(fv.contains(iv[m]));
        let q = choose|q: int| 0 <= q < fv.len() && fv[q] == iv[m];
        assert(pair_admitted(fv[q]) && norm_key_spec(fv[q].0) == k && norm_val_spec(fv[q].1) == v);
        assert forall|w: int|
            0 <= w < fv.len() && #[trigger] pair_admitted(fv[w]) && norm_key_spec(fv[w].0)
                == k implies seq_le(v, norm_val_spec(fv[w].1)) by {
            assert(iv.contains(fv[w]));
            let z = choose|z: int| 0 <= z < iv.len() && iv[z] == fv[w];
            assert(pair_admitted(iv[z]) && norm_key_spec(iv[z].0) == k);
        }
        assert(is_min_val(fv, k, v));
    }
}

/// Two least values for the same key are equal.
proof fn lemma_min_val_unique(
    iv: Seq<(Seq<char>, Seq<char>)>,
    k: Seq<char>,
    v1: Seq<char>,
    v2: Seq<char>,
)
    requires
        is_min_val(iv, k, v1),
        is_min_val(iv, k, v2),
    ensures
        v1 == v2,
{
    crate::text::lemma_seq_le_antisym(v1, v2);
}

/// The input pairs whose normalized key is not `k`.
pub open spec fn key_filtered(iv: Seq<(Seq<char>, Seq<char>)>, k: Seq<char>) -> Seq<
    (Seq<char>, Seq<char>),
> {
    iv.filter(|p: (Seq<char>, Seq<char>)| !(pair_admitted(p) && norm_key_spec(p.0) == k))
}

/// Dropping the first pair of a normalized list matches filtering its key
/// out of the input.
proof fn lemma_normalized_pairs_tail(iv: Seq<(Seq<char>, Seq<char>)>, pv: Seq<(Seq<char>, Seq<char>)>)
    requires
        normalized_pairs_ok(iv, pv),
        pv.len() > 0,
    ensures
        normalized_pairs_ok(key_filtered(iv, pv[0].0), pv.drop_first()),
{
    let k0 = pv[0].0;
    let fv = key_filtered(iv, k0);
    let t = pv.drop_first();
    lemma_filter_membership(iv, k0);
    assert(forall|i: int| 0 <= i < t.len() ==> #[trigger] t[i] == pv[i + 1]);
    assert forall|i: int, j: int| 0 <= i < j < t.len() implies seq_lt(
        #[trigger] t[i].0,
        #[trigger] t[j].0,
    ) by {
        assert(seq_lt(pv[i + 1].0, pv[j + 1].0));
    }
    assert forall|k: Seq<char>| #[trigger] pairs_have_key(t, k) implies admits_key(fv, k) by {
        let w = choose|w: int| 0 <= w < t.len() && #[trigger] t[w].0 == k;
        assert(pv[w + 1].0 == k);
        assert(seq_lt(pv[0].0, pv[w + 1].0));
        assert(k != k0);
        assert(pairs_have_key(pv, k)) by {
            assert(pv[w + 1].0 == k);
        }
        assert(admits_key(iv, k));
        let m = choose|m: int|
            0 <= m < iv.len() && #[trigger] pair_admitted(iv[m]) && norm_key_spec(iv[m].0) == k;
        assert(fv.contains(iv[m]));
        let q = choose|q: int| 0 <= q < fv.len() && fv[q] == iv[m];
        assert(pair_admitted(fv[q]) && norm_key_spec(fv[q].0) == k);
    }
    assert forall|k: Seq<char>| #[trigger] admits_key(fv, k) implies pairs_have_key(t, k) by {
        let w = choose|w: int|
            0 <= w < fv.len() && #[trigger] pair_admitted(fv[w]) && norm_key_spec(fv[w].0) == k;
        assert(iv.contains(fv[w]));
        let m = choose|m: int| 0 <= m < iv.len() && iv[m] == fv[w];
        assert(admits_key(iv, k)) by {
            assert(pair_admitted(iv[m]) && norm_key_spec(iv[m].0) == k);
        }
        assert(k != k0);
        assert(pairs_have_key(pv, k));
        let q = choose|q: int| 0 <= q < pv.len() && #[trigger] pv[q].0 == k;
        assert(q != 0);
        assert(t[q - 1].0 == k);
        assert(pairs_have_key(t, k)) by {
            assert(t[q - 1].0 == k);
        }
    }
    assert forall|n: int| 0 <= n < t.len() implies is_min_val(fv, #[trigger] t[n].0, t[n].1) by {
        let k = t[n].0;
        let v = t[n].1;
        assert(pv[n + 1] == t[n]);
        assert(is_min_val(iv, k, v));
        assert(seq_lt(pv[0].0, pv[n + 1].0));
        assert(k != k0);
        let m = choose|m: int|
            0 <= m < iv.len() && #[trigger] pair_admitted(iv[m]) && norm_key_spec(iv[m].0) == k
                && norm_val_spec(iv[m].1) == v;
        assert(fv.contains(iv[m]));
        let q = choose|q: int| 0 <= q < fv.len() && fv[q] == iv[m];
        assert(pair_admitted(fv[q]) && norm_key_spec(fv[q].0) == k && norm_val_spec(fv[q].1) == v);
        assert forall|w: int|
            0 <= w < fv.len() && #[trigger] pair_admitted(fv[w]) && norm_key_spec(fv[w].0)
                == k implies seq_le(v, norm_val_spec(fv[w].1)) by {
            assert(iv.contains(fv[w]));
            let z = choose|z: int| 0 <= z < iv.len() && iv[z] == fv[w];
            assert(pair_admitted(iv[z]) && norm_key_spec(iv[z].0) == k);
        }
    }
}

/// Filtering keeps exactly the elements the predicate admits, and every
/// kept element is an input element.
proof fn lemma_filter_membership(iv: Seq<(Seq<char>, Seq<char>)>, k: Seq<char>)
    ensures
        forall|m: int|
            0 <= m < iv.len() && !(pair_admitted(#[trigger] iv[m]) && norm_key_spec(iv[m].0) == k)
                ==> key_filtered(iv, k).contains(iv[m]),
        forall|q: int|
            0 <= q < key_filtered(iv, k).len() ==> iv.contains(#[trigger] key_filtered(iv, k)[q])
                && !(pair_admitted(key_filtered(iv, k)[q]) && norm_key_spec(
                key_filtered(iv, k)[q].0,
            ) == k),
    decreases iv.len(),
{
    reveal_with_fuel(Seq::<_>::filter, 2);
    if iv.len() > 0 {
        lemma_filter_membership(iv.drop_last(), k);
        let fv = key_filtered(iv, k);
        let fd = key_filtered(iv.drop_last(), k);
        assert(iv.drop_last().push(iv.last()) =~= iv);
        assert forall|m: int|
            0 <= m < iv.len() && !(pair_admitted(#[trigger] iv[m]) && norm_key_spec(iv[m].0)
                == k) implies fv.contains(iv[m]) by {
            if m < iv.len() - 1 {
                assert(iv.drop_last()[m] == iv[m]);
                assert(fd.contains(iv[m]));
                let q = choose|q: int| 0 <= q < fd.len() && fd[q] == iv[m];
                assert(fv[q] == iv[m]);
            } else {
                assert(fv.last() == iv[m]);
            }
        }
        assert forall|q: int| 0 <= q < fv.len() implies iv.contains(#[trigger] fv[q]) && !(
        pair_admitted(fv[q]) && norm_key_spec(fv[q].0) == k) by {
            if q < fd.len() {
                assert(fv[q] == fd[q]);
                assert(iv.drop_last().contains(fd[q]));
                let z = choose|z: int| 0 <= z < iv.drop_last().len() && iv.drop_last()[z] == fd[q];
                assert(iv[z] == fd[q]);
                assert(iv.contains(fv[q])) by {
                    assert(iv[z] == fv[q]);
                }
            } else {
                assert(fv[q] == iv.last());
                assert(iv.contains(fv[q])) by {
                    assert(iv[iv.len() - 1] == fv[q]);
                }
            }
        }
    }
}

} // verus!
// continued below

verus! {

/// The canonical content-type names and what each raw spelling maps to.
pub open spec fn normalized_content_type_spec(s: Seq<char>) -> Seq<char> {
    let t = lower_spec(trim_spec(s));
    if t == "mods"@ || t == "mod"@ {
        "mods"@
    } else if t == "resourcepacks"@ || t == "resourcepack"@ || t == "texturepacks"@ || t
        == "texturepack"@ {
        "resourcepacks"@
    } else if t == "shaderpacks"@ || t == "shaderpack"@ || t == "shader"@ || t == "shaders"@ {
        "shaderpacks"@
    } else if t == "datapacks"@ || t == "datapack"@ {
        "datapacks"@
    } else {
        "mods"@
    }
}

/// Canonical content-type name: unknown spellings default to `mods`.
pub fn normalized_content_type(input: &str) -> (r: String)
    ensures
        r@ == normalized_content_type_spec(input@),
{
    let t = trim_lower(input);
    if str_eq_lit(&t, "mods") || str_eq_lit(&t, "mod") {
        lit_string("mods")
    } else if str_eq_lit(&t, "resourcepacks") || str_eq_lit(&t, "resourcepack") || str_eq_lit(
        &t,
        "texturepacks",
    ) || str_eq_lit(&t, "texturepack") {
        lit_string("resourcepacks")
    } else if str_eq_lit(&t, "shaderpacks") || str_eq_lit(&t, "shaderpack") || str_eq_lit(
        &t,
        "shader",
    ) || str_eq_lit(&t, "shaders") {
        lit_string("shaderpacks")
    } else if str_eq_lit(&t, "datapacks") || str_eq_lit(&t, "datapack") {
        lit_string("datapacks")
    } else {
        lit_string("mods")
    }
}

/// The canonical target scope: `world` stays, everything else is `instance`.
pub open spec fn normalized_target_scope_spec(s: Seq<char>) -> Seq<char> {
    if lower_spec(trim_spec(s)) == "world"@ {
        "world"@
    } else {
        "instance"@
    }
}

pub fn normalized_target_scope(input: &str) -> (r: String)
    ensures
        r@ == normalized_target_scope_spec(input@),
{
    let t = trim_lower(input);
    if str_eq_lit(&t, "world") {
        lit_string("world")
    } else {
        lit_string("instance")
    }
}

/// Whether a string equals a literal.
pub fn str_eq_lit(s: &String, lit: &str) -> (r: bool)
    ensures
        r == (s@ == lit@),
{
    let a = crate::text::chars_vec(s.as_str());
    let b = crate::text::chars_vec(lit);
    crate::text::chars_eq(&a, &b)
}

/// An owned copy of a literal.
pub fn lit_string(lit: &str) -> (r: String)
    ensures
        r@ == lit@,
{
    let v = crate::text::chars_vec(lit);
    crate::text::string_from_chars(&v)
}

/// The default content type a lock entry gets when none is given.
pub fn default_content_type() -> (r: String)
    ensures
        r@ == "mods"@,
{
    lit_string("mods")
}

/// The default target scope a lock entry gets when none is given.
pub fn default_target_scope() -> (r: String)
    ensures
        r@ == "instance"@,
{
    lit_string("instance")
}

/// The schema version written to lock files.
pub fn default_lock_version() -> (r: u32)
    ensures
        r == 2,
{
    2
}

/// The views of a string list.
pub open spec fn strs_view(s: Seq<String>) -> Seq<Seq<char>> {
    s.map_values(|x: String| x@)
}

/// Whether a list of character sequences is strictly increasing.
pub open spec fn strs_sorted(w: Seq<Seq<char>>) -> bool {
    forall|i: int, j: int| 0 <= i < j < w.len() ==> seq_lt(#[trigger] w[i], #[trigger] w[j])
}

/// What world-list normalization promises: strictly sorted, and exactly the
/// input's set of values.
pub open spec fn worlds_norm_ok(iv: Seq<Seq<char>>, w: Seq<Seq<char>>) -> bool {
    &&& strs_sorted(w)
    &&& forall|s: Seq<char>| #[trigger] w.contains(s) <==> iv.contains(s)
}

/// Insert a string into a strictly sorted list unless it is already there.
fn insert_sorted_unique(out: &mut Vec<String>, x: String)
    requires
        strs_sorted(strs_view(old(out)@)),
    ensures
        strs_sorted(strs_view(final(out)@)),
        forall|s: Seq<char>| #[trigger]
            strs_view(final(out)@).contains(s) <==> (strs_view(old(out)@).contains(s) || s == x@),
{
    let n = out.len();
    let idx = str_lower_bound(out, &x);
    if idx < n {
        let same = crate::text::str_eq(&out[idx], &x);
        if same {
            proof {
                let sv = strs_view(out@);
                assert(sv.contains(x@)) by {
                    assert(sv[idx as int] == x@);
                }
            }
            return ;
        }
        proof {
            assert(!seq_lt(out@[idx as int]@, x@) && out@[idx as int]@ != x@);
            crate::text::lemma_seq_le_total(out@[idx as int]@, x@);
            assert(seq_lt(x@, out@[idx as int]@));
        }
        let ghost before = out@;
        out.insert(idx, x);
        proof {
            lemma_insert_sorted_unique(before, out@, idx as int);
        }
        return ;
    }
    let ghost before = out@;
    out.insert(idx, x);
    proof {
        lemma_insert_sorted_unique(before, out@, idx as int);
    }
}

/// Inserting a value at its sorted position keeps the list strictly sorted
/// and extends its value set by exactly that value.
proof fn lemma_insert_sorted_unique(before: Seq<String>, after: Seq<String>, idx: int)
    requires
        0 <= idx <= before.len(),
        after.len() == before.len() + 1,
        forall|m: int| 0 <= m < idx ==> after[m] == before[m],
        forall|m: int| idx < m < after.len() ==> after[m] == before[m - 1],
        forall|m: int| 0 <= m < idx ==> seq_lt(#[trigger] before[m]@, after[idx]@),
        idx < before.len() ==> seq_lt(after[idx]@, before[idx as int]@),
        strs_sorted(strs_view(before)),
    ensures
        strs_sorted(strs_view(after)),
        forall|s: Seq<char>| #[trigger]
            strs_view(after).contains(s) <==> (strs_view(before).contains(s) || s == after[idx]@),
{
    let pb = strs_view(before);
    let pa = strs_view(after);
    let x = after[idx]@;
    assert(forall|m: int| 0 <= m < idx ==> pa[m] == #[trigger] pb[m]);
    assert(forall|m: int| idx < m < pa.len() ==> pa[m] == #[trigger] pb[m - 1]);
    assert(pa[idx as int] == x);
    assert forall|m: int| idx <= m < pb.len() implies seq_lt(x, #[trigger] pb[m]) by {
        assert(seq_lt(x, pb[idx as int]));
        if m > idx {
            assert(seq_lt(pb[idx as int], pb[m]));
            crate::text::lemma_seq_le_trans(x, pb[idx as int], pb[m]);
            if x == pb[m] {
                crate::text::lemma_seq_le_antisym(x, pb[idx as int]);
            }
        }
    }
    assert forall|i: int, j: int| 0 <= i < j < pa.len() implies seq_lt(
        #[trigger] pa[i],
        #[trigger] pa[j],
    ) by {
        if i < idx && j < idx {
            assert(pa[i] == pb[i] && pa[j] == pb[j]);
            assert(seq_lt(pb[i], pb[j]));
        } else if i < idx && j == idx {
            assert(pa[i] == pb[i]);
            assert(seq_lt(pb[i], x));
        } else if i < idx && j > idx {
            assert(pa[i] == pb[i]);
            assert(pa[j] == pb[j - 1]);
            assert(seq_lt(pb[i], x) && seq_lt(x, pb[j - 1]));
            crate::text::lemma_seq_le_trans(pb[i], x, pb[j - 1]);
            if pb[i] == pb[j - 1] {
                crate::text::lemma_seq_le_antisym(pb[i], x);
            }
        } else if i == idx {
            assert(pa[j] == pb[j - 1]);
            assert(seq_lt(x, pb[j - 1]));
        } else {
            assert(pa[i] == pb[i - 1] && pa[j] == pb[j - 1]);
            assert(seq_lt(pb[i - 1], pb[j - 1]));
        }
    }
    assert forall|s: Seq<char>| #[trigger] pa.contains(s) implies (pb.contains(s) || s == x) by {
        let w = choose|w: int| 0 <= w < pa.len() && pa[w] == s;
        if w < idx {
            assert(pb[w] == s);
            assert(pb.contains(s)) by {
                assert(pb[w] == s);
            }
        } else if w > idx {
            assert(pb[w - 1] == s);
            assert(pb.contains(s)) by {
                assert(pb[w - 1] == s);
            }
        }
    }
    assert forall|s: Seq<char>| pb.contains(s) || s == x implies #[trigger] pa.contains(s) by {
        if pb.contains(s) {
            let w = choose|w: int| 0 <= w < pb.len() && pb[w] == s;
            if w < idx {
                assert(pa[w] == s);
            } else {
                assert(pa[w + 1] == s);
            }
        } else {
            assert(pa[idx as int] == s);
        }
    }
}

/// First position whose value is not strictly below `x` in a sorted list.
fn str_lower_bound(out: &Vec<String>, x: &String) -> (idx: usize)
    ensures
        idx <= out@.len(),
        forall|m: int| 0 <= m < idx ==> seq_lt(#[trigger] out@[m]@, x@),
        idx < out@.len() ==> !seq_lt(out@[idx as int]@, x@),
{
    let mut idx: usize = 0;
    while idx < out.len()
        invariant
            idx <= out@.len(),
            forall|m: int| 0 <= m < idx ==> seq_lt(#[trigger] out@[m]@, x@),
        decreases out@.len() - idx,
    {
        let below = crate::text::str_lt_probe(&out[idx], x);
        if !below {
            return idx;
        }
        idx = idx + 1;
    }
    idx
}

/// Sort a world list and drop duplicates.
pub fn normalized_worlds(input: &Vec<String>) -> (r: Vec<String>)
    ensures
        worlds_norm_ok(strs_view(input@), strs_view(r@)),
{
    let mut out: Vec<String> = Vec::new();
    let mut i: usize = 0;
    while i < input.len()
        invariant
            i <= input@.len(),
            strs_sorted(strs_view(out@)),
            forall|s: Seq<char>| #[trigger]
                strs_view(out@).contains(s) <==> strs_view(input@.subrange(0, i as int)).contains(
                    s,
                ),
        decreases input@.len() - i,
    {
        let ghost pre = strs_view(input@.subrange(0, i as int));
        let ghost nxt = strs_view(input@.subrange(0, i + 1));
        proof {
            assert(input@.subrange(0, i + 1) =~= input@.subrange(0, i as int).push(
                input@[i as int],
            ));
            assert(nxt =~= pre.push(input@[i as int]@));
            assert forall|s: Seq<char>| #[trigger] nxt.contains(s) implies (pre.contains(s) || s
                == input@[i as int]@) by {
                let w = choose|w: int| 0 <= w < nxt.len() && nxt[w] == s;
                if w < pre.len() {
                    assert(pre[w] == s);
                }
            }
            assert forall|s: Seq<char>| pre.contains(s) implies #[trigger] nxt.contains(s) by {
                let w = choose|w: int| 0 <= w < pre.len() && pre[w] == s;
                assert(nxt[w] == s);
            }
            assert(nxt.contains(input@[i as int]@)) by {
                assert(nxt[nxt.len() - 1] == input@[i as int]@);
            }
        }
        let copy = clone_string(&input[i]);
        insert_sorted_unique(&mut out, copy);
        i = i + 1;
    }
    proof {
        assert(input@.subrange(0, input@.len() as int) =~= input@);
    }
    out
}

/// An owned copy of a string with the same characters.
pub fn clone_string(s: &String) -> (r: String)
    ensures
        r@ == s@,
{
    let v = crate::text::chars_vec(s.as_str());
    crate::text::string_from_chars(&v)
}

/// Two strictly sorted lists with the same value set are equal.
pub proof fn lemma_sorted_strs_unique(a: Seq<Seq<char>>, b: Seq<Seq<char>>)
    requires
        strs_sorted(a),
        strs_sorted(b),
        forall|s: Seq<char>| #[trigger] a.contains(s) <==> b.contains(s),
    ensures
        a == b,
    decreases a.len(),
{
    if a.len() == 0 {
        if b.len() > 0 {
            assert(b.contains(b[0]));
            assert(a.contains(b[0]));
            assert(false);
        }
        assert(a =~= b);
    } else {
        assert(a.contains(a[0]));
        assert(b.contains(a[0]));
        assert(b.len() > 0);
        assert(b.contains(b[0]));
        assert(a.contains(b[0]));
        let wa = choose|w: int| 0 <= w < b.len() && b[w] == a[0];
        let wb = choose|w: int| 0 <= w < a.len() && a[w] == b[0];
        assert(a[0] == b[0]) by {
            if wa > 0 {
                assert(seq_lt(b[0], b[wa]));
            }
            if wb > 0 {
                assert(seq_lt(a[0], a[wb]));
            }
            if wa > 0 && wb > 0 {
                crate::text::lemma_seq_le_trans(a[0], b[0], a[0]);
                crate::text::lemma_seq_le_antisym(a[0], b[0]);
            }
        }
        let ta = a.drop_first();
        let tb = b.drop_first();
        assert forall|s: Seq<char>| #[trigger] ta.contains(s) implies tb.contains(s) by {
            let w = choose|w: int| 0 <= w < ta.len() && ta[w] == s;
            assert(a[w + 1] == s);
            assert(seq_lt(a[0], a[w + 1]));
            assert(a.contains(s)) by {
                assert(a[w + 1] == s);
            }
            assert(b.contains(s));
            let z = choose|z: int| 0 <= z < b.len() && b[z] == s;
            assert(z != 0) by {
                if z == 0 {
                    assert(s == b[0]);
                    assert(seq_lt(a[0], s) && a[0] == b[0]);
                }
            }
            assert(tb[z - 1] == s);
            assert(tb.contains(s)) by {
                assert(tb[z - 1] == s);
            }
        }
        assert forall|s: Seq<char>| #[trigger] tb.contains(s) implies ta.contains(s) by {
            let w = choose|w: int| 0 <= w < tb.len() && tb[w] == s;
            assert(b[w + 1] == s);
            assert(seq_lt(b[0], b[w + 1]));
            assert(b.contains(s)) by {
                assert(b[w + 1] == s);
            }
            assert(a.contains(s));
            let z = choose|z: int| 0 <= z < a.len() && a[z] == s;
            assert(z != 0) by {
                if z == 0 {
                    assert(s == a[0]);
                    assert(seq_lt(b[0], s) && a[0] == b[0]);
                }
            }
            assert(ta[z - 1] == s);
            assert(ta.contains(s)) by {
                assert(ta[z - 1] == s);
            }
        }
        lemma_sorted_strs_unique(ta, tb);
        assert(a =~= seq![a[0]] + ta);
        assert(b =~= seq![b[0]] + tb);
        assert(seq![a[0]] + ta =~= seq![b[0]] + tb);
    }
}

} // verus!

verus! {

/// The mathematical view of a lock entry: every field as plain sequences.
pub ghost struct LockEntryView {
    pub source: Seq<char>,
    pub project_id: Seq<char>,
    pub version_id: Seq<char>,
    pub name: Seq<char>,
    pub version_number: Seq<char>,
    pub filename: Seq<char>,
    pub content_type: Seq<char>,
    pub target_scope: Seq<char>,
    pub target_worlds: Seq<Seq<char>>,
    pub enabled: bool,
    pub hashes: Seq<(Seq<char>, Seq<char>)>,
}

impl View for CanonicalLockEntry {
    type V = LockEntryView;

    open spec fn view(&self) -> LockEntryView {
        LockEntryView {
            source: self.source@,
            project_id: self.project_id@,
            version_id: self.version_id@,
            name: self.name@,
            version_number: self.version_number@,
            filename: self.filename@,
            content_type: self.content_type@,
            target_scope: self.target_scope@,
            target_worlds: strs_view(self.target_worlds@),
            enabled: self.enabled,
            hashes: pairs_view(self.hashes@),
        }
    }
}

/// The mathematical view of a config file record.
pub ghost struct ConfigFileView {
    pub path: Seq<char>,
    pub modified_at: int,
    pub hash: Seq<char>,
    pub content: Seq<char>,
}

impl View for ConfigFileState {
    type V = ConfigFileView;

    open spec fn view(&self) -> ConfigFileView {
        ConfigFileView {
            path: self.path@,
            modified_at: self.modified_at as int,
            hash: self.hash@,
            content: self.content@,
        }
    }
}

/// JSON rendering of a boolean.
pub open spec fn bool_json(b: bool) -> Seq<char> {
    if b {
        seq!['t', 'r', 'u', 'e']
    } else {
        seq!['f', 'a', 'l', 's', 'e']
    }
}

/// The comma-separated string items of a JSON array.
pub open spec fn strings_json_items(w: Seq<Seq<char>>) -> Seq<char>
    decreases w.len(),
{
    if w.len() == 0 {
        Seq::empty()
    } else if w.len() == 1 {
        jstr_spec(w[0])
    } else {
        jstr_spec(w[0]) + seq![','] + strings_json_items(w.drop_first())
    }
}

/// A JSON array of strings.
pub open spec fn strings_json(w: Seq<Seq<char>>) -> Seq<char> {
    seq!['['] + strings_json_items(w) + seq![']']
}

proof fn lemma_strings_json_items_push(w: Seq<Seq<char>>, x: Seq<char>)
    ensures
        strings_json_items(w.push(x)) == if w.len() == 0 {
            jstr_spec(x)
        } else {
            strings_json_items(w) + seq![','] + jstr_spec(x)
        },
    decreases w.len(),
{
    let p = w.push(x);
    if w.len() == 0 {
        assert(p.len() == 1 && p[0] == x);
    } else {
        assert(p[0] == w[0]);
        assert(p.drop_first() =~= w.drop_first().push(x));
        lemma_strings_json_items_push(w.drop_first(), x);
        if w.len() == 1 {
            assert(strings_json_items(p) == jstr_spec(w[0]) + seq![','] + jstr_spec(x));
            assert(strings_json_items(w) == jstr_spec(w[0]));
        } else {
            assert(strings_json_items(p) == jstr_spec(w[0]) + seq![','] + (strings_json_items(
                w.drop_first(),
            ) + seq![','] + jstr_spec(x)));
            assert(jstr_spec(w[0]) + seq![','] + (strings_json_items(w.drop_first()) + seq![',']
                + jstr_spec(x)) =~= (jstr_spec(w[0]) + seq![','] + strings_json_items(
                w.drop_first(),
            )) + seq![','] + jstr_spec(x));
        }
    }
}

/// Append a JSON array of strings.
pub fn push_strings_json(out: &mut Vec<char>, v: &Vec<String>)
    ensures
        final(out)@ == old(out)@ + strings_json(strs_view(v@)),
{
    out.push('[');
    let mut i: usize = 0;
    while i < v.len()
        invariant
            i <= v@.len(),
            out@ == old(out)@ + seq!['['] + strings_json_items(strs_view(v@.subrange(0, i as int))),
        decreases v@.len() - i,
    {
        let ghost pre = strs_view(v@.subrange(0, i as int));
        if i > 0 {
            out.push(',');
        }
        push_json_string(out, v[i].as_str());
        proof {
            assert(strs_view(v@.subrange(0, i + 1)) =~= pre.push(v@[i as int]@)) by {
                assert(v@.subrange(0, i + 1) =~= v@.subrange(0, i as int).push(v@[i as int]));
            }
            lemma_strings_json_items_push(pre, v@[i as int]@);
            if i == 0 {
                assert(out@ =~= old(out)@ + seq!['['] + strings_json_items(
                    strs_view(v@.subrange(0, i + 1)),
                ));
            } else {
                assert(out@ =~= old(out)@ + seq!['['] + strings_json_items(
                    strs_view(v@.subrange(0, i + 1)),
                ));
            }
        }
        i = i + 1;
    }
    out.push(']');
    proof {
        assert(v@.subrange(0, v@.len() as int) =~= v@);
        assert(out@ =~= old(out)@ + strings_json(strs_view(v@)));
    }
}

/// One hash pair as a two-element JSON array.
pub open spec fn pair_json(p: (Seq<char>, Seq<char>)) -> Seq<char> {
    seq!['['] + jstr_spec(p.0) + seq![','] + jstr_spec(p.1) + seq![']']
}

/// The comma-separated pair items of a JSON array.
pub open spec fn pairs_json_items(w: Seq<(Seq<char>, Seq<char>)>) -> Seq<char>
    decreases w.len(),
{
    if w.len() == 0 {
        Seq::empty()
    } else if w.len() == 1 {
        pair_json(w[0])
    } else {
        pair_json(w[0]) + seq![','] + pairs_json_items(w.drop_first())
    }
}

/// A JSON array of hash pairs.
pub open spec fn pairs_json(w: Seq<(Seq<char>, Seq<char>)>) -> Seq<char> {
    seq!['['] + pairs_json_items(w) + seq![']']
}

proof fn lemma_pairs_json_items_push(w: Seq<(Seq<char>, Seq<char>)>, x: (Seq<char>, Seq<char>))
    ensures
        pairs_json_items(w.push(x)) == if w.len() == 0 {
            pair_json(x)
        } else {
            pairs_json_items(w) + seq![','] + pair_json(x)
        },
    decreases w.len(),
{
    let p = w.push(x);
    if w.len() == 0 {
        assert(p.len() == 1 && p[0] == x);
    } else {
        assert(p[0] == w[0]);
        assert(p.drop_first() =~= w.drop_first().push(x));
        lemma_pairs_json_items_push(w.drop_first(), x);
        if w.len() == 1 {
        } else {
            assert(pair_json(w[0]) + seq![','] + (pairs_json_items(w.drop_first()) + seq![',']
                + pair_json(x)) =~= (pair_json(w[0]) + seq![','] + pairs_json_items(
                w.drop_first(),
            )) + seq![','] + pair_json(x));
        }
    }
}

/// Append a JSON array of hash pairs.
pub fn push_pairs_json(out: &mut Vec<char>, v: &Vec<(String, String)>)
    ensures
        final(out)@ == old(out)@ + pairs_json(pairs_view(v@)),
{
    out.push('[');
    let mut i: usize = 0;
    while i < v.len()
        invariant
            i <= v@.len(),
            out@ == old(out)@ + seq!['['] + pairs_json_items(pairs_view(v@.subrange(0, i as int))),
        decreases v@.len() - i,
    {
        let ghost pre = pairs_view(v@.subrange(0, i as int));
        if i > 0 {
            out.push(',');
        }
        out.push('[');
        push_json_string(out, v[i].0.as_str());
        out.push(',');
        push_json_string(out, v[i].1.as_str());
        out.push(']');
        proof {
            assert(pairs_view(v@.subrange(0, i + 1)) =~= pre.push(
                (v@[i as int].0@, v@[i as int].1@),
            )) by {
                assert(v@.subrange(0, i + 1) =~= v@.subrange(0, i as int).push(v@[i as int]));
            }
            lemma_pairs_json_items_push(pre, (v@[i as int].0@, v@[i as int].1@));
            assert(out@ =~= old(out)@ + seq!['['] + pairs_json_items(
                pairs_view(v@.subrange(0, i + 1)),
            ));
        }
        i = i + 1;
    }
    out.push(']');
    proof {
        assert(v@.subrange(0, v@.len() as int) =~= v@);
        assert(out@ =~= old(out)@ + pairs_json(pairs_view(v@)));
    }
}

/// The canonical JSON tuple a lock entry is hashed over, given its
/// normalized world list and hash pairs.
pub open spec fn canon_entry_json(
    ev: LockEntryView,
    w: Seq<Seq<char>>,
    p: Seq<(Seq<char>, Seq<char>)>,
) -> Seq<char> {
    seq!['['] + jstr_spec(lower_spec(trim_spec(ev.source))) + seq![','] + jstr_spec(
        lower_spec(trim_spec(ev.project_id)),
    ) + seq![','] + jstr_spec(trim_spec(ev.version_id)) + seq![','] + jstr_spec(
        trim_spec(ev.name),
    ) + seq![','] + jstr_spec(trim_spec(ev.version_number)) + seq![','] + jstr_spec(
        trim_spec(ev.filename),
    ) + seq![','] + jstr_spec(normalized_content_type_spec(ev.content_type)) + seq![',']
        + jstr_spec(normalized_target_scope_spec(ev.target_scope)) + seq![','] + strings_json(w)
        + seq![','] + bool_json(ev.enabled) + seq![','] + pairs_json(p) + seq![']']
}

/// Whether `h` is the canonical content hash of the entry `ev`.
pub open spec fn entry_hash_matches(ev: LockEntryView, h: Seq<char>) -> bool {
    exists|w: Seq<Seq<char>>, p: Seq<(Seq<char>, Seq<char>)>|
        {
            &&& #[trigger] worlds_norm_ok(ev.target_worlds, w)
            &&& #[trigger] normalized_pairs_ok(ev.hashes, p)
            &&& h == sha256_hex_of(vstd::utf8::encode_utf8(canon_entry_json(ev, w, p)))
        }
}

/// The canonical content hash of one lock entry: SHA-256 over the JSON
/// encoding of the entry's normalized fields. The hash does not depend on
/// hash-map ordering, duplicate algorithms, whitespace or case in digests,
/// or world-list ordering.
#[verifier::rlimit(100)]
pub fn lock_entry_hash(entry: &CanonicalLockEntry) -> (r: String)
    ensures
        entry_hash_matches(entry@, r@),
{
    let worlds = normalized_worlds(&entry.target_worlds);
    let pairs = normalized_hashes_pairs(&entry.hashes);
    let mut j: Vec<char> = Vec::new();
    j.push('[');
    let src = trim_lower(entry.source.as_str());
    push_json_string(&mut j, src.as_str());
    j.push(',');
    let pid = trim_lower(entry.project_id.as_str());
    push_json_string(&mut j, pid.as_str());
    j.push(',');
    let vid = trim_string(entry.version_id.as_str());
    push_json_string(&mut j, vid.as_str());
    j.push(',');
    let nm = trim_string(entry.name.as_str());
    push_json_string(&mut j, nm.as_str());
    j.push(',');
    let vn = trim_string(entry.version_number.as_str());
    push_json_string(&mut j, vn.as_str());
    j.push(',');
    let fnm = trim_string(entry.filename.as_str());
    push_json_string(&mut j, fnm.as_str());
    j.push(',');
    let ct = normalized_content_type(entry.content_type.as_str());
    push_json_string(&mut j, ct.as_str());
    j.push(',');
    let ts = normalized_target_scope(entry.target_scope.as_str());
    push_json_string(&mut j, ts.as_str());
    j.push(',');
    push_strings_json(&mut j, &worlds);
    j.push(',');
    if entry.enabled {
        crate::text::push_str_chars(&mut j, "true");
        proof {
            reveal_strlit("true");
            assert("true"@ =~= bool_json(true));
        }
    } else {
        crate::text::push_str_chars(&mut j, "false");
        proof {
            reveal_strlit("false");
            assert("false"@ =~= bool_json(false));
        }
    }
    j.push(',');
    push_pairs_json(&mut j, &pairs);
    j.push(']');
    proof {
        assert(j@ =~= canon_entry_json(entry@, strs_view(worlds@), pairs_view(pairs@)));
    }
    let text = crate::text::string_from_chars(&j);
    let h = crate::trusted::sha256_hex(text.as_str().as_bytes());
    proof {
        assert(entry_hash_matches(entry@, h@)) by {
            assert(worlds_norm_ok(entry@.target_worlds, strs_view(worlds@)));
            assert(normalized_pairs_ok(entry@.hashes, pairs_view(pairs@)));
        }
    }
    h
}

/// Noise equivalence of two entries: they agree on every normalized field,
/// on the set of target worlds, and on the admitted hash algorithms with
/// their least values.
pub open spec fn entry_noise_equiv(a: LockEntryView, b: LockEntryView) -> bool {
    &&& lower_spec(trim_spec(a.source)) == lower_spec(trim_spec(b.source))
    &&& lower_spec(trim_spec(a.project_id)) == lower_spec(trim_spec(b.project_id))
    &&& trim_spec(a.version_id) == trim_spec(b.version_id)
    &&& trim_spec(a.name) == trim_spec(b.name)
    &&& trim_spec(a.version_number) == trim_spec(b.version_number)
    &&& trim_spec(a.filename) == trim_spec(b.filename)
    &&& normalized_content_type_spec(a.content_type) == normalized_content_type_spec(
        b.content_type,
    )
    &&& normalized_target_scope_spec(a.target_scope) == normalized_target_scope_spec(
        b.target_scope,
    )
    &&& a.enabled == b.enabled
    &&& forall|s: Seq<char>| #[trigger]
        a.target_worlds.contains(s) <==> b.target_worlds.contains(s)
    &&& forall|k: Seq<char>| #[trigger] admits_key(a.hashes, k) <==> admits_key(b.hashes, k)
    &&& forall|k: Seq<char>, v: Seq<char>|
        admits_key(a.hashes, k) ==> (#[trigger] is_min_val(a.hashes, k, v) <==> is_min_val(
            b.hashes,
            k,
            v,
        ))
}

/// Noise-equivalent entries carry the same canonical content hash.
pub proof fn lemma_lock_entry_hash_deterministic(
    a: LockEntryView,
    b: LockEntryView,
    ha: Seq<char>,
    hb: Seq<char>,
)
    requires
        entry_hash_matches(a, ha),
        entry_hash_matches(b, hb),
        entry_noise_equiv(a, b),
    ensures
        ha == hb,
{
    let (wa, pa): (Seq<Seq<char>>, Seq<(Seq<char>, Seq<char>)>) = choose|
        w: Seq<Seq<char>>,
        p: Seq<(Seq<char>, Seq<char>)>,
    |
        {
            &&& #[trigger] worlds_norm_ok(a.target_worlds, w)
            &&& #[trigger] normalized_pairs_ok(a.hashes, p)
            &&& ha == sha256_hex_of(vstd::utf8::encode_utf8(canon_entry_json(a, w, p)))
        };
    let (wb, pb): (Seq<Seq<char>>, Seq<(Seq<char>, Seq<char>)>) = choose|
        w: Seq<Seq<char>>,
        p: Seq<(Seq<char>, Seq<char>)>,
    |
        {
            &&& #[trigger] worlds_norm_ok(b.target_worlds, w)
            &&& #[trigger] normalized_pairs_ok(b.hashes, p)
            &&& hb == sha256_hex_of(vstd::utf8::encode_utf8(canon_entry_json(b, w, p)))
        };
    assert(wa == wb) by {
        assert forall|s: Seq<char>| #[trigger] wa.contains(s) implies wb.contains(s) by {
            assert(a.target_worlds.contains(s));
            assert(b.target_worlds.contains(s));
        }
        assert forall|s: Seq<char>| #[trigger] wb.contains(s) implies wa.contains(s) by {
            assert(b.target_worlds.contains(s));
            assert(a.target_worlds.contains(s));
        }
        lemma_sorted_strs_unique(wa, wb);
    }
    assert(pa == pb) by {
        lemma_normalized_pairs_unique(a.hashes, b.hashes, pa, pb);
    }
    assert(canon_entry_json(a, wa, pa) == canon_entry_json(b, wb, pb));
}

/// The store key of a lock entry: source, content type and project id,
/// trimmed and lower-cased.
pub open spec fn lock_key_spec(ev: LockEntryView) -> Seq<char> {
    "lock::"@ + lower_spec(trim_spec(ev.source)) + "::"@ + lower_spec(trim_spec(ev.content_type))
        + "::"@ + lower_spec(trim_spec(ev.project_id))
}

/// Compute the store key of a lock entry.
pub fn lock_key_for(entry: &CanonicalLockEntry) -> (r: String)
    ensures
        r@ == lock_key_spec(entry@),
{
    let mut out: Vec<char> = Vec::new();
    crate::text::push_str_chars(&mut out, "lock::");
    let src = trim_lower(entry.source.as_str());
    crate::text::push_str_chars(&mut out, src.as_str());
    crate::text::push_str_chars(&mut out, "::");
    let ct = trim_lower(entry.content_type.as_str());
    crate::text::push_str_chars(&mut out, ct.as_str());
    crate::text::push_str_chars(&mut out, "::");
    let pid = trim_lower(entry.project_id.as_str());
    crate::text::push_str_chars(&mut out, pid.as_str());
    proof {
        assert(out@ =~= lock_key_spec(entry@));
    }
    crate::text::string_from_chars(&out)
}

/// The store key of a config file: its lower-cased path.
pub open spec fn config_key_spec(path: Seq<char>) -> Seq<char> {
    "config::"@ + lower_spec(path)
}

/// Compute the store key of a config file path.
pub fn config_key_for(path: &str) -> (r: String)
    ensures
        r@ == config_key_spec(path@),
{
    let mut out: Vec<char> = Vec::new();
    crate::text::push_str_chars(&mut out, "config::");
    let v = crate::text::chars_vec(path);
    let l = crate::text::lower_chars(&v);
    crate::text::push_all(&mut out, &l);
    proof {
        assert(out@ =~= config_key_spec(path@));
    }
    crate::text::string_from_chars(&out)
}

/// A config file's content hash is carried on the record itself.
pub fn config_file_hash(file: &ConfigFileState) -> (r: String)
    ensures
        r@ == file.hash@,
{
    clone_string(&file.hash)
}

} // verus!

verus! {

/// A manifest row view: key, hash, kind.
pub open spec fn triples_view(s: Seq<(String, String, String)>) -> Seq<
    (Seq<char>, Seq<char>, Seq<char>),
> {
    s.map_values(|t: (String, String, String)| (t.0@, t.1@, t.2@))
}

/// Total lexicographic order on manifest rows.
pub open spec fn triple_le(
    a: (Seq<char>, Seq<char>, Seq<char>),
    b: (Seq<char>, Seq<char>, Seq<char>),
) -> bool {
    if a.0 != b.0 {
        seq_le(a.0, b.0)
    } else if a.1 != b.1 {
        seq_le(a.1, b.1)
    } else {
        seq_le(a.2, b.2)
    }
}

/// `triple_le` is a total ordering, so sorting by it is deterministic.
pub proof fn lemma_triple_le_total_ordering()
    ensures
        vstd::relations::total_ordering(|a: (Seq<char>, Seq<char>, Seq<char>), b: (
            Seq<char>,
            Seq<char>,
            Seq<char>,
        )| triple_le(a, b)),
{
    let leq = |a: (Seq<char>, Seq<char>, Seq<char>), b: (Seq<char>, Seq<char>, Seq<char>)|
        triple_le(a, b);
    assert forall|x: (Seq<char>, Seq<char>, Seq<char>)| #[trigger] leq(x, x) by {
        crate::text::lemma_seq_le_refl(x.2);
    }
    assert forall|x: (Seq<char>, Seq<char>, Seq<char>), y: (Seq<char>, Seq<char>, Seq<char>)|
        #[trigger] leq(x, y) && #[trigger] leq(y, x) implies x == y by {
        if x.0 != y.0 {
            crate::text::lemma_seq_le_antisym(x.0, y.0);
        } else if x.1 != y.1 {
            crate::text::lemma_seq_le_antisym(x.1, y.1);
        } else {
            crate::text::lemma_seq_le_antisym(x.2, y.2);
        }
    }
    assert forall|
        x: (Seq<char>, Seq<char>, Seq<char>),
        y: (Seq<char>, Seq<char>, Seq<char>),
        z: (Seq<char>, Seq<char>, Seq<char>),
    |
        #[trigger] leq(x, y) && #[trigger] leq(y, z) implies leq(x, z) by {
        lemma_triple_le_trans(x, y, z);
    }
    assert forall|x: (Seq<char>, Seq<char>, Seq<char>), y: (Seq<char>, Seq<char>, Seq<char>)| #[trigger]
        leq(x, y) || #[trigger] leq(y, x) by {
        if x.0 != y.0 {
            crate::text::lemma_seq_le_total(x.0, y.0);
        } else if x.1 != y.1 {
            crate::text::lemma_seq_le_total(x.1, y.1);
        } else {
            crate::text::lemma_seq_le_total(x.2, y.2);
        }
    }
}

proof fn lemma_triple_le_trans(
    x: (Seq<char>, Seq<char>, Seq<char>),
    y: (Seq<char>, Seq<char>, Seq<char>),
    z: (Seq<char>, Seq<char>, Seq<char>),
)
    requires
        triple_le(x, y),
        triple_le(y, z),
    ensures
        triple_le(x, z),
{
    if x.0 != y.0 || y.0 != z.0 {
        if x.0 == y.0 {
            crate::text::lemma_seq_le_refl(x.0);
        }
        if y.0 == z.0 {
            crate::text::lemma_seq_le_refl(y.0);
        }
        crate::text::lemma_seq_le_trans(x.0, y.0, z.0);
        if x.0 == z.0 {
            crate::text::lemma_seq_le_antisym(x.0, y.0);
            crate::text::lemma_seq_le_antisym(y.0, z.0);
        }
    } else {
        if x.1 != y.1 || y.1 != z.1 {
            if x.1 == y.1 {
                crate::text::lemma_seq_le_refl(x.1);
            }
            if y.1 == z.1 {
                crate::text::lemma_seq_le_refl(y.1);
            }
            crate::text::lemma_seq_le_trans(x.1, y.1, z.1);
            if x.1 == z.1 {
                crate::text::lemma_seq_le_antisym(x.1, y.1);
                crate::text::lemma_seq_le_antisym(y.1, z.1);
            }
        } else {
            crate::text::lemma_seq_le_trans(x.2, y.2, z.2);
        }
    }
}

fn triple_le_probe(a: &(String, String, String), b: &(String, String, String)) -> (r: bool)
    ensures
        r == triple_le((a.0@, a.1@, a.2@), (b.0@, b.1@, b.2@)),
{
    let k_eq = crate::text::str_eq(&a.0, &b.0);
    if !k_eq {
        return crate::text::str_lt_probe(&a.0, &b.0) || {
            let le = !crate::text::str_lt_probe(&b.0, &a.0);
            proof {
                crate::text::lemma_seq_le_total(a.0@, b.0@);
            }
            le
        };
    }
    let h_eq = crate::text::str_eq(&a.1, &b.1);
    if !h_eq {
        let lt = crate::text::str_lt_probe(&a.1, &b.1);
        proof {
            crate::text::lemma_seq_le_total(a.1@, b.1@);
        }
        return lt;
    }
    let le2 = !crate::text::str_lt_probe(&b.2, &a.2);
    proof {
        crate::text::lemma_seq_le_refl(a.2@);
        crate::text::lemma_seq_le_total(a.2@, b.2@);
        if !le2 && seq_le(a.2@, b.2@) {
            crate::text::lemma_seq_le_antisym(a.2@, b.2@);
        }
    }
    le2
}

/// First position in a sorted row list whose row is not below `x`.
fn triple_lower_bound(out: &Vec<(String, String, String)>, x: &(String, String, String)) -> (idx:
    usize)
    ensures
        idx <= out@.len(),
        forall|m: int|
            0 <= m < idx ==> triple_le(#[trigger] triples_view(out@)[m], (x.0@, x.1@, x.2@)),
        idx < out@.len() ==> !triple_le(triples_view(out@)[idx as int], (x.0@, x.1@, x.2@)),
{
    let mut idx: usize = 0;
    while idx < out.len()
        invariant
            idx <= out@.len(),
            forall|m: int|
                0 <= m < idx ==> triple_le(#[trigger] triples_view(out@)[m], (x.0@, x.1@, x.2@)),
        decreases out@.len() - idx,
    {
        let below = triple_le_probe(&out[idx], x);
        if !below {
            return idx;
        }
        idx = idx + 1;
    }
    idx
}

/// Inserting a row at its sorted position keeps the list sorted and adds
/// the row to its multiset.
proof fn lemma_sort_insert_step(
    pb: Seq<(Seq<char>, Seq<char>, Seq<char>)>,
    pa: Seq<(Seq<char>, Seq<char>, Seq<char>)>,
    rv: (Seq<char>, Seq<char>, Seq<char>),
    idx: int,
)
    requires
        0 <= idx <= pb.len(),
        pa.len() == pb.len() + 1,
        forall|m: int| 0 <= m < idx ==> pa[m] == #[trigger] pb[m],
        forall|m: int| idx < m < pa.len() ==> pa[m] == #[trigger] pb[m - 1],
        pa[idx] == rv,
        forall|m: int| 0 <= m < idx ==> triple_le(#[trigger] pb[m], rv),
        idx < pb.len() ==> !triple_le(pb[idx], rv),
        vstd::relations::sorted_by(
            pb,
            |a: (Seq<char>, Seq<char>, Seq<char>), b: (Seq<char>, Seq<char>, Seq<char>)|
                triple_le(a, b),
        ),
    ensures
        vstd::relations::sorted_by(
            pa,
            |a: (Seq<char>, Seq<char>, Seq<char>), b: (Seq<char>, Seq<char>, Seq<char>)|
                triple_le(a, b),
        ),
        pa.to_multiset() == pb.to_multiset().insert(rv),
{
    let leqf = |a: (Seq<char>, Seq<char>, Seq<char>), b: (Seq<char>, Seq<char>, Seq<char>)|
        triple_le(a, b);
    assert forall|x: int, y: int| 0 <= x <= y < pa.len() implies leqf(
        #[trigger] pa[x],
        #[trigger] pa[y],
    ) by {
        if x == y {
            lemma_triple_le_refl(pa[x]);
        } else if x < idx && y < idx {
            assert(pa[x] == pb[x] && pa[y] == pb[y]);
            assert(leqf(pb[x], pb[y]));
        } else if x < idx && y == idx {
            assert(pa[x] == pb[x]);
            assert(triple_le(pb[x], rv));
        } else if x < idx && y > idx {
            assert(pa[x] == pb[x] && pa[y] == pb[y - 1]);
            assert(leqf(pb[x], pb[y - 1]));
        } else if x == idx && y > idx {
            assert(pa[y] == pb[y - 1]);
            assert(!triple_le(pb[idx], rv));
            lemma_triple_le_total(rv, pb[idx]);
            assert(triple_le(rv, pb[idx]));
            if y - 1 > idx {
                assert(leqf(pb[idx], pb[y - 1]));
                lemma_triple_le_trans(rv, pb[idx], pb[y - 1]);
            }
        } else {
            assert(pa[x] == pb[x - 1] && pa[y] == pb[y - 1]);
            assert(leqf(pb[x - 1], pb[y - 1]));
        }
    }
    let decomp = pb.subrange(0, idx).push(rv) + pb.subrange(idx, pb.len() as int);
    assert(pa =~= decomp) by {
        assert(decomp.len() == pa.len());
        assert forall|m: int| 0 <= m < pa.len() implies pa[m] == decomp[m] by {
            if m < idx {
                assert(decomp[m] == pb.subrange(0, idx)[m]);
                assert(pa[m] == pb[m]);
            } else if m == idx {
                assert(decomp[m] == rv);
            } else {
                assert(decomp[m] == pb.subrange(idx, pb.len() as int)[m - idx - 1]);
                assert(pa[m] == pb[m - 1]);
            }
        }
    }
    broadcast use vstd::seq_lib::group_to_multiset_ensures;

    assert(pb.subrange(0, idx) + pb.subrange(idx, pb.len() as int) =~= pb);
    vstd::seq_lib::lemma_multiset_commutative(
        pb.subrange(0, idx),
        pb.subrange(idx, pb.len() as int),
    );
    vstd::seq_lib::lemma_multiset_commutative(
        pb.subrange(0, idx).push(rv),
        pb.subrange(idx, pb.len() as int),
    );
    assert(pb.subrange(0, idx).push(rv).to_multiset() =~= pb.subrange(0, idx).to_multiset().insert(
        rv,
    ));
    assert(pa.to_multiset() == decomp.to_multiset());
    assert(pa.to_multiset() =~= pb.to_multiset().insert(rv));
}

/// One triple is below another or the other way round.
proof fn lemma_triple_le_total(
    a: (Seq<char>, Seq<char>, Seq<char>),
    b: (Seq<char>, Seq<char>, Seq<char>),
)
    ensures
        triple_le(a, b) || triple_le(b, a),
{
    if a.0 != b.0 {
        crate::text::lemma_seq_le_total(a.0, b.0);
    } else if a.1 != b.1 {
        crate::text::lemma_seq_le_total(a.1, b.1);
    } else {
        crate::text::lemma_seq_le_total(a.2, b.2);
    }
}

proof fn lemma_triple_le_refl(a: (Seq<char>, Seq<char>, Seq<char>))
    ensures
        triple_le(a, a),
{
    crate::text::lemma_seq_le_refl(a.2);
}

/// Sort manifest rows into the canonical order.
fn sort_triples(rows: &Vec<(String, String, String)>) -> (r: Vec<(String, String, String)>)
    ensures
        triples_view(r@) == triples_view(rows@).sort_by(
            |a: (Seq<char>, Seq<char>, Seq<char>), b: (Seq<char>, Seq<char>, Seq<char>)|
                triple_le(a, b),
        ),
{
    let ghost leq = |a: (Seq<char>, Seq<char>, Seq<char>), b: (Seq<char>, Seq<char>, Seq<char>)|
        triple_le(a, b);
    let mut out: Vec<(String, String, String)> = Vec::new();
    let mut i: usize = 0;
    proof {
        broadcast use vstd::seq_lib::group_to_multiset_ensures;

    }
    while i < rows.len()
        invariant
            i <= rows@.len(),
            vstd::relations::sorted_by(triples_view(out@), |a: (Seq<char>, Seq<char>, Seq<char>), b: (
                Seq<char>,
                Seq<char>,
                Seq<char>,
            )| triple_le(a, b)),
            triples_view(out@).to_multiset() == triples_view(rows@.subrange(0, i as int)).to_multiset(),
        decreases rows@.len() - i,
    {
        let row = (
            clone_string(&rows[i].0),
            clone_string(&rows[i].1),
            clone_string(&rows[i].2),
        );
        let ghost rv = (row.0@, row.1@, row.2@);
        let n = out.len();
        let idx = triple_lower_bound(&out, &row);
        proof {
            if idx < n {
                assert(!triple_le(triples_view(out@)[idx as int], rv));
            }
        }
        let ghost before = out@;
        let ghost before_prefix = triples_view(rows@.subrange(0, i as int));
        out.insert(idx, row);
        i = i + 1;
        proof {
            lemma_sort_insert_step(triples_view(before), triples_view(out@), rv, idx as int);
            assert(triples_view(rows@.subrange(0, i as int)) =~= before_prefix.push(rv)) by {
                assert(rows@.subrange(0, i as int) =~= rows@.subrange(0, i - 1).push(
                    rows@[i - 1],
                ));
            }
            broadcast use vstd::seq_lib::group_to_multiset_ensures;

            assert(triples_view(rows@.subrange(0, i as int)).to_multiset() =~= before_prefix.to_multiset().insert(rv));
        }
    }
    proof {
        assert(rows@.subrange(0, rows@.len() as int) =~= rows@);
        let tv = triples_view(rows@);
        lemma_triple_le_total_ordering();
        tv.lemma_sort_by_ensures(
            |a: (Seq<char>, Seq<char>, Seq<char>), b: (Seq<char>, Seq<char>, Seq<char>)|
                triple_le(a, b),
        );
        vstd::seq_lib::lemma_sorted_unique(
            triples_view(out@),
            tv.sort_by(
                |a: (Seq<char>, Seq<char>, Seq<char>), b: (Seq<char>, Seq<char>, Seq<char>)|
                    triple_le(a, b),
            ),
            |a: (Seq<char>, Seq<char>, Seq<char>), b: (Seq<char>, Seq<char>, Seq<char>)|
                triple_le(a, b),
        );
    }
    out
}

/// Whether `rows` are the unsorted manifest rows of the given entries and
/// config files: one row per lock entry carrying its key and canonical
/// hash, then one row per config file carrying its key and recorded hash.
pub open spec fn manifest_rows_ok(
    entries: Seq<LockEntryView>,
    configs: Seq<ConfigFileView>,
    rows: Seq<(Seq<char>, Seq<char>, Seq<char>)>,
) -> bool {
    &&& rows.len() == entries.len() + configs.len()
    &&& forall|i: int|
        0 <= i < entries.len() ==> {
            &&& (#[trigger] rows[i]).0 == lock_key_spec(entries[i])
            &&& entry_hash_matches(entries[i], rows[i].1)
            &&& rows[i].2 == "lock_entry"@
        }
    &&& forall|i: int|
        0 <= i < configs.len() ==> {
            &&& (#[trigger] rows[entries.len() + i]).0 == config_key_spec(configs[i].path)
            &&& rows[entries.len() + i].1 == configs[i].hash
            &&& rows[entries.len() + i].2 == "config_file"@
        }
}

/// The views of a lock entry list.
pub open spec fn entries_view(s: Seq<CanonicalLockEntry>) -> Seq<LockEntryView> {
    s.map_values(|e: CanonicalLockEntry| e@)
}

/// The views of a config file list.
pub open spec fn configs_view(s: Seq<ConfigFileState>) -> Seq<ConfigFileView> {
    s.map_values(|f: ConfigFileState| f@)
}

/// Build the sorted manifest of a state: `(key, hash, kind)` rows for every
/// lock entry and config file, in the canonical order.
#[verifier::rlimit(50)]
pub fn state_manifest(state: &SyncState) -> (r: Vec<(String, String, String)>)
    ensures
        exists|rows: Seq<(Seq<char>, Seq<char>, Seq<char>)>|
            #[trigger] manifest_rows_ok(
                entries_view(state.lock_entries@),
                configs_view(state.config_files@),
                rows,
            ) && triples_view(r@) == rows.sort_by(
                |a: (Seq<char>, Seq<char>, Seq<char>), b: (Seq<char>, Seq<char>, Seq<char>)|
                    triple_le(a, b),
            ),
{
    let mut rows: Vec<(String, String, String)> = Vec::new();
    let mut i: usize = 0;
    while i < state.lock_entries.len()
        invariant
            i <= state.lock_entries@.len(),
            rows@.len() == i,
            forall|m: int|
                0 <= m < i ==> {
                    &&& (#[trigger] triples_view(rows@)[m]).0 == lock_key_spec(
                        entries_view(state.lock_entries@)[m],
                    )
                    &&& entry_hash_matches(
                        entries_view(state.lock_entries@)[m],
                        triples_view(rows@)[m].1,
                    )
                    &&& triples_view(rows@)[m].2 == "lock_entry"@
                },
        decreases state.lock_entries@.len() - i,
    {
        let e = &state.lock_entries[i];
        let key = lock_key_for(e);
        let h = lock_entry_hash(e);
        let ghost before_rows = rows@;
        rows.push((key, h, lit_string("lock_entry")));
        i = i + 1;
        proof {
            assert(forall|m: int|
                0 <= m < before_rows.len() ==> #[trigger] rows@[m] == before_rows[m]);
            assert(forall|m: int|
                0 <= m < before_rows.len() ==> #[trigger] triples_view(rows@)[m] == triples_view(
                    before_rows,
                )[m]);
            assert(entries_view(state.lock_entries@)[i - 1] == state.lock_entries@[i - 1]@);
            assert(triples_view(rows@)[i - 1].0 == rows@[i - 1].0@);
            assert(triples_view(rows@)[i - 1].1 == rows@[i - 1].1@);
            assert(triples_view(rows@)[i - 1].2 == rows@[i - 1].2@);
        }
    }
    let ghost n_e = state.lock_entries@.len() as int;
    let mut c: usize = 0;
    while c < state.config_files.len()
        invariant
            c <= state.config_files@.len(),
            rows@.len() == n_e + c,
            n_e == state.lock_entries@.len(),
            forall|m: int|
                0 <= m < n_e ==> {
                    &&& (#[trigger] triples_view(rows@)[m]).0 == lock_key_spec(
                        entries_view(state.lock_entries@)[m],
                    )
                    &&& entry_hash_matches(
                        entries_view(state.lock_entries@)[m],
                        triples_view(rows@)[m].1,
                    )
                    &&& triples_view(rows@)[m].2 == "lock_entry"@
                },
            forall|m: int|
                0 <= m < c ==> {
                    &&& (#[trigger] triples_view(rows@)[n_e + m]).0 == config_key_spec(
                        configs_view(state.config_files@)[m].path,
                    )
                    &&& triples_view(rows@)[n_e + m].1 == configs_view(
                        state.config_files@,
                    )[m].hash
                    &&& triples_view(rows@)[n_e + m].2 == "config_file"@
                },
        decreases state.config_files@.len() - c,
    {
        let f = &state.config_files[c];
        let key = config_key_for(f.path.as_str());
        let h = clone_string(&f.hash);
        let ghost before_rows = rows@;
        rows.push((key, h, lit_string("config_file")));
        c = c + 1;
        proof {
            assert(forall|m: int|
                0 <= m < before_rows.len() ==> #[trigger] rows@[m] == before_rows[m]);
            assert(forall|m: int|
                0 <= m < before_rows.len() ==> #[trigger] triples_view(rows@)[m] == triples_view(
                    before_rows,
                )[m]);
            assert(configs_view(state.config_files@)[c - 1] == state.config_files@[c - 1]@);
            assert(triples_view(rows@)[n_e + c - 1].0 == rows@[n_e + c - 1].0@);
            assert(triples_view(rows@)[n_e + c - 1].1 == rows@[n_e + c - 1].1@);
            assert(triples_view(rows@)[n_e + c - 1].2 == rows@[n_e + c - 1].2@);
        }
    }
    let sorted = sort_triples(&rows);
    proof {
        assert(manifest_rows_ok(
            entries_view(state.lock_entries@),
            configs_view(state.config_files@),
            triples_view(rows@),
        ));
    }
    sorted
}

/// The comma-separated row items of the manifest JSON.
pub open spec fn triples_json_items(w: Seq<(Seq<char>, Seq<char>, Seq<char>)>) -> Seq<char>
    decreases w.len(),
{
    if w.len() == 0 {
        Seq::empty()
    } else if w.len() == 1 {
        triple_json(w[0])
    } else {
        triple_json(w[0]) + seq![','] + triples_json_items(w.drop_first())
    }
}

/// One manifest row as a three-element JSON array.
pub open spec fn triple_json(t: (Seq<char>, Seq<char>, Seq<char>)) -> Seq<char> {
    seq!['['] + jstr_spec(t.0) + seq![','] + jstr_spec(t.1) + seq![','] + jstr_spec(t.2) + seq![
        ']',
    ]
}

/// The manifest as a JSON array of rows.
pub open spec fn manifest_json(w: Seq<(Seq<char>, Seq<char>, Seq<char>)>) -> Seq<char> {
    seq!['['] + triples_json_items(w) + seq![']']
}

proof fn lemma_triples_json_items_push(
    w: Seq<(Seq<char>, Seq<char>, Seq<char>)>,
    x: (Seq<char>, Seq<char>, Seq<char>),
)
    ensures
        triples_json_items(w.push(x)) == if w.len() == 0 {
            triple_json(x)
        } else {
            triples_json_items(w) + seq![','] + triple_json(x)
        },
    decreases w.len(),
{
    let p = w.push(x);
    if w.len() == 0 {
        assert(p.len() == 1 && p[0] == x);
    } else {
        assert(p[0] == w[0]);
        assert(p.drop_first() =~= w.drop_first().push(x));
        lemma_triples_json_items_push(w.drop_first(), x);
        if w.len() > 1 {
            assert(triple_json(w[0]) + seq![','] + (triples_json_items(w.drop_first()) + seq![',']
                + triple_json(x)) =~= (triple_json(w[0]) + seq![','] + triples_json_items(
                w.drop_first(),
            )) + seq![','] + triple_json(x));
        }
    }
}

/// The state hash over a sorted manifest: SHA-256 of its JSON encoding.
pub fn manifest_state_hash(manifest: &Vec<(String, String, String)>) -> (r: String)
    ensures
        r@ == sha256_hex_of(vstd::utf8::encode_utf8(manifest_json(triples_view(manifest@)))),
{
    let mut j: Vec<char> = Vec::new();
    j.push('[');
    let mut i: usize = 0;
    while i < manifest.len()
        invariant
            i <= manifest@.len(),
            j@ == seq!['['] + triples_json_items(triples_view(manifest@.subrange(0, i as int))),
        decreases manifest@.len() - i,
    {
        let ghost pre = triples_view(manifest@.subrange(0, i as int));
        if i > 0 {
            j.push(',');
        }
        j.push('[');
        push_json_string(&mut j, manifest[i].0.as_str());
        j.push(',');
        push_json_string(&mut j, manifest[i].1.as_str());
        j.push(',');
        push_json_string(&mut j, manifest[i].2.as_str());
        j.push(']');
        proof {
            let t = manifest@[i as int];
            assert(triples_view(manifest@.subrange(0, i + 1)) =~= pre.push((t.0@, t.1@, t.2@))) by {
                assert(manifest@.subrange(0, i + 1) =~= manifest@.subrange(0, i as int).push(t));
            }
            lemma_triples_json_items_push(pre, (t.0@, t.1@, t.2@));
            assert(j@ =~= seq!['['] + triples_json_items(
                triples_view(manifest@.subrange(0, i + 1)),
            ));
        }
        i = i + 1;
    }
    j.push(']');
    proof {
        assert(manifest@.subrange(0, manifest@.len() as int) =~= manifest@);
        assert(j@ =~= manifest_json(triples_view(manifest@)));
    }
    let text = crate::text::string_from_chars(&j);
    crate::trusted::sha256_hex(text.as_str().as_bytes())
}

/// Whether `h` is the canonical state hash of the given entries and files.
pub open spec fn state_hash_matches(
    entries: Seq<LockEntryView>,
    configs: Seq<ConfigFileView>,
    h: Seq<char>,
) -> bool {
    exists|rows: Seq<(Seq<char>, Seq<char>, Seq<char>)>|
        #[trigger] manifest_rows_ok(entries, configs, rows) && h == sha256_hex_of(
            vstd::utf8::encode_utf8(
                manifest_json(
                    rows.sort_by(
                        |a: (Seq<char>, Seq<char>, Seq<char>), b: (Seq<char>, Seq<char>, Seq<char>)|
                            triple_le(a, b),
                    ),
                ),
            ),
        )
}

/// Assemble a `SyncState` from entries and config files: the state hash is
/// the canonical hash over both.
pub fn build_sync_state(lock_entries: Vec<CanonicalLockEntry>, config_files: Vec<ConfigFileState>) -> (r:
    SyncState)
    ensures
        r.lock_entries@ == lock_entries@,
        r.config_files@ == config_files@,
        state_hash_matches(
            entries_view(r.lock_entries@),
            configs_view(r.config_files@),
            r.state_hash@,
        ),
{
    let mut state = SyncState { state_hash: String::new(), lock_entries, config_files };
    let manifest = state_manifest(&state);
    let h = manifest_state_hash(&manifest);
    state.state_hash = h;
    state
}

/// Pointwise noise equivalence of two states: entries agree up to entry
/// noise and config files agree on path and hash.
pub open spec fn state_noise_equiv(
    e1: Seq<LockEntryView>,
    c1: Seq<ConfigFileView>,
    e2: Seq<LockEntryView>,
    c2: Seq<ConfigFileView>,
) -> bool {
    &&& e1.len() == e2.len()
    &&& c1.len() == c2.len()
    &&& forall|i: int| 0 <= i < e1.len() ==> entry_noise_equiv(#[trigger] e1[i], #[trigger] e2[i])
    &&& forall|i: int|
        0 <= i < c1.len() ==> (#[trigger] c1[i]).path == (#[trigger] c2[i]).path && c1[i].hash
            == c2[i].hash
    &&& forall|i: int|
        0 <= i < e1.len() ==> lock_key_spec(#[trigger] e1[i]) == lock_key_spec(#[trigger] e2[i])
}

/// The state hash is invariant under entry noise: hash-map reordering,
/// duplicate algorithm entries, whitespace and case in digest values, and
/// world-list reordering.
pub proof fn lemma_state_hash_deterministic(
    e1: Seq<LockEntryView>,
    c1: Seq<ConfigFileView>,
    e2: Seq<LockEntryView>,
    c2: Seq<ConfigFileView>,
    h1: Seq<char>,
    h2: Seq<char>,
)
    requires
        state_hash_matches(e1, c1, h1),
        state_hash_matches(e2, c2, h2),
        state_noise_equiv(e1, c1, e2, c2),
    ensures
        h1 == h2,
{
    let rows1 = choose|rows: Seq<(Seq<char>, Seq<char>, Seq<char>)>|
        #[trigger] manifest_rows_ok(e1, c1, rows) && h1 == sha256_hex_of(
            vstd::utf8::encode_utf8(
                manifest_json(
                    rows.sort_by(
                        |a: (Seq<char>, Seq<char>, Seq<char>), b: (Seq<char>, Seq<char>, Seq<char>)|
                            triple_le(a, b),
                    ),
                ),
            ),
        );
    let rows2 = choose|rows: Seq<(Seq<char>, Seq<char>, Seq<char>)>|
        #[trigger] manifest_rows_ok(e2, c2, rows) && h2 == sha256_hex_of(
            vstd::utf8::encode_utf8(
                manifest_json(
                    rows.sort_by(
                        |a: (Seq<char>, Seq<char>, Seq<char>), b: (Seq<char>, Seq<char>, Seq<char>)|
                            triple_le(a, b),
                    ),
                ),
            ),
        );
    assert(rows1 =~= rows2) by {
        assert(rows1.len() == rows2.len());
        assert forall|i: int| 0 <= i < rows1.len() implies rows1[i] == rows2[i] by {
            if i < e1.len() {
                lemma_lock_entry_hash_deterministic(e1[i], e2[i], rows1[i].1, rows2[i].1);
                assert(rows1[i].0 == rows2[i].0);
                assert(rows1[i].2 == rows2[i].2);
            } else {
                let m = i - e1.len();
                assert(rows1[e1.len() + m] == rows2[e2.len() + m]);
            }
        }
    }
}

} // verus!

verus! {

/// The greatest index below `upto` whose entry carries `key`, or -1 when
/// no entry below `upto` does.
pub open spec fn last_lock_index(
    entries: Seq<CanonicalLockEntry>,
    key: Seq<char>,
    upto: int,
) -> int
    decreases upto,
{
    if upto <= 0 {
        -1
    } else if lock_key_spec(entries[upto - 1]@) == key {
        upto - 1
    } else {
        last_lock_index(entries, key, upto - 1)
    }
}

/// Whether the map carries the key.
pub open spec fn lock_map_has_key(rows: Seq<(String, CanonicalLockEntry)>, key: Seq<char>) -> bool {
    exists|i: int| 0 <= i < rows.len() && (#[trigger] rows[i]).0@ == key
}

/// The lock map of an entry list: one row per distinct store key, carrying
/// the last entry of that key in input order, as a `HashMap` built by
/// insertion would.
#[verifier::loop_isolation(false)]
pub fn lock_entry_map(entries: &Vec<CanonicalLockEntry>) -> (r: Vec<(String, CanonicalLockEntry)>)
    ensures
        forall|i: int, j: int| 0 <= i < j < r@.len() ==> (#[trigger] r@[i]).0@ != (#[trigger] r@[j]).0@,
        forall|i: int|
            #![trigger r@[i]]
            0 <= i < r@.len() ==> last_lock_index(entries@, r@[i].0@, entries@.len() as int) >= 0
                && r@[i].1@ == entries@[last_lock_index(entries@, r@[i].0@, entries@.len() as int)]@,
        forall|m: int|
            0 <= m < entries@.len() ==> lock_map_has_key(
                r@,
                lock_key_spec(#[trigger] entries@[m]@),
            ),
{
    let mut out: Vec<(String, CanonicalLockEntry)> = Vec::new();
    let mut n: usize = 0;
    while n < entries.len()
        invariant
            n <= entries@.len(),
            forall|i: int, j: int|
                0 <= i < j < out@.len() ==> (#[trigger] out@[i]).0@ != (#[trigger] out@[j]).0@,
            forall|i: int|
                #![trigger out@[i]]
                0 <= i < out@.len() ==> last_lock_index(entries@, out@[i].0@, n as int) >= 0
                    && out@[i].1@ == entries@[last_lock_index(entries@, out@[i].0@, n as int)]@,
            forall|m: int|
                0 <= m < n ==> lock_map_has_key(out@, lock_key_spec(#[trigger] entries@[m]@)),
        decreases entries@.len() - n,
    {
        let e = &entries[n];
        proof {
            assert(*e == entries@[n as int]);
        }
        let key = lock_key_for(e);
        let value = crate::reconcile::duplicate_entry(e);
        let mut found: Option<usize> = Option::None;
        let mut w: usize = 0;
        while w < out.len()
            invariant
                w <= out@.len(),
                key@ == lock_key_spec(entries@[n as int]@),
                match found {
                    Option::Some(f) => f < out@.len() && out@[f as int].0@ == key@,
                    Option::None => forall|m: int|
                        0 <= m < w ==> (#[trigger] out@[m]).0@ != key@,
                },
            decreases out@.len() - w,
        {
            if crate::text::str_eq(&out[w].0, &key) {
                found = Option::Some(w);
            }
            w = w + 1;
        }
        let ghost before = out@;
        proof {
            // Stepping the bound: the new entry's key now ends at `n`; any
            // other key keeps its previous last occurrence.
            assert forall|k: Seq<char>| last_lock_index(entries@, k, n as int)
                >= 0 implies #[trigger] last_lock_index(entries@, k, n + 1) == if k == key@ {
                n as int
            } else {
                last_lock_index(entries@, k, n as int)
            } by {
                if k != key@ {
                    assert(lock_key_spec(entries@[n as int]@) != k);
                }
            }
        }
        match found {
            Option::Some(idx) => {
                out[idx] = (key, value);
                proof {
                    assert(forall|m: int|
                        0 <= m < before.len() && m != idx ==> out@[m] == #[trigger] before[m]);
                    assert(out@[idx as int].0@ == before[idx as int].0@);
                    assert(last_lock_index(entries@, key@, n + 1) == n as int);
                    assert forall|i: int| #![trigger out@[i]] 0 <= i < out@.len() implies
                        last_lock_index(entries@, out@[i].0@, n + 1) >= 0 && out@[i].1@
                            == entries@[last_lock_index(entries@, out@[i].0@, n + 1)]@ by {
                        if i == idx {
                            assert(out@[i].0@ == key@);
                            assert(out@[i].1@ == entries@[n as int]@);
                        } else {
                            assert(out@[i] == before[i]);
                            assert(before[i].0@ != key@) by {
                                if i < idx {
                                    assert(before[i].0@ != before[idx as int].0@);
                                } else {
                                    assert(before[idx as int].0@ != before[i].0@);
                                }
                            }
                            assert(last_lock_index(entries@, out@[i].0@, n + 1)
                                == last_lock_index(entries@, out@[i].0@, n as int));
                        }
                    }
                    assert forall|m: int| 0 <= m <= n implies lock_map_has_key(
                        out@,
                        lock_key_spec(#[trigger] entries@[m]@),
                    ) by {
                        if m < n {
                            let z = choose|z: int|
                                0 <= z < before.len() && (#[trigger] before[z]).0@
                                    == lock_key_spec(entries@[m]@);
                            if z == idx {
                                assert(out@[idx as int].0@ == lock_key_spec(entries@[m]@));
                            } else {
                                assert(out@[z].0@ == lock_key_spec(entries@[m]@));
                            }
                        } else {
                            assert(out@[idx as int].0@ == lock_key_spec(entries@[m]@));
                        }
                    }
                }
            },
            Option::None => {
                out.push((key, value));
                proof {
                    assert(forall|m: int|
                        0 <= m < before.len() ==> out@[m] == #[trigger] before[m]);
                    assert(out@[before.len() as int].0@ == key@);
                    assert(out@[before.len() as int].1@ == entries@[n as int]@);
                    assert(last_lock_index(entries@, key@, n + 1) == n as int);
                    assert forall|i: int, j: int| 0 <= i < j < out@.len() implies (
                    #[trigger] out@[i]).0@ != (#[trigger] out@[j]).0@ by {
                        if j < before.len() {
                            assert(before[i].0@ != before[j].0@);
                        } else {
                            assert(before[i].0@ != key@);
                        }
                    }
                    assert forall|i: int| #![trigger out@[i]] 0 <= i < out@.len() implies
                        last_lock_index(entries@, out@[i].0@, n + 1) >= 0 && out@[i].1@
                            == entries@[last_lock_index(entries@, out@[i].0@, n + 1)]@ by {
                        if i < before.len() {
                            assert(out@[i] == before[i]);
                            assert(before[i].0@ != key@);
                            assert(last_lock_index(entries@, out@[i].0@, n + 1)
                                == last_lock_index(entries@, out@[i].0@, n as int));
                        } else {
                            assert(out@[i].0@ == key@);
                        }
                    }
                    assert forall|m: int| 0 <= m <= n implies lock_map_has_key(
                        out@,
                        lock_key_spec(#[trigger] entries@[m]@),
                    ) by {
                        if m < n {
                            let z = choose|z: int|
                                0 <= z < before.len() && (#[trigger] before[z]).0@
                                    == lock_key_spec(entries@[m]@);
                            assert(out@[z].0@ == lock_key_spec(entries@[m]@));
                        } else {
                            assert(out@[before.len() as int].0@ == lock_key_spec(entries@[m]@));
                        }
                    }
                }
            },
        }
        n = n + 1;
    }
    out
}

/// The greatest index below `upto` whose file carries `key`, or -1 when no
/// file below `upto` does.
pub open spec fn last_config_index(files: Seq<ConfigFileState>, key: Seq<char>, upto: int) -> int
    decreases upto,
{
    if upto <= 0 {
        -1
    } else if config_key_spec(files[upto - 1].path@) == key {
        upto - 1
    } else {
        last_config_index(files, key, upto - 1)
    }
}

/// Whether the config map carries the key.
pub open spec fn config_map_has_key(rows: Seq<(String, ConfigFileState)>, key: Seq<char>) -> bool {
    exists|i: int| 0 <= i < rows.len() && (#[trigger] rows[i]).0@ == key
}

/// The config map of a file list: one row per distinct store key, carrying
/// the last file of that key in input order, as a `HashMap` built by
/// insertion would.
#[verifier::loop_isolation(false)]
pub fn config_file_map(files: &Vec<ConfigFileState>) -> (r: Vec<(String, ConfigFileState)>)
    ensures
        forall|i: int, j: int| 0 <= i < j < r@.len() ==> (#[trigger] r@[i]).0@ != (#[trigger] r@[j]).0@,
        forall|i: int|
            #![trigger r@[i]]
            0 <= i < r@.len() ==> last_config_index(files@, r@[i].0@, files@.len() as int) >= 0
                && r@[i].1@ == files@[last_config_index(files@, r@[i].0@, files@.len() as int)]@,
        forall|m: int|
            0 <= m < files@.len() ==> config_map_has_key(
                r@,
                config_key_spec((#[trigger] files@[m]).path@),
            ),
{
    let mut out: Vec<(String, ConfigFileState)> = Vec::new();
    let mut n: usize = 0;
    while n < files.len()
        invariant
            n <= files@.len(),
            forall|i: int, j: int|
                0 <= i < j < out@.len() ==> (#[trigger] out@[i]).0@ != (#[trigger] out@[j]).0@,
            forall|i: int|
                #![trigger out@[i]]
                0 <= i < out@.len() ==> last_config_index(files@, out@[i].0@, n as int) >= 0
                    && out@[i].1@ == files@[last_config_index(files@, out@[i].0@, n as int)]@,
            forall|m: int|
                0 <= m < n ==> config_map_has_key(
                    out@,
                    config_key_spec((#[trigger] files@[m]).path@),
                ),
        decreases files@.len() - n,
    {
        let f = &files[n];
        proof {
            assert(*f == files@[n as int]);
        }
        let key = config_key_for(f.path.as_str());
        let value = crate::reconcile::duplicate_config(f);
        let mut found: Option<usize> = Option::None;
        let mut w: usize = 0;
        while w < out.len()
            invariant
                w <= out@.len(),
                key@ == config_key_spec(files@[n as int].path@),
                match found {
                    Option::Some(fx) => fx < out@.len() && out@[fx as int].0@ == key@,
                    Option::None => forall|m: int|
                        0 <= m < w ==> (#[trigger] out@[m]).0@ != key@,
                },
            decreases out@.len() - w,
        {
            if crate::text::str_eq(&out[w].0, &key) {
                found = Option::Some(w);
            }
            w = w + 1;
        }
        let ghost before = out@;
        proof {
            assert forall|k: Seq<char>| last_config_index(files@, k, n as int)
                >= 0 implies #[trigger] last_config_index(files@, k, n + 1) == if k == key@ {
                n as int
            } else {
                last_config_index(files@, k, n as int)
            } by {
                if k != key@ {
                    assert(config_key_spec(files@[n as int].path@) != k);
                }
            }
        }
        match found {
            Option::Some(idx) => {
                out[idx] = (key, value);
                proof {
                    assert(forall|m: int|
                        0 <= m < before.len() && m != idx ==> out@[m] == #[trigger] before[m]);
                    assert(out@[idx as int].0@ == before[idx as int].0@);
                    assert(last_config_index(files@, key@, n + 1) == n as int);
                    assert forall|i: int| #![trigger out@[i]] 0 <= i < out@.len() implies
                        last_config_index(files@, out@[i].0@, n + 1) >= 0 && out@[i].1@
                            == files@[last_config_index(files@, out@[i].0@, n + 1)]@ by {
                        if i == idx {
                            assert(out@[i].0@ == key@);
                            assert(out@[i].1@ == files@[n as int]@);
                        } else {
                            assert(out@[i] == before[i]);
                            assert(before[i].0@ != key@) by {
                                if i < idx {
                                    assert(before[i].0@ != before[idx as int].0@);
                                } else {
                                    assert(before[idx as int].0@ != before[i].0@);
                                }
                            }
                            assert(last_config_index(files@, out@[i].0@, n + 1)
                                == last_config_index(files@, out@[i].0@, n as int));
                        }
                    }
                    assert forall|m: int| 0 <= m <= n implies config_map_has_key(
                        out@,
                        config_key_spec((#[trigger] files@[m]).path@),
                    ) by {
                        if m < n {
                            let z = choose|z: int|
                                0 <= z < before.len() && (#[trigger] before[z]).0@
                                    == config_key_spec(files@[m].path@);
                            if z == idx {
                                assert(out@[idx as int].0@ == config_key_spec(files@[m].path@));
                            } else {
                                assert(out@[z].0@ == config_key_spec(files@[m].path@));
                            }
                        } else {
                            assert(out@[idx as int].0@ == config_key_spec(files@[m].path@));
                        }
                    }
                }
            },
            Option::None => {
                out.push((key, value));
                proof {
                    assert(forall|m: int|
                        0 <= m < before.len() ==> out@[m] == #[trigger] before[m]);
                    assert(out@[before.len() as int].0@ == key@);
                    assert(out@[before.len() as int].1@ == files@[n as int]@);
                    assert(last_config_index(files@, key@, n + 1) == n as int);
                    assert forall|i: int, j: int| 0 <= i < j < out@.len() implies (
                    #[trigger] out@[i]).0@ != (#[trigger] out@[j]).0@ by {
                        if j < before.len() {
                            assert(before[i].0@ != before[j].0@);
                        } else {
                            assert(before[i].0@ != key@);
                        }
                    }
                    assert forall|i: int| #![trigger out@[i]] 0 <= i < out@.len() implies
                        last_config_index(files@, out@[i].0@, n + 1) >= 0 && out@[i].1@
                            == files@[last_config_index(files@, out@[i].0@, n + 1)]@ by {
                        if i < before.len() {
                            assert(out@[i] == before[i]);
                            assert(before[i].0@ != key@);
                            assert(last_config_index(files@, out@[i].0@, n + 1)
                                == last_config_index(files@, out@[i].0@, n as int));
                        } else {
                            assert(out@[i].0@ == key@);
                        }
                    }
                    assert forall|m: int| 0 <= m <= n implies config_map_has_key(
                        out@,
                        config_key_spec((#[trigger] files@[m]).path@),
                    ) by {
                        if m < n {
                            let z = choose|z: int|
                                0 <= z < before.len() && (#[trigger] before[z]).0@
                                    == config_key_spec(files@[m].path@);
                            assert(out@[z].0@ == config_key_spec(files@[m].path@));
                        } else {
                            assert(out@[before.len() as int].0@ == config_key_spec(
                                files@[m].path@,
                            ));
                        }
                    }
                }
            },
        }
        n = n + 1;
    }
    out
}

/// World-list normalization is idempotent: normalizing an already
/// normalized list gives it back unchanged. Writing a canonical lock file
/// and reading it back therefore leaves the world lists untouched.
pub proof fn lemma_worlds_norm_idempotent(
    iv: Seq<Seq<char>>,
    w1: Seq<Seq<char>>,
    w2: Seq<Seq<char>>,
)
    requires
        worlds_norm_ok(iv, w1),
        worlds_norm_ok(w1, w2),
    ensures
        w2 == w1,
{
    lemma_sorted_strs_unique(w2, w1);
}

} // verus!
