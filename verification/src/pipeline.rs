//! The import pipeline around the pure pieces: normalization of source
//! records into entities, resolution of duplicate identifiers within one
//! parse (the first occurrence wins, the rest are reported), reconciliation
//! under the chosen policy, and the rendering of the files to write.
//! Nothing here touches the file system; the caller performs the writes.

use vstd::prelude::*;

use crate::codec::{entity_bytes, serialize};
use crate::euroscope::SourceRecord;
use crate::format::OutputFormat;
use crate::model::{models, wf_entities, Entity, EntityModel};
use crate::reconcile::{merge_models, reconcile, ImportError, Policy};
use crate::validator::dup_at;

verus! {

/// The canonical entity of one source record: a single frequency, no
/// grouping reference.
pub fn to_entity(rec: &SourceRecord) -> (r: Entity)
    ensures
        r@.id == rec@.id,
        r@.label == rec@.label,
        r@.frequencies =~= seq![rec@.freq],
        r@.parent is None,
        r@.boundary == rec@.points,
{
    let mut frequencies: Vec<u64> = Vec::new();
    frequencies.push(rec.freq);
    Entity {
        id: crate::model::copy_vec(&rec.id),
        label: crate::model::copy_vec(&rec.label),
        frequencies,
        parent: None,
        boundary: crate::model::copy_vec(&rec.points),
    }
}

/// The first `i` entities with later repetitions of an identifier removed.
pub open spec fn dedup_upto(s: Seq<EntityModel>, i: int) -> Seq<EntityModel>
    decreases i,
{
    if i <= 0 {
        Seq::empty()
    } else if dup_at(s, i - 1) {
        dedup_upto(s, i - 1)
    } else {
        dedup_upto(s, i - 1).push(s[i - 1])
    }
}

/// The identifiers of the dropped repetitions, in order of appearance.
pub open spec fn dups_upto(s: Seq<EntityModel>, i: int) -> Seq<Seq<u8>>
    decreases i,
{
    if i <= 0 {
        Seq::empty()
    } else if dup_at(s, i - 1) {
        dups_upto(s, i - 1).push(s[i - 1].id)
    } else {
        dups_upto(s, i - 1)
    }
}

/// The models of the reported duplicate identifiers.
pub open spec fn id_models(s: Seq<Vec<u8>>) -> Seq<Seq<u8>> {
    s.map_values(|v: Vec<u8>| v@)
}

/// Resolve duplicate identifiers within one parsed set: the first
/// occurrence of each identifier survives, every later repetition is
/// dropped and its identifier reported as a diagnostic.
pub fn dedup_entities(entities: &Vec<Entity>) -> (r: (Vec<Entity>, Vec<Vec<u8>>))
    ensures
        models(r.0@) =~= dedup_upto(models(entities@), entities@.len() as int),
        id_models(r.1@) =~= dups_upto(models(entities@), entities@.len() as int),
{
    let ghost m = models(entities@);
    let mut kept: Vec<Entity> = Vec::new();
    let mut dups: Vec<Vec<u8>> = Vec::new();
    let mut i: usize = 0;
    while i < entities.len()
        invariant
            0 <= i <= entities@.len(),
            m == models(entities@),
            m.len() == entities@.len(),
            models(kept@) =~= dedup_upto(m, i as int),
            id_models(dups@) =~= dups_upto(m, i as int),
        decreases entities.len() - i,
    {
        proof {
            assert(m[i as int] == entities@[i as int]@);
        }
        if crate::validator::dup_before(entities, i) {
            let ghost prev = dups@;
            dups.push(crate::model::copy_vec(&entities[i].id));
            proof {
                assert(id_models(dups@) =~= id_models(prev).push(dups@.last()@)) by {
                    assert forall|k: int| 0 <= k < prev.len() implies id_models(dups@)[k]
                        == id_models(prev)[k] by {
                        assert(dups@[k] == prev[k]);
                    }
                }
            }
        } else {
            let ghost prev = kept@;
            kept.push(entities[i].duplicate());
            proof {
                assert(models(kept@) =~= models(prev).push(kept@.last()@)) by {
                    assert forall|k: int| 0 <= k < prev.len() implies models(kept@)[k] == models(
                        prev,
                    )[k] by {
                        assert(kept@[k] == prev[k]);
                    }
                }
            }
        }
        i += 1;
    }
    (kept, dups)
}

/// The file name of an entity: its identifier, a dot, and the extension.
pub open spec fn file_name_bytes(id: Seq<u8>, format: OutputFormat) -> Seq<u8> {
    match format {
        OutputFormat::Toml => id + seq![0x2eu8, 0x74u8, 0x6fu8, 0x6du8, 0x6cu8],
        OutputFormat::Json => id + seq![0x2eu8, 0x6au8, 0x73u8, 0x6fu8, 0x6eu8],
    }
}

/// The file name of an entity: its identifier, a dot, and the extension of
/// the chosen encoding.
pub fn entity_file_name(e: &Entity, format: OutputFormat) -> (r: Vec<u8>)
    ensures
        r@ =~= file_name_bytes(e@.id, format),
{
    let mut r = crate::model::copy_vec(&e.id);
    r.push(0x2e);
    match format {
        OutputFormat::Toml => {
            r.push(0x74);
            r.push(0x6f);
            r.push(0x6d);
            r.push(0x6c);
        },
        OutputFormat::Json => {
            r.push(0x6a);
            r.push(0x73);
            r.push(0x6f);
            r.push(0x6e);
        },
    }
    r
}

/// Combine the incoming entities with the existing ones under the policy
/// and render one file per resulting entity.
///
/// Nothing is handed back for writing when the result is an error: under
/// the default policy with pre-existing entities the caller receives
/// `OutputExists` and has no file to write. Every rendered entity is well
/// formed, so in particular its identifier — and with it the derived file
/// name — holds no path separator and does not begin with a dot: the name
/// stays inside the output tree.
pub fn plan_import(
    incoming: &Vec<Entity>,
    existing: &Vec<Entity>,
    policy: Policy,
    format: OutputFormat,
) -> (r: Result<Vec<(Vec<u8>, Vec<u8>)>, ImportError>)
    requires
        wf_entities(models(incoming@)),
        wf_entities(models(existing@)),
    ensures
        policy is FailIfExists && existing@.len() > 0 ==> r == Err::<
            Vec<(Vec<u8>, Vec<u8>)>,
            ImportError,
        >(ImportError::OutputExists),
        r matches Ok(files) ==> {
            let result = if policy is Merge {
                merge_models(models(existing@), models(incoming@))
            } else {
                models(incoming@)
            };
            &&& wf_entities(result)
            &&& files@.len() == result.len()
            &&& forall|i: int|
                0 <= i < result.len() ==> (#[trigger] files@[i]).1@ == entity_bytes(
                    result[i],
                    format,
                ) && files@[i].0@ == file_name_bytes(result[i].id, format)
        },
        policy is Overwrite ==> r is Ok,
        policy is Merge ==> r is Ok,
        policy is FailIfExists && existing@.len() == 0 ==> r is Ok,
{
    let combined = match reconcile(incoming, existing, policy) {
        Ok(v) => v,
        Err(e) => {
            return Err(e);
        },
    };
    proof {
        if policy is Merge {
            lemma_merge_wf(models(existing@), models(incoming@));
        }
    }
    let ghost result = models(combined@);
    let mut files: Vec<(Vec<u8>, Vec<u8>)> = Vec::new();
    let mut i: usize = 0;
    while i < combined.len()
        invariant
            0 <= i <= combined@.len(),
            result == models(combined@),
            result.len() == combined@.len(),
            wf_entities(result),
            files@.len() == i,
            forall|k: int|
                0 <= k < i ==> (#[trigger] files@[k]).1@ == entity_bytes(result[k], format)
                    && files@[k].0@ == file_name_bytes(result[k].id, format),
        decreases combined.len() - i,
    {
        let e = &combined[i];
        proof {
            assert(result[i as int] == combined@[i as int]@);
            assert(crate::model::wf_entity(result[i as int]));
            assert forall|k: int|
                0 <= k < e.boundary@.len() implies (#[trigger] e.boundary@[k]).lat > i64::MIN
                && e.boundary@[k].lon > i64::MIN by {
                assert(e@.boundary[k] == e.boundary@[k]);
                assert(-crate::model::COORD_MAX <= e@.boundary[k].lat <= crate::model::COORD_MAX);
            }
        }
        let name = entity_file_name(e, format);
        let content = serialize(e, format);
        files.push((name, content));
        i += 1;
    }
    Ok(files)
}

/// Merging well-formed entity sets yields well-formed entities.
proof fn lemma_merge_wf(e: Seq<EntityModel>, n: Seq<EntityModel>)
    requires
        wf_entities(e),
        wf_entities(n),
    ensures
        wf_entities(merge_models(e, n)),
{
    let m = merge_models(e, n);
    let pred = |x: EntityModel| !crate::reconcile::has_id(e, x.id);
    assert forall|i: int| 0 <= i < m.len() implies crate::model::wf_entity(#[trigger] m[i]) by {
        if i < e.len() {
            if crate::reconcile::has_id(n, e[i].id) {
                lemma_find_id_wf(n, e[i].id);
            }
        } else {
            let k = i - e.len();
            lemma_filter_wf(n, pred, k);
        }
    }
}

/// The found entity is a member, hence well formed.
proof fn lemma_find_id_wf(s: Seq<EntityModel>, id: Seq<u8>)
    requires
        wf_entities(s),
        crate::reconcile::has_id(s, id),
    ensures
        crate::model::wf_entity(crate::reconcile::find_id(s, id)->Some_0),
    decreases s.len(),
{
    if s.len() > 0 && s[0].id != id {
        assert forall|i: int|
            0 <= i < s.drop_first().len() implies crate::model::wf_entity(
            #[trigger] s.drop_first()[i],
        ) by {
            assert(s.drop_first()[i] == s[i + 1]);
        }
        lemma_find_id_wf(s.drop_first(), id);
    }
}

/// A filtered entity is a member, hence well formed.
proof fn lemma_filter_wf(s: Seq<EntityModel>, pred: spec_fn(EntityModel) -> bool, k: int)
    requires
        wf_entities(s),
        0 <= k < s.filter(pred).len(),
    ensures
        crate::model::wf_entity(s.filter(pred)[k]),
    decreases s.len(),
{
    reveal(Seq::filter);
    if s.len() > 0 {
        let f = s.drop_last().filter(pred);
        if pred(s.last()) && k == f.len() {
        } else {
            assert forall|i: int|
                0 <= i < s.drop_last().len() implies crate::model::wf_entity(
                #[trigger] s.drop_last()[i],
            ) by {
                assert(s.drop_last()[i] == s[i]);
            }
            lemma_filter_wf(s.drop_last(), pred, k);
        }
    }
}

} // verus!
