//! Reconciliation of a newly parsed entity set against whatever already
//! exists at the output location: a pure function of the two sets and a
//! policy, with no side effect of its own.

use vstd::prelude::*;

use crate::model::{models, bytes_eq, unique_ids, Entity, EntityModel};

verus! {

/// How incoming entities are combined with pre-existing ones.
#[derive(Clone, Copy, PartialEq, Eq, Structural, Debug)]
pub enum Policy {
    /// The result is exactly the incoming set; entities only in the
    /// existing set are dropped.
    Overwrite,
    /// Existing entities are kept, incoming entities are upserted;
    /// the incoming version wins on a shared identifier.
    Merge,
    /// Refuse to touch a non-empty existing set.
    FailIfExists,
}

/// Errors of the import pipeline.
#[derive(Clone, Copy, PartialEq, Eq, Structural, Debug)]
pub enum ImportError {
    /// Malformed syntax in the raw input container.
    Format,
    /// Structurally valid input with missing or mistyped required fields.
    Schema,
    /// The default policy found pre-existing output.
    OutputExists,
}

/// The first entity of `s` whose identifier is `id`, if any.
pub open spec fn find_id(s: Seq<EntityModel>, id: Seq<u8>) -> Option<EntityModel>
    decreases s.len(),
{
    if s.len() == 0 {
        None
    } else if s[0].id == id {
        Some(s[0])
    } else {
        find_id(s.drop_first(), id)
    }
}

/// Whether some entity of `s` carries the identifier `id`.
pub open spec fn has_id(s: Seq<EntityModel>, id: Seq<u8>) -> bool {
    find_id(s, id) is Some
}

/// The existing entities with every identifier shared with `n` replaced by
/// the first incoming entity of that identifier.
pub open spec fn replaced(e: Seq<EntityModel>, n: Seq<EntityModel>) -> Seq<EntityModel> {
    Seq::new(e.len(), |i: int| if has_id(n, e[i].id) { find_id(n, e[i].id)->Some_0 } else { e[i] })
}

/// The merge of existing entities `e` with incoming entities `n`:
/// every existing entity is kept, replaced by the incoming version when the
/// identifier is shared, and incoming entities with new identifiers are
/// appended in their incoming order. Where one parse produced the same
/// identifier twice, the first occurrence is the one looked up.
pub open spec fn merge_models(e: Seq<EntityModel>, n: Seq<EntityModel>) -> Seq<EntityModel> {
    replaced(e, n) + n.filter(|x: EntityModel| !has_id(e, x.id))
}

/// Mapping entity models commutes with appending one entity.
proof fn lemma_models_push(s: Seq<Entity>, x: Entity)
    ensures
        models(s.push(x)) =~= models(s).push(x@),
{
    assert forall|j: int| 0 <= j < s.len() implies models(s.push(x))[j] == models(s)[j] by {
        assert(s.push(x)[j] == s[j]);
    }
}

/// Skipping past a non-matching head leaves the search result unchanged.
proof fn lemma_find_id_step(s: Seq<EntityModel>, id: Seq<u8>, i: int)
    requires
        0 <= i < s.len(),
        s[i].id != id,
    ensures
        find_id(s.skip(i), id) == find_id(s.skip(i + 1), id),
{
    assert(s.skip(i)[0] == s[i]);
    assert(s.skip(i).drop_first() =~= s.skip(i + 1));
}

proof fn lemma_find_id_membership(s: Seq<EntityModel>, id: Seq<u8>)
    ensures
        has_id(s, id) <==> exists|i: int| 0 <= i < s.len() && (#[trigger] s[i]).id == id,
        has_id(s, id) ==> find_id(s, id)->Some_0.id == id,
    decreases s.len(),
{
    if s.len() > 0 {
        lemma_find_id_membership(s.drop_first(), id);
        if s[0].id != id {
            assert forall|i: int| 0 <= i < s.len() && (#[trigger] s[i]).id == id implies has_id(
                s,
                id,
            ) by {
                if i > 0 {
                    assert(s.drop_first()[i - 1] == s[i]);
                }
            }
            if has_id(s.drop_first(), id) {
                let j = choose|j: int|
                    0 <= j < s.drop_first().len() && (#[trigger] s.drop_first()[j]).id == id;
                assert(s[j + 1] == s.drop_first()[j]);
            }
        }
    }
}

/// Find the first entity with the given identifier, by position.
pub(crate) fn find_entity(s: &Vec<Entity>, id: &Vec<u8>) -> (r: Option<usize>)
    ensures
        r matches Some(i) ==> 0 <= i < s@.len() && s@[i as int]@.id == id@ && find_id(
            models(s@),
            id@,
        ) == Some(s@[i as int]@) && has_id(models(s@), id@),
        r is None ==> !has_id(models(s@), id@),
{
    let ghost m = models(s@);
    proof {
        assert(m.skip(0) =~= m);
    }
    let mut i: usize = 0;
    while i < s.len()
        invariant
            0 <= i <= s@.len(),
            m == models(s@),
            m.len() == s@.len(),
            forall|j: int| 0 <= j < i ==> (#[trigger] m[j]).id != id@,
            find_id(m, id@) == find_id(m.skip(i as int), id@),
        decreases s.len() - i,
    {
        proof {
            assert(m[i as int] == s@[i as int]@);
            assert(m.skip(i as int)[0] == m[i as int]);
        }
        if bytes_eq(s[i].id.as_slice(), id.as_slice()) {
            proof {
                assert(m[i as int].id == id@);
                assert(find_id(m.skip(i as int), id@) == Some(m[i as int]));
            }
            return Some(i);
        }
        proof {
            lemma_find_id_step(m, id@, i as int);
        }
        i += 1;
    }
    proof {
        assert(m.skip(i as int) =~= Seq::<EntityModel>::empty());
    }
    None
}

/// Combine the incoming set `n` with the existing set `e` under `policy`.
///
/// Overwrite yields exactly `n`; merge yields `merge_models`; the default
/// policy fails with `OutputExists` whenever `e` is non-empty, so nothing is
/// ever silently overwritten, and yields `n` otherwise.
pub fn reconcile(n: &Vec<Entity>, e: &Vec<Entity>, policy: Policy) -> (r: Result<
    Vec<Entity>,
    ImportError,
>)
    ensures
        policy is Overwrite ==> (r matches Ok(v) && models(v@) =~= models(n@)),
        policy is Merge ==> (r matches Ok(v) && models(v@) =~= merge_models(models(e@), models(n@))),
        policy is FailIfExists && e@.len() > 0 ==> r == Err::<Vec<Entity>, ImportError>(
            ImportError::OutputExists,
        ),
        policy is FailIfExists && e@.len() == 0 ==> (r matches Ok(v) && models(v@) =~= models(n@)),
{
    let ghost em = models(e@);
    let ghost nm = models(n@);
    match policy {
        Policy::Overwrite => Ok(copy_entities(n)),
        Policy::FailIfExists => {
            if e.len() > 0 {
                Err(ImportError::OutputExists)
            } else {
                Ok(copy_entities(n))
            }
        },
        Policy::Merge => {
            let mut out: Vec<Entity> = Vec::new();
            let mut i: usize = 0;
            while i < e.len()
                invariant
                    0 <= i <= e@.len(),
                    em == models(e@),
                    nm == models(n@),
                    em.len() == e@.len(),
                    models(out@) =~= Seq::new(
                        i as nat,
                        |j: int|
                            if has_id(nm, em[j].id) {
                                find_id(nm, em[j].id)->Some_0
                            } else {
                                em[j]
                            },
                    ),
                decreases e.len() - i,
            {
                let ghost prev = out@;
                match find_entity(n, &e[i].id) {
                    Some(k) => out.push(n[k].duplicate()),
                    None => out.push(e[i].duplicate()),
                }
                proof {
                    lemma_models_push(prev, out@.last());
                    assert(out@ =~= prev.push(out@.last()));
                    assert(em[i as int] == e@[i as int]@);
                }
                i += 1;
            }
            let mut k: usize = 0;
            let ghost fresh = |x: EntityModel| !has_id(em, x.id);
            while k < n.len()
                invariant
                    0 <= k <= n@.len(),
                    em == models(e@),
                    nm == models(n@),
                    nm.len() == n@.len(),
                    fresh == (|x: EntityModel| !has_id(em, x.id)),
                    models(out@) =~= Seq::new(
                        e@.len(),
                        |j: int|
                            if has_id(nm, em[j].id) {
                                find_id(nm, em[j].id)->Some_0
                            } else {
                                em[j]
                            },
                    ) + nm.subrange(0, k as int).filter(fresh),
                decreases n.len() - k,
            {
                proof {
                    reveal_with_fuel(Seq::filter, 2);
                    assert(nm.subrange(0, k + 1).drop_last() =~= nm.subrange(0, k as int));
                    assert(nm.subrange(0, k + 1).last() == nm[k as int]);
                }
                proof {
                    assert(nm[k as int] == n@[k as int]@);
                }
                let ghost prev = out@;
                if find_entity(e, &n[k].id).is_none() {
                    out.push(n[k].duplicate());
                    proof {
                        lemma_models_push(prev, out@.last());
                        assert(out@ =~= prev.push(out@.last()));
                    }
                }
                k += 1;
            }
            proof {
                assert(nm.subrange(0, nm.len() as int) =~= nm);
            }
            Ok(out)
        },
    }
}

/// A copy of a vector of entities with the same models.
fn copy_entities(v: &Vec<Entity>) -> (r: Vec<Entity>)
    ensures
        models(r@) =~= models(v@),
{
    let mut r: Vec<Entity> = Vec::new();
    let mut i: usize = 0;
    while i < v.len()
        invariant
            0 <= i <= v@.len(),
            models(r@) =~= models(v@).subrange(0, i as int),
        decreases v.len() - i,
    {
        let ghost prev = r@;
        r.push(v[i].duplicate());
        proof {
            lemma_models_push(prev, r@.last());
            assert(r@ =~= prev.push(r@.last()));
            assert(models(v@)[i as int] == v@[i as int]@);
        }
        i += 1;
    }
    proof {
        assert(models(v@).subrange(0, v@.len() as int) =~= models(v@));
    }
    r
}

/// Every element of a filtered sequence is an element of the original.
proof fn lemma_filter_members(s: Seq<EntityModel>, pred: spec_fn(EntityModel) -> bool, k: int)
    requires
        0 <= k < s.filter(pred).len(),
    ensures
        exists|j: int| 0 <= j < s.len() && #[trigger] s[j] == s.filter(pred)[k],
    decreases s.len(),
{
    reveal(Seq::filter);
    if s.len() > 0 {
        let f = s.drop_last().filter(pred);
        if pred(s.last()) && k == f.len() {
            assert(s[s.len() - 1] == s.filter(pred)[k]);
        } else {
            lemma_filter_members(s.drop_last(), pred, k);
            let j = choose|j: int|
                0 <= j < s.drop_last().len() && #[trigger] s.drop_last()[j] == f[k];
            assert(s[j] == s.filter(pred)[k]);
        }
    }
}

/// A predicate false of every element filters to the empty sequence.
proof fn lemma_filter_none(s: Seq<EntityModel>, pred: spec_fn(EntityModel) -> bool)
    requires
        forall|j: int| 0 <= j < s.len() ==> !pred(#[trigger] s[j]),
    ensures
        s.filter(pred) =~= Seq::<EntityModel>::empty(),
    decreases s.len(),
{
    reveal(Seq::filter);
    if s.len() > 0 {
        lemma_filter_none(s.drop_last(), pred);
    }
}

/// Filtering can be unfolded at the front as well as at the back.
proof fn lemma_filter_first(s: Seq<EntityModel>, pred: spec_fn(EntityModel) -> bool)
    requires
        s.len() > 0,
    ensures
        pred(s[0]) ==> s.filter(pred) =~= seq![s[0]] + s.drop_first().filter(pred),
        !pred(s[0]) ==> s.filter(pred) =~= s.drop_first().filter(pred),
    decreases s.len(),
{
    reveal(Seq::filter);
    if s.len() == 1 {
        assert(s.drop_last() =~= Seq::<EntityModel>::empty());
        assert(s.drop_first() =~= Seq::<EntityModel>::empty());
        assert(s[0] == s.last());
    } else {
        lemma_filter_first(s.drop_last(), pred);
        assert(s.drop_last()[0] == s[0]);
        assert(s.drop_last().drop_first() =~= s.drop_first().drop_last());
        assert(s.drop_first().last() == s.last());
        if pred(s[0]) {
            if pred(s.last()) {
                assert(s.filter(pred) =~= s.drop_last().filter(pred).push(s.last()));
                assert(s.drop_first().filter(pred) =~= s.drop_first().drop_last().filter(
                    pred,
                ).push(s.last()));
            }
        } else {
            if pred(s.last()) {
                assert(s.filter(pred) =~= s.drop_last().filter(pred).push(s.last()));
                assert(s.drop_first().filter(pred) =~= s.drop_first().drop_last().filter(
                    pred,
                ).push(s.last()));
            }
        }
    }
}

/// Searching a concatenation searches the left part first.
proof fn lemma_find_id_concat(a: Seq<EntityModel>, b: Seq<EntityModel>, id: Seq<u8>)
    ensures
        find_id(a + b, id) == if has_id(a, id) {
            find_id(a, id)
        } else {
            find_id(b, id)
        },
    decreases a.len(),
{
    if a.len() == 0 {
        assert(a + b =~= b);
    } else {
        assert((a + b)[0] == a[0]);
        assert((a + b).len() > 0);
        if a[0].id != id {
            assert((a + b).drop_first() =~= a.drop_first() + b);
            lemma_find_id_concat(a.drop_first(), b, id);
        }
    }
}

/// With pairwise distinct identifiers the search finds exactly the member.
proof fn lemma_find_id_at(s: Seq<EntityModel>, j: int)
    requires
        unique_ids(s),
        0 <= j < s.len(),
    ensures
        find_id(s, s[j].id) == Some(s[j]),
    decreases s.len(),
{
    if j > 0 {
        assert(s[0].id != s[j].id);
        assert forall|x: int, y: int|
            0 <= x < y < s.drop_first().len() implies (#[trigger] s.drop_first()[x]).id != (
        #[trigger] s.drop_first()[y]).id by {
            assert(s.drop_first()[x] == s[x + 1]);
            assert(s.drop_first()[y] == s[y + 1]);
        }
        assert(s.drop_first()[j - 1] == s[j]);
        lemma_find_id_at(s.drop_first(), j - 1);
    }
}

/// The search through the replaced existing set: present exactly for the
/// identifiers of the existing set, yielding the incoming version where one
/// exists and the existing version otherwise.
proof fn lemma_find_id_replaced(e: Seq<EntityModel>, n: Seq<EntityModel>, id: Seq<u8>)
    ensures
        find_id(replaced(e, n), id) == if !has_id(e, id) {
            None::<EntityModel>
        } else if has_id(n, id) {
            find_id(n, id)
        } else {
            find_id(e, id)
        },
    decreases e.len(),
{
    let rep = replaced(e, n);
    if e.len() == 0 {
        assert(rep =~= Seq::<EntityModel>::empty());
    } else {
        lemma_find_id_membership(n, e[0].id);
        assert(rep[0].id == e[0].id);
        if e[0].id == id {
            assert(find_id(rep, id) == Some(rep[0]));
        } else {
            assert(rep.drop_first() =~= replaced(e.drop_first(), n)) by {
                assert forall|i: int| 0 <= i < e.len() - 1 implies rep.drop_first()[i]
                    == replaced(e.drop_first(), n)[i] by {
                    assert(e.drop_first()[i] == e[i + 1]);
                }
            }
            lemma_find_id_replaced(e.drop_first(), n, id);
            assert(find_id(rep, id) == find_id(rep.drop_first(), id));
        }
    }
}

/// The search through the fresh incoming entities: for an identifier absent
/// from the existing set it behaves as the search through the incoming set.
proof fn lemma_find_id_fresh(e: Seq<EntityModel>, n: Seq<EntityModel>, id: Seq<u8>)
    ensures
        !has_id(e, id) ==> find_id(n.filter(|x: EntityModel| !has_id(e, x.id)), id) == find_id(
            n,
            id,
        ),
        has_id(e, id) ==> !has_id(n.filter(|x: EntityModel| !has_id(e, x.id)), id),
    decreases n.len(),
{
    let pred = |x: EntityModel| !has_id(e, x.id);
    if n.len() == 0 {
        reveal(Seq::filter);
        assert(n.filter(pred) =~= Seq::<EntityModel>::empty());
    } else {
        lemma_filter_first(n, pred);
        lemma_find_id_fresh(e, n.drop_first(), id);
        if pred(n[0]) {
            assert(n.filter(pred) =~= seq![n[0]] + n.drop_first().filter(pred));
            lemma_find_id_concat(seq![n[0]], n.drop_first().filter(pred), id);
            if n[0].id == id {
                assert(find_id(seq![n[0]], id) == Some(n[0]));
                assert(find_id(n, id) == Some(n[0]));
                assert(!has_id(e, id));
            } else {
                assert(seq![n[0]].drop_first() =~= Seq::<EntityModel>::empty());
                assert(find_id(seq![n[0]].drop_first(), id) == None::<EntityModel>);
                assert(find_id(seq![n[0]], id) == None::<EntityModel>);
                assert(find_id(n, id) == find_id(n.drop_first(), id));
                assert(find_id(n.filter(pred), id) == find_id(
                    n.drop_first().filter(pred),
                    id,
                ));
            }
        } else {
            assert(n.filter(pred) =~= n.drop_first().filter(pred));
            if n[0].id == id {
                assert(has_id(e, id));
            } else {
                assert(find_id(n, id) == find_id(n.drop_first(), id));
            }
        }
    }
}

/// Law: the identifiers of a merge are the union of the identifiers of the
/// two sets. The incoming version wins on a shared identifier, an identifier
/// only in the existing set keeps the existing version, and one only in the
/// incoming set is added. Under the overwrite policy `reconcile` returns
/// exactly the incoming set, so an identifier absent from it is dropped.
pub proof fn lemma_merge_ids(e: Seq<EntityModel>, n: Seq<EntityModel>, id: Seq<u8>)
    ensures
        has_id(merge_models(e, n), id) <==> has_id(e, id) || has_id(n, id),
        has_id(n, id) ==> find_id(merge_models(e, n), id) == find_id(n, id),
        has_id(e, id) && !has_id(n, id) ==> find_id(merge_models(e, n), id) == find_id(e, id),
{
    let rep = replaced(e, n);
    let fil = n.filter(|x: EntityModel| !has_id(e, x.id));
    lemma_find_id_concat(rep, fil, id);
    lemma_find_id_replaced(e, n, id);
    lemma_find_id_fresh(e, n, id);
}

/// Law: merging the same incoming set a second time changes nothing,
/// provided the incoming identifiers are pairwise distinct.
pub proof fn lemma_merge_idempotent(e: Seq<EntityModel>, n: Seq<EntityModel>)
    requires
        unique_ids(n),
    ensures
        merge_models(merge_models(e, n), n) =~= merge_models(e, n),
{
    let m = merge_models(e, n);
    let fresh = |x: EntityModel| !has_id(m, x.id);
    assert forall|j: int| 0 <= j < n.len() implies !fresh(#[trigger] n[j]) by {
        lemma_find_id_at(n, j);
        lemma_merge_ids(e, n, n[j].id);
    }
    lemma_filter_none(n, fresh);
    assert forall|i: int| 0 <= i < m.len() implies replaced(m, n)[i] == m[i] by {
        if i < e.len() {
            if has_id(n, e[i].id) {
                lemma_find_id_membership(n, e[i].id);
                assert(m[i] == find_id(n, e[i].id)->Some_0);
                assert(m[i].id == e[i].id);
            } else {
                assert(m[i] == e[i]);
            }
        } else {
            let k = i - e.len();
            let pred = |x: EntityModel| !has_id(e, x.id);
            lemma_filter_members(n, pred, k);
            let j = choose|j: int| 0 <= j < n.len() && #[trigger] n[j] == n.filter(pred)[k];
            lemma_find_id_at(n, j);
        }
    }
    assert(merge_models(m, n) =~= replaced(m, n));
    assert(replaced(m, n) =~= m);
}

} // verus!
