//! Structural validation of a dataset: identifier uniqueness, geometric
//! well-formedness of boundaries, coordinate ranges, and referential
//! integrity of grouping references. All violations are collected and
//! reported together; nothing is mutated.

use vstd::prelude::*;

use crate::model::{models, bytes_eq, point_in_range, unique_ids, Entity, EntityModel};
use crate::reconcile::has_id;

verus! {

/// The kinds of dataset defects the validator reports.
#[derive(Clone, Copy, PartialEq, Eq, Structural, Debug)]
pub enum ViolationKind {
    /// Two entities share one identifier.
    DuplicateIdentifier,
    /// A boundary has fewer than three points.
    InsufficientBoundaryPoints,
    /// A coordinate lies outside the valid latitude or longitude range.
    CoordinateOutOfRange,
    /// A grouping reference names no entity of the dataset.
    UnresolvedReference,
}

impl ViolationKind {
    /// Stable name of the kind, for reporting.
    pub fn name(&self) -> (r: &'static str)
        ensures
            *self is DuplicateIdentifier ==> r@ == "duplicate identifier"@,
            *self is InsufficientBoundaryPoints ==> r@ == "insufficient boundary points"@,
            *self is CoordinateOutOfRange ==> r@ == "coordinate out of range"@,
            *self is UnresolvedReference ==> r@ == "unresolved reference"@,
    {
        match self {
            ViolationKind::DuplicateIdentifier => "duplicate identifier",
            ViolationKind::InsufficientBoundaryPoints => "insufficient boundary points",
            ViolationKind::CoordinateOutOfRange => "coordinate out of range",
            ViolationKind::UnresolvedReference => "unresolved reference",
        }
    }
}

/// One reported dataset defect: the entity and the kind of violation.
#[derive(Debug)]
pub struct Violation {
    pub entity_id: Vec<u8>,
    pub kind: ViolationKind,
}

/// Mathematical model of a `Violation`.
pub ghost struct ViolationModel {
    pub entity_id: Seq<u8>,
    pub kind: ViolationKind,
}

impl View for Violation {
    type V = ViolationModel;

    open spec fn view(&self) -> ViolationModel {
        ViolationModel { entity_id: self.entity_id@, kind: self.kind }
    }
}

/// The models of a sequence of violations.
pub open spec fn violation_models(s: Seq<Violation>) -> Seq<ViolationModel> {
    s.map_values(|v: Violation| v@)
}

/// Whether the entity at position `i` repeats an earlier identifier.
pub open spec fn dup_at(s: Seq<EntityModel>, i: int) -> bool {
    exists|j: int| 0 <= j < i && (#[trigger] s[j]).id == s[i].id
}

/// Whether some boundary point of `e` lies outside the valid ranges.
pub open spec fn range_bad(e: EntityModel) -> bool {
    exists|k: int| 0 <= k < e.boundary.len() && !point_in_range(#[trigger] e.boundary[k])
}

/// Whether the grouping reference of `e` fails to resolve within `s`.
pub open spec fn ref_bad(s: Seq<EntityModel>, e: EntityModel) -> bool {
    e.parent matches Some(p) && !has_id(s, p)
}

/// The violations reported for the entity at position `i`, in report order.
pub open spec fn entity_violations(s: Seq<EntityModel>, i: int) -> Seq<ViolationModel> {
    let e = s[i];
    (if dup_at(s, i) {
        seq![ViolationModel { entity_id: e.id, kind: ViolationKind::DuplicateIdentifier }]
    } else {
        Seq::empty()
    }) + (if e.boundary.len() < 3 {
        seq![ViolationModel { entity_id: e.id, kind: ViolationKind::InsufficientBoundaryPoints }]
    } else {
        Seq::empty()
    }) + (if range_bad(e) {
        seq![ViolationModel { entity_id: e.id, kind: ViolationKind::CoordinateOutOfRange }]
    } else {
        Seq::empty()
    }) + (if ref_bad(s, e) {
        seq![ViolationModel { entity_id: e.id, kind: ViolationKind::UnresolvedReference }]
    } else {
        Seq::empty()
    })
}

/// All violations of the first `i` entities, in dataset order.
pub open spec fn violations_upto(s: Seq<EntityModel>, i: int) -> Seq<ViolationModel>
    decreases i,
{
    if i <= 0 {
        Seq::empty()
    } else {
        violations_upto(s, i - 1) + entity_violations(s, i - 1)
    }
}

/// A dataset without any violation: unique identifiers, boundaries of at
/// least three in-range points, and resolving grouping references.
pub open spec fn dataset_valid(s: Seq<EntityModel>) -> bool {
    &&& unique_ids(s)
    &&& (forall|i: int| 0 <= i < s.len() ==> (#[trigger] s[i]).boundary.len() >= 3)
    &&& (forall|i: int| 0 <= i < s.len() ==> !range_bad(#[trigger] s[i]))
    &&& (forall|i: int| 0 <= i < s.len() ==> !ref_bad(s, #[trigger] s[i]))
}

proof fn lemma_violations_empty(s: Seq<EntityModel>, i: int)
    requires
        0 <= i <= s.len(),
    ensures
        violations_upto(s, i).len() == 0 <==> forall|k: int|
            0 <= k < i ==> entity_violations(s, k).len() == 0,
    decreases i,
{
    if i > 0 {
        lemma_violations_empty(s, i - 1);
    }
}

/// Law: the validator reports nothing exactly of a valid dataset.
pub proof fn lemma_valid_iff_no_violations(s: Seq<EntityModel>)
    ensures
        violations_upto(s, s.len() as int).len() == 0 <==> dataset_valid(s),
{
    lemma_violations_empty(s, s.len() as int);
    if forall|k: int| 0 <= k < s.len() ==> entity_violations(s, k).len() == 0 {
        assert forall|i: int, j: int| 0 <= i < j < s.len() implies (#[trigger] s[i]).id != (
        #[trigger] s[j]).id by {
            assert(entity_violations(s, j).len() == 0);
            if s[i].id == s[j].id {
                assert(dup_at(s, j));
            }
        }
        assert forall|i: int| 0 <= i < s.len() implies (#[trigger] s[i]).boundary.len() >= 3
            && !range_bad(s[i]) && !ref_bad(s, s[i]) by {
            assert(entity_violations(s, i).len() == 0);
        }
    }
    if dataset_valid(s) {
        assert forall|k: int| 0 <= k < s.len() implies entity_violations(s, k).len() == 0 by {
            if dup_at(s, k) {
                let j = choose|j: int| 0 <= j < k && (#[trigger] s[j]).id == s[k].id;
                assert(s[j].id != s[k].id);
            }
        }
    }
}

/// Whether any point of the boundary lies outside the valid ranges.
fn any_point_out_of_range(e: &Entity) -> (r: bool)
    ensures
        r == range_bad(e@),
{
    let mut k: usize = 0;
    while k < e.boundary.len()
        invariant
            0 <= k <= e.boundary@.len(),
            forall|j: int| 0 <= j < k ==> point_in_range(#[trigger] e.boundary@[j]),
        decreases e.boundary.len() - k,
    {
        let p = e.boundary[k];
        if p.lat < -crate::model::LAT_RANGE || p.lat > crate::model::LAT_RANGE || p.lon
            < -crate::model::LON_RANGE || p.lon > crate::model::LON_RANGE {
            proof {
                assert(!point_in_range(e@.boundary[k as int]));
            }
            return true;
        }
        k += 1;
    }
    false
}

/// Whether any entity before position `i` carries the same identifier.
pub(crate) fn dup_before(entities: &Vec<Entity>, i: usize) -> (r: bool)
    requires
        i < entities@.len(),
    ensures
        r == dup_at(models(entities@), i as int),
{
    let ghost m = models(entities@);
    let mut j: usize = 0;
    while j < i
        invariant
            0 <= j <= i < entities@.len(),
            m == models(entities@),
            forall|k: int| 0 <= k < j ==> (#[trigger] m[k]).id != m[i as int].id,
        decreases i - j,
    {
        if bytes_eq(entities[j].id.as_slice(), entities[i].id.as_slice()) {
            proof {
                assert(m[j as int].id == m[i as int].id);
            }
            return true;
        }
        j += 1;
    }
    false
}

/// Run all invariant checks over a dataset, collecting every violation in
/// dataset order rather than stopping at the first. The result is empty
/// exactly when the dataset is valid.
pub fn validate(entities: &Vec<Entity>) -> (r: Vec<Violation>)
    ensures
        violation_models(r@) =~= violations_upto(models(entities@), entities@.len() as int),
        r@.len() == 0 <==> dataset_valid(models(entities@)),
{
    let ghost m = models(entities@);
    let mut r: Vec<Violation> = Vec::new();
    let mut i: usize = 0;
    while i < entities.len()
        invariant
            0 <= i <= entities@.len(),
            m == models(entities@),
            m.len() == entities@.len(),
            violation_models(r@) =~= violations_upto(m, i as int),
        decreases entities.len() - i,
    {
        let ghost before = r@;
        let e = &entities[i];
        proof {
            assert(m[i as int] == entities@[i as int]@);
        }
        if dup_before(entities, i) {
            let ghost prev = r@;
            r.push(Violation {
                entity_id: crate::model::copy_vec(&e.id),
                kind: ViolationKind::DuplicateIdentifier,
            });
            proof {
                lemma_violation_models_push(prev, r@.last());
            }
        }
        if e.boundary.len() < 3 {
            let ghost prev = r@;
            r.push(Violation {
                entity_id: crate::model::copy_vec(&e.id),
                kind: ViolationKind::InsufficientBoundaryPoints,
            });
            proof {
                lemma_violation_models_push(prev, r@.last());
            }
        }
        if any_point_out_of_range(e) {
            let ghost prev = r@;
            r.push(Violation {
                entity_id: crate::model::copy_vec(&e.id),
                kind: ViolationKind::CoordinateOutOfRange,
            });
            proof {
                lemma_violation_models_push(prev, r@.last());
            }
        }
        let parent_missing: bool = match &e.parent {
            Some(p) => crate::reconcile::find_entity(entities, p).is_none(),
            None => false,
        };
        if parent_missing {
            let ghost prev = r@;
            r.push(Violation {
                entity_id: crate::model::copy_vec(&e.id),
                kind: ViolationKind::UnresolvedReference,
            });
            proof {
                lemma_violation_models_push(prev, r@.last());
            }
        }
        proof {
            assert(violation_models(r@) =~= violation_models(before) + entity_violations(
                m,
                i as int,
            ));
        }
        i += 1;
    }
    proof {
        lemma_valid_iff_no_violations(m);
    }
    r
}

/// Mapping violation models commutes with appending one violation.
proof fn lemma_violation_models_push(s: Seq<Violation>, x: Violation)
    ensures
        violation_models(s.push(x)) =~= violation_models(s).push(x@),
{
    assert forall|j: int| 0 <= j < s.len() implies violation_models(s.push(x))[j]
        == violation_models(s)[j] by {
        assert(s.push(x)[j] == s[j]);
    }
}

} // verus!
