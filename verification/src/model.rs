//! Canonical in-memory model of a dataset: entities, boundaries, and the
//! structural predicates the rest of the crate states its contracts over.
//!
//! Coordinates are normalized fixed-precision decimal degrees, held as
//! microdegrees (millionths of a degree) in signed integers, so that both
//! input formats emit geometrically comparable boundaries.

use vstd::prelude::*;

verus! {

/// One boundary vertex, in microdegrees of latitude and longitude.
#[derive(Clone, Copy, PartialEq, Eq, Structural, Debug)]
pub struct Point {
    pub lat: i64,
    pub lon: i64,
}

/// One named airspace/position record of the canonical dataset.
#[derive(Debug)]
pub struct Entity {
    /// Unique identifier (callsign) of the entity within the dataset.
    pub id: Vec<u8>,
    /// Human-readable label.
    pub label: Vec<u8>,
    /// Communication frequencies in kilohertz.
    pub frequencies: Vec<u64>,
    /// Optional grouping key referencing another entity of the dataset.
    pub parent: Option<Vec<u8>>,
    /// Lateral extent: ordered polygon of coordinates.
    pub boundary: Vec<Point>,
}

/// Mathematical model of an `Entity`.
pub ghost struct EntityModel {
    pub id: Seq<u8>,
    pub label: Seq<u8>,
    pub frequencies: Seq<u64>,
    pub parent: Option<Seq<u8>>,
    pub boundary: Seq<Point>,
}

impl View for Entity {
    type V = EntityModel;

    open spec fn view(&self) -> EntityModel {
        EntityModel {
            id: self.id@,
            label: self.label@,
            frequencies: self.frequencies@,
            parent: match self.parent {
                Some(p) => Some(p@),
                None => None,
            },
            boundary: self.boundary@,
        }
    }
}

/// The models of a sequence of entities.
pub open spec fn models(s: Seq<Entity>) -> Seq<EntityModel> {
    s.map_values(|e: Entity| e@)
}

/// A byte that may appear in a text field of the dataset: printable ASCII
/// other than the double quote and the backslash, so text never collides
/// with the delimiters of either on-disk encoding. This is a stated rule of
/// the dataset schema: labels and identifiers outside this alphabet are
/// refused by the parsers as schema defects rather than silently mangled.
pub open spec fn plain_byte(b: u8) -> bool {
    0x20 <= b <= 0x7e && b != 0x22 && b != 0x5c
}

/// Every byte of the sequence is plain.
pub open spec fn plain_seq(s: Seq<u8>) -> bool {
    forall|i: int| 0 <= i < s.len() ==> plain_byte(#[trigger] s[i])
}

/// A usable entity identifier: non-empty plain text without a path
/// separator and not beginning with a dot, so the file name derived from it
/// names a file inside the output tree.
pub open spec fn safe_id(id: Seq<u8>) -> bool {
    &&& id.len() > 0
    &&& plain_seq(id)
    &&& (forall|i: int| 0 <= i < id.len() ==> #[trigger] id[i] != 0x2f)
    &&& id[0] != 0x2e
}

/// Appending one byte keeps plainness exactly when the byte is plain.
pub proof fn lemma_plain_push(a: Seq<u8>, b: u8)
    ensures
        plain_seq(a.push(b)) <==> plain_seq(a) && plain_byte(b),
{
    if plain_seq(a) && plain_byte(b) {
        assert forall|i: int| 0 <= i < a.push(b).len() implies plain_byte(
            #[trigger] a.push(b)[i],
        ) by {
            if i < a.len() {
                assert(a.push(b)[i] == a[i]);
            }
        }
    }
    if plain_seq(a.push(b)) {
        assert forall|i: int| 0 <= i < a.len() implies plain_byte(#[trigger] a[i]) by {
            assert(a.push(b)[i] == a[i]);
        }
        assert(a.push(b)[a.len() as int] == b);
    }
}

/// Largest magnitude a serialized coordinate can carry (nine decimal digits).
pub const COORD_MAX: i64 = 999_999_999;

/// Exclusive bound on a serialized frequency (nine decimal digits).
pub const FREQ_LIMIT: u64 = 1_000_000_000;

/// Structural well-formedness of an entity: what the writer needs in order
/// to serialize it and the parsers guarantee of everything they emit.
pub open spec fn wf_entity(e: EntityModel) -> bool {
    &&& safe_id(e.id)
    &&& plain_seq(e.label)
    &&& (e.parent matches Some(p) ==> p.len() > 0 && plain_seq(p))
    &&& e.frequencies.len() > 0
    &&& (forall|i: int| 0 <= i < e.frequencies.len() ==> #[trigger] e.frequencies[i] < FREQ_LIMIT)
    &&& (forall|i: int|
        0 <= i < e.boundary.len() ==> -COORD_MAX <= (#[trigger] e.boundary[i]).lat <= COORD_MAX
            && -COORD_MAX <= e.boundary[i].lon <= COORD_MAX)
}

/// Identifiers are pairwise distinct: the dataset invariant.
pub open spec fn unique_ids(s: Seq<EntityModel>) -> bool {
    forall|i: int, j: int| 0 <= i < j < s.len() ==> (#[trigger] s[i]).id != (#[trigger] s[j]).id
}

/// Every entity of the sequence is well formed.
pub open spec fn wf_entities(s: Seq<EntityModel>) -> bool {
    forall|i: int| 0 <= i < s.len() ==> wf_entity(#[trigger] s[i])
}

/// Latitude must lie within ninety degrees of the equator.
pub const LAT_RANGE: i64 = 90_000_000;

/// Longitude must lie within one hundred eighty degrees of the meridian.
pub const LON_RANGE: i64 = 180_000_000;

/// A coordinate pair inside the valid geographic ranges.
pub open spec fn point_in_range(p: Point) -> bool {
    -LAT_RANGE <= p.lat <= LAT_RANGE && -LON_RANGE <= p.lon <= LON_RANGE
}

/// A copy of a vector of plain values.
pub fn copy_vec<T: Copy>(v: &Vec<T>) -> (r: Vec<T>)
    ensures
        r@ =~= v@,
{
    let mut r: Vec<T> = Vec::new();
    let mut i: usize = 0;
    while i < v.len()
        invariant
            0 <= i <= v.len(),
            r@ =~= v@.subrange(0, i as int),
        decreases v.len() - i,
    {
        r.push(v[i]);
        i += 1;
    }
    r
}

impl Entity {
    /// A copy of the entity with the same model.
    pub fn duplicate(&self) -> (r: Entity)
        ensures
            r@ == self@,
    {
        let parent = match &self.parent {
            Some(p) => Some(copy_vec(p)),
            None => None,
        };
        Entity {
            id: copy_vec(&self.id),
            label: copy_vec(&self.label),
            frequencies: copy_vec(&self.frequencies),
            parent,
            boundary: copy_vec(&self.boundary),
        }
    }
}

/// Exact check of `safe_id`.
pub fn is_safe_id(id: &[u8]) -> (r: bool)
    ensures
        r == safe_id(id@),
{
    if id.len() == 0 {
        return false;
    }
    if id[0] == 0x2e {
        return false;
    }
    let mut i: usize = 0;
    while i < id.len()
        invariant
            0 <= i <= id@.len(),
            forall|j: int| 0 <= j < i ==> plain_byte(#[trigger] id@[j]) && id@[j] != 0x2f,
        decreases id.len() - i,
    {
        let b = id[i];
        if !(0x20 <= b && b <= 0x7e) || b == 0x22 || b == 0x5c || b == 0x2f {
            return false;
        }
        i += 1;
    }
    true
}

/// Exact byte-for-byte equality of two byte strings.
pub fn bytes_eq(a: &[u8], b: &[u8]) -> (r: bool)
    ensures
        r == (a@ =~= b@),
{
    if a.len() != b.len() {
        return false;
    }
    let mut i: usize = 0;
    while i < a.len()
        invariant
            0 <= i <= a.len(),
            a@.len() == b@.len(),
            forall|j: int| 0 <= j < i ==> a@[j] == b@[j],
        decreases a.len() - i,
    {
        if a[i] != b[i] {
            return false;
        }
        i += 1;
    }
    true
}

} // verus!
