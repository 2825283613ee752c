//! The community JSON parser: one JSON document holding an array of
//! position objects. Whitespace between tokens is insignificant, object
//! fields may come in any order, and coordinates are accepted as bare
//! decimal numbers or as decimal strings (common inconsistencies of
//! hand-authored feeds); everything is normalized to the microdegree
//! representation of the model. Text fields follow the dataset schema's
//! stated alphabet (printable ASCII without quote or backslash); a document
//! violating it is a schema defect. Duplicate identifiers within one input
//! are not resolved here: the caller buffers them as diagnostics and
//! resolves them at reconciliation time.

use vstd::prelude::*;

use crate::codec::{quoted_at, B_COLON, B_LBRACE, B_LBRACK, B_RBRACE, B_RBRACK};
use crate::euroscope::freq_at;
use crate::model::{Entity, EntityModel, Point, LAT_RANGE, LON_RANGE};
use crate::reconcile::ImportError;
use crate::text::{
    digit_end, is_digit, lemma_ws_end_bounds, number_at, skip_ws, val_digits, ws_end, B_COMMA,
    B_MINUS, B_QUOTE,
};

verus! {

pub const B_DOT: u8 = 0x2e;

/// A decimal-degree token at `i`: an optional minus sign, an integer part,
/// and an optional fraction of one to six digits, read as microdegrees and
/// refused outside the valid range of its axis.
pub open spec fn decnum_at(s: Seq<u8>, i: int, lat: bool) -> Option<(i64, int)> {
    let neg = 0 <= i < s.len() && s[i] == B_MINUS;
    let i0 = if neg {
        i + 1
    } else {
        i
    };
    match number_at(s, i0) {
        None => None,
        Some((whole, j)) => {
            let (frac, k) = if j < s.len() && s[j] == B_DOT {
                let e = digit_end(s, j + 1);
                if 1 <= e - (j + 1) <= 6 {
                    (val_digits(s.subrange(j + 1, e)) * pow10_spec(6 - (e - j - 1)), e)
                } else {
                    (-1, j)
                }
            } else {
                (0, j)
            };
            if frac < 0 {
                None
            } else {
                let micro = whole * 1_000_000 + frac;
                let v = if neg {
                    -micro
                } else {
                    micro
                };
                let bound = if lat {
                    LAT_RANGE as int
                } else {
                    LON_RANGE as int
                };
                if micro > bound {
                    None
                } else {
                    Some((v as i64, k))
                }
            }
        },
    }
}

/// Ten to the `w`-th, as an integer.
pub open spec fn pow10_spec(w: int) -> int {
    crate::text::pow10(if w >= 0 {
        w as nat
    } else {
        0
    }) as int
}

/// A coordinate: a bare decimal token or the same token inside quotes.
pub open spec fn coord_at(s: Seq<u8>, i: int, lat: bool) -> Option<(i64, int)> {
    if 0 <= i < s.len() && s[i] == B_QUOTE {
        match decnum_at(s, i + 1, lat) {
            None => None,
            Some((v, j)) => if j < s.len() && s[j] == B_QUOTE {
                Some((v, j + 1))
            } else {
                None
            },
        }
    } else {
        decnum_at(s, i, lat)
    }
}

/// One coordinate pair: a two-element array, latitude first, whitespace
/// between tokens skipped.
pub open spec fn cpair_at(s: Seq<u8>, i: int) -> Option<(Point, int)> {
    if !(0 <= i < s.len() && s[i] == B_LBRACK) {
        None
    } else {
        match coord_at(s, ws_end(s, i + 1), true) {
            None => None,
            Some((lat, j)) => {
                let j1 = ws_end(s, j);
                if !(j1 < s.len() && s[j1] == B_COMMA) {
                    None
                } else {
                    match coord_at(s, ws_end(s, j1 + 1), false) {
                        None => None,
                        Some((lon, k)) => {
                            let k1 = ws_end(s, k);
                            if !(k1 < s.len() && s[k1] == B_RBRACK) {
                                None
                            } else {
                                Some((Point { lat, lon }, k1 + 1))
                            }
                        },
                    }
                }
            },
        }
    }
}

/// A parsed token always ends after the position it starts at.
proof fn lemma_decnum_advances(s: Seq<u8>, i: int, lat: bool)
    requires
        0 <= i <= s.len(),
    ensures
        decnum_at(s, i, lat) matches Some((v, j)) ==> i < j <= s.len(),
    decreases 1int,
{
    crate::text::lemma_digit_end_bounds(s, i);
    if i < s.len() {
        crate::text::lemma_digit_end_bounds(s, i + 1);
    }
    let neg = 0 <= i < s.len() && s[i] == B_MINUS;
    let i0 = if neg {
        i + 1
    } else {
        i
    };
    match number_at(s, i0) {
        None => {},
        Some((whole, j)) => {
            if 0 <= j && j + 1 <= s.len() {
                crate::text::lemma_digit_end_bounds(s, j + 1);
            }
        },
    }
}

/// A parsed coordinate always ends after the position it starts at.
proof fn lemma_coord_advances(s: Seq<u8>, i: int, lat: bool)
    requires
        0 <= i <= s.len(),
    ensures
        coord_at(s, i, lat) matches Some((v, j)) ==> i < j <= s.len(),
{
    lemma_decnum_advances(s, i, lat);
    if i < s.len() {
        lemma_decnum_advances(s, i + 1, lat);
    }
}

/// A parsed pair always ends after the position it starts at.
proof fn lemma_cpair_advances(s: Seq<u8>, i: int)
    requires
        0 <= i <= s.len(),
    ensures
        cpair_at(s, i) matches Some((p, j)) ==> i < j <= s.len(),
{
    if 0 <= i < s.len() && s[i] == B_LBRACK {
        lemma_ws_end_bounds(s, i + 1);
        lemma_coord_advances(s, ws_end(s, i + 1), true);
        match coord_at(s, ws_end(s, i + 1), true) {
            Some((lat, j)) => {
                lemma_ws_end_bounds(s, j);
                let j1 = ws_end(s, j);
                if j1 < s.len() && s[j1] == B_COMMA {
                    lemma_ws_end_bounds(s, j1 + 1);
                    lemma_coord_advances(s, ws_end(s, j1 + 1), false);
                    match coord_at(s, ws_end(s, j1 + 1), false) {
                        Some((lon, k)) => {
                            lemma_ws_end_bounds(s, k);
                        },
                        None => {},
                    }
                }
            },
            None => {},
        }
    }
}

/// The non-empty comma-separated pair list.
pub open spec fn cpairs_at(s: Seq<u8>, i: int) -> Option<(Seq<Point>, int)>
    decreases s.len() - i,
    when 0 <= i <= s.len()
    via cpairs_at_dec
{
    match cpair_at(s, i) {
        None => None,
        Some((p, j)) => {
            let j1 = ws_end(s, j);
            if j1 < s.len() && s[j1] == B_COMMA {
                match cpairs_at(s, ws_end(s, j1 + 1)) {
                    None => None,
                    Some((ps, k)) => Some((seq![p] + ps, k)),
                }
            } else {
                Some((seq![p], j))
            }
        },
    }
}

#[via_fn]
proof fn cpairs_at_dec(s: Seq<u8>, i: int) {
    lemma_cpair_advances(s, i);
    match cpair_at(s, i) {
        Some((p, j)) => {
            lemma_ws_end_bounds(s, j);
            let j1 = ws_end(s, j);
            if j1 + 1 <= s.len() {
                lemma_ws_end_bounds(s, j1 + 1);
            }
        },
        None => {},
    }
}

/// The boundary value: an array of pairs, possibly empty, whitespace
/// between tokens skipped.
pub open spec fn vg_boundary_at(s: Seq<u8>, i: int) -> Option<(Seq<Point>, int)> {
    if !(0 <= i < s.len() && s[i] == B_LBRACK) {
        None
    } else {
        let i1 = ws_end(s, i + 1);
        if i1 < s.len() && s[i1] == B_RBRACK {
            Some((Seq::empty(), i1 + 1))
        } else {
            match cpairs_at(s, i1) {
                None => None,
                Some((ps, j)) => {
                    let j1 = ws_end(s, j);
                    if j1 < s.len() && s[j1] == B_RBRACK {
                        Some((ps, j1 + 1))
                    } else {
                        None
                    }
                },
            }
        }
    }
}

/// The fields of one position object collected so far.
pub ghost struct SlotsModel {
    pub id: Option<Seq<u8>>,
    pub name: Option<Seq<u8>>,
    pub freq: Option<u64>,
    pub prefix: Option<Seq<u8>>,
    pub boundary: Option<Seq<Point>>,
}

/// The empty slot set.
pub open spec fn no_slots() -> SlotsModel {
    SlotsModel { id: None, name: None, freq: None, prefix: None, boundary: None }
}

/// One `"key":value` field at `i`, merged into the slots; a repeated or
/// unknown key is refused. The second component is the position after the
/// value.
pub open spec fn field_at(s: Seq<u8>, i: int, slots: SlotsModel) -> Option<(SlotsModel, int)> {
    match quoted_at(s, i) {
        None => None,
        Some((key, j0)) => {
            let j = ws_end(s, j0);
            if !(j < s.len() && s[j] == B_COLON) {
                None
            } else {
                let v = ws_end(s, j + 1);
                if key == crate::codec::key_id() {
                    if slots.id is Some {
                        None
                    } else {
                        match quoted_at(s, v) {
                            Some((x, k)) => if !crate::model::safe_id(x) {
                                None
                            } else {
                                Some((SlotsModel { id: Some(x), ..slots }, k))
                            },
                            None => None,
                        }
                    }
                } else if key == key_name() {
                    if slots.name is Some {
                        None
                    } else {
                        match quoted_at(s, v) {
                            Some((x, k)) => Some((SlotsModel { name: Some(x), ..slots }, k)),
                            None => None,
                        }
                    }
                } else if key == key_frequency() {
                    if slots.freq is Some {
                        None
                    } else {
                        match vg_freq_at(s, v) {
                            Some((f, k)) => Some((SlotsModel { freq: Some(f), ..slots }, k)),
                            None => None,
                        }
                    }
                } else if key == key_prefix() {
                    if slots.prefix is Some {
                        None
                    } else {
                        match quoted_at(s, v) {
                            Some((x, k)) => if x.len() == 0 {
                                None
                            } else {
                                Some((SlotsModel { prefix: Some(x), ..slots }, k))
                            },
                            None => None,
                        }
                    }
                } else if key == crate::codec::key_boundary() {
                    if slots.boundary is Some {
                        None
                    } else {
                        match vg_boundary_at(s, v) {
                            Some((ps, k)) => Some((SlotsModel { boundary: Some(ps), ..slots }, k)),
                            None => None,
                        }
                    }
                } else {
                    None
                }
            }
        },
    }
}

/// The key `name`.
pub open spec fn key_name() -> Seq<u8> {
    seq![0x6eu8, 0x61u8, 0x6du8, 0x65u8]
}

/// The key `frequency`.
pub open spec fn key_frequency() -> Seq<u8> {
    seq![0x66u8, 0x72u8, 0x65u8, 0x71u8, 0x75u8, 0x65u8, 0x6eu8, 0x63u8, 0x79u8]
}

/// The key `prefix`.
pub open spec fn key_prefix() -> Seq<u8> {
    seq![0x70u8, 0x72u8, 0x65u8, 0x66u8, 0x69u8, 0x78u8]
}

/// The frequency value: the megahertz-dot-kilohertz token, bare or quoted.
pub open spec fn vg_freq_at(s: Seq<u8>, i: int) -> Option<(u64, int)> {
    if 0 <= i < s.len() && s[i] == B_QUOTE {
        match freq_at(s, i + 1) {
            None => None,
            Some((f, j)) => if j < s.len() && s[j] == B_QUOTE {
                Some((f, j + 1))
            } else {
                None
            },
        }
    } else {
        freq_at(s, i)
    }
}

/// One position object: an opening brace, one to five fields in any order,
/// separated by commas, and a closing brace. The entity requires an
/// identifier, a name and a frequency; prefix and boundary are optional.
pub open spec fn obj_at(s: Seq<u8>, i: int) -> Option<(EntityModel, int)> {
    if !(0 <= i < s.len() && s[i] == B_LBRACE) {
        None
    } else {
        match obj_fields(s, ws_end(s, i + 1), no_slots(), 5) {
            None => None,
            Some((slots, j)) => match (slots.id, slots.name, slots.freq) {
                (Some(id), Some(name), Some(freq)) => Some(
                    (
                        EntityModel {
                            id,
                            label: name,
                            frequencies: seq![freq],
                            parent: slots.prefix,
                            boundary: match slots.boundary {
                                Some(ps) => ps,
                                None => Seq::empty(),
                            },
                        },
                        j,
                    ),
                ),
                _ => None,
            },
        }
    }
}

/// Up to `fuel` fields, each followed by a comma or the closing brace.
pub open spec fn obj_fields(s: Seq<u8>, i: int, slots: SlotsModel, fuel: nat) -> Option<(
    SlotsModel,
    int,
)>
    decreases fuel,
{
    if fuel == 0 {
        None
    } else {
        match field_at(s, i, slots) {
            None => None,
            Some((slots2, j)) => {
                let j1 = ws_end(s, j);
                if j1 < s.len() && s[j1] == B_COMMA {
                    obj_fields(s, ws_end(s, j1 + 1), slots2, (fuel - 1) as nat)
                } else if j1 < s.len() && s[j1] == B_RBRACE {
                    Some((slots2, j1 + 1))
                } else {
                    None
                }
            },
        }
    }
}

/// A parsed field always ends after the position it starts at.
proof fn lemma_field_advances(s: Seq<u8>, i: int, slots: SlotsModel)
    requires
        0 <= i <= s.len(),
    ensures
        field_at(s, i, slots) matches Some((sl, j)) ==> i < j <= s.len(),
{
    match quoted_at(s, i) {
        None => {},
        Some((key, j0)) => {
            crate::euroscope::lemma_first_at_bounds(s, i + 1, B_QUOTE);
            lemma_ws_end_bounds(s, j0);
            let j = ws_end(s, j0);
            if j < s.len() && s[j] == B_COLON {
                lemma_ws_end_bounds(s, j + 1);
                let v = ws_end(s, j + 1);
                assert(0 <= v <= s.len());
                match quoted_at(s, v) {
                    Some((x, k)) => {
                        crate::euroscope::lemma_first_at_bounds(s, v + 1, B_QUOTE);
                    },
                    None => {},
                }
                lemma_vg_freq_advances(s, v);
                lemma_vg_boundary_advances(s, v);
            }
        },
    }
}

/// A parsed frequency always ends after the position it starts at.
proof fn lemma_vg_freq_advances(s: Seq<u8>, i: int)
    requires
        0 <= i <= s.len(),
    ensures
        vg_freq_at(s, i) matches Some((f, j)) ==> i < j <= s.len(),
{
    lemma_freq_advances(s, i);
    if i < s.len() {
        lemma_freq_advances(s, i + 1);
    }
}

/// A parsed sectorfile-style frequency token ends after its start.
proof fn lemma_freq_advances(s: Seq<u8>, i: int)
    requires
        0 <= i <= s.len(),
    ensures
        freq_at(s, i) matches Some((f, j)) ==> i < j <= s.len(),
{
    crate::text::lemma_digit_end_bounds(s, i);
}

/// A parsed boundary always ends after the position it starts at.
proof fn lemma_vg_boundary_advances(s: Seq<u8>, i: int)
    requires
        0 <= i <= s.len(),
    ensures
        vg_boundary_at(s, i) matches Some((ps, j)) ==> i < j <= s.len(),
{
    if 0 <= i < s.len() && s[i] == B_LBRACK {
        lemma_ws_end_bounds(s, i + 1);
        lemma_cpairs_advances(s, ws_end(s, i + 1));
        match cpairs_at(s, ws_end(s, i + 1)) {
            Some((ps, j)) => {
                lemma_ws_end_bounds(s, j);
            },
            None => {},
        }
    }
}

/// A parsed pair list always ends after the position it starts at.
proof fn lemma_cpairs_advances(s: Seq<u8>, i: int)
    requires
        0 <= i <= s.len(),
    ensures
        cpairs_at(s, i) matches Some((ps, j)) ==> i < j <= s.len(),
    decreases s.len() - i,
{
    lemma_cpair_advances(s, i);
    match cpair_at(s, i) {
        None => {},
        Some((p, j)) => {
            lemma_ws_end_bounds(s, j);
            let j1 = ws_end(s, j);
            if j1 < s.len() && s[j1] == B_COMMA {
                lemma_ws_end_bounds(s, j1 + 1);
                lemma_cpairs_advances(s, ws_end(s, j1 + 1));
            }
        },
    }
}

/// A parsed object always ends after the position it starts at.
proof fn lemma_obj_advances(s: Seq<u8>, i: int)
    requires
        0 <= i <= s.len(),
    ensures
        obj_at(s, i) matches Some((em, j)) ==> i < j <= s.len(),
{
    if 0 <= i < s.len() && s[i] == B_LBRACE {
        lemma_ws_end_bounds(s, i + 1);
        lemma_obj_fields_advances(s, ws_end(s, i + 1), no_slots(), 5);
    }
}

/// Parsed fields always end after the position they start at.
proof fn lemma_obj_fields_advances(s: Seq<u8>, i: int, slots: SlotsModel, fuel: nat)
    requires
        0 <= i <= s.len(),
    ensures
        obj_fields(s, i, slots, fuel) matches Some((sl, j)) ==> i < j <= s.len(),
    decreases fuel,
{
    if fuel > 0 {
        lemma_field_advances(s, i, slots);
        match field_at(s, i, slots) {
            None => {},
            Some((slots2, j)) => {
                lemma_ws_end_bounds(s, j);
                let j1 = ws_end(s, j);
                if j1 < s.len() && s[j1] == B_COMMA {
                    lemma_ws_end_bounds(s, j1 + 1);
                    lemma_obj_fields_advances(s, ws_end(s, j1 + 1), slots2, (fuel - 1) as nat);
                }
            },
        }
    }
}

/// The non-empty comma-separated object list.
pub open spec fn objs_at(s: Seq<u8>, i: int) -> Option<(Seq<EntityModel>, int)>
    decreases s.len() - i,
    when 0 <= i <= s.len()
    via objs_at_dec
{
    match obj_at(s, i) {
        None => None,
        Some((em, j)) => {
            let j1 = ws_end(s, j);
            if j1 < s.len() && s[j1] == B_COMMA {
                match objs_at(s, ws_end(s, j1 + 1)) {
                    None => None,
                    Some((es, k)) => Some((seq![em] + es, k)),
                }
            } else {
                Some((seq![em], j))
            }
        },
    }
}

#[via_fn]
proof fn objs_at_dec(s: Seq<u8>, i: int) {
    lemma_obj_advances(s, i);
    match obj_at(s, i) {
        Some((em, j)) => {
            lemma_ws_end_bounds(s, j);
            let j1 = ws_end(s, j);
            if j1 + 1 <= s.len() {
                lemma_ws_end_bounds(s, j1 + 1);
            }
        },
        None => {},
    }
}

/// Whether the document container is in place: an opening brace, the
/// `positions` key, a colon and the opening bracket of the array, with
/// whitespace between tokens skipped.
pub open spec fn vg_container_ok(s: Seq<u8>) -> bool {
    let i0 = ws_end(s, 0);
    &&& i0 < s.len() && s[i0] == B_LBRACE
    &&& match quoted_at(s, ws_end(s, i0 + 1)) {
        Some((key, i2)) => {
            let i3 = ws_end(s, i2);
            &&& key == key_positions()
            &&& i3 < s.len() && s[i3] == B_COLON
            &&& {
                let i4 = ws_end(s, i3 + 1);
                i4 < s.len() && s[i4] == B_LBRACK
            }
        },
        None => false,
    }
}

/// The first token position inside the positions array of a recognized
/// container.
pub open spec fn vg_list_start(s: Seq<u8>) -> int {
    let i0 = ws_end(s, 0);
    let i2 = quoted_at(s, ws_end(s, i0 + 1))->Some_0.1;
    let i4 = ws_end(s, ws_end(s, i2) + 1);
    ws_end(s, i4 + 1)
}

/// The tail after the positions array: the closing brace and nothing but
/// whitespace to the end of the document.
pub open spec fn vg_end(s: Seq<u8>, es: Seq<EntityModel>, i: int) -> Option<Seq<EntityModel>> {
    let j = ws_end(s, i);
    if j < s.len() && s[j] == B_RBRACE && ws_end(s, j + 1) == s.len() {
        Some(es)
    } else {
        None
    }
}

/// The whole community document: `{"positions":[ ... ]}` with zero or more
/// position objects and insignificant whitespace between tokens, spanning
/// the entire input.
pub open spec fn vg_at(s: Seq<u8>) -> Option<Seq<EntityModel>> {
    if !vg_container_ok(s) {
        None
    } else {
        let i = vg_list_start(s);
        if i < s.len() && s[i] == B_RBRACK {
            vg_end(s, Seq::empty(), i + 1)
        } else {
            match objs_at(s, i) {
                None => None,
                Some((es, j)) => {
                    let j1 = ws_end(s, j);
                    if j1 < s.len() && s[j1] == B_RBRACK {
                        vg_end(s, es, j1 + 1)
                    } else {
                        None
                    }
                },
            }
        }
    }
}

/// The key `positions`.
pub open spec fn key_positions() -> Seq<u8> {
    seq![0x70u8, 0x6fu8, 0x73u8, 0x69u8, 0x74u8, 0x69u8, 0x6fu8, 0x6eu8, 0x73u8]
}

/// Exact reader of `decnum_at`.
#[verifier::rlimit(100)]
#[verifier::spinoff_prover]
fn read_decnum(s: &[u8], i: usize, lat: bool) -> (r: Option<(i64, usize)>)
    requires
        i <= s@.len(),
    ensures
        match r {
            Some((v, j)) => decnum_at(s@, i as int, lat) == Some((v, j as int)) && i < j
                <= s@.len(),
            None => decnum_at(s@, i as int, lat) is None,
        },
{
    let neg = i < s.len() && s[i] == B_MINUS;
    let i0 = if neg {
        i + 1
    } else {
        i
    };
    let (whole, j) = match crate::text::read_number(s, i0) {
        Some(x) => x,
        None => {
            return None;
        },
    };
    let mut frac: u64 = 0;
    let mut k: usize = j;
    if j < s.len() && s[j] == B_DOT {
        proof {
            crate::text::lemma_digit_end_bounds(s@, j + 1);
        }
        let ghost de = digit_end(s@, j + 1);
        let mut e: usize = j + 1;
        let mut v: u64 = 0;
        while e < s.len() && s[e] >= 0x30 && s[e] <= 0x39 && e - j <= 7
            invariant
                j + 1 <= e <= s@.len(),
                de == digit_end(s@, j + 1),
                e <= de,
                e - j <= 8,
                forall|m: int| j + 1 <= m < de ==> is_digit(#[trigger] s@[m]),
                de < s@.len() ==> !is_digit(s@[de]),
                v == val_digits(s@.subrange(j + 1, e as int)),
                v < 100_000_000,
            decreases s.len() - e,
        {
            proof {
                if e == de {
                    assert(!is_digit(s@[e as int]));
                }
                assert(s@.subrange(j + 1, e + 1).drop_last() =~= s@.subrange(j + 1, e as int));
                assert(s@.subrange(j + 1, e + 1).last() == s@[e as int]);
                crate::text::lemma_val_digits_bound(s@.subrange(j + 1, e as int));
                crate::text::lemma_pow10_mono((e - j - 1) as nat, 7);
                reveal_with_fuel(crate::text::pow10, 9);
            }
            v = v * 10 + (s[e] - 0x30) as u64;
            e += 1;
        }
        proof {
            if e < s@.len() && is_digit(s@[e as int]) {
                assert(e - j == 8);
                assert(e < de);
            } else {
                if e < de {
                    assert(is_digit(s@[e as int]));
                }
                assert(e == de);
            }
        }
        let run = e - (j + 1);
        if run == 0 || run > 6 || (e < s.len() && s[e] >= 0x30 && s[e] <= 0x39) {
            proof {
                if run > 6 || (e < s@.len() && is_digit(s@[e as int])) {
                    assert(de - (j + 1) < 1 || de - (j + 1) > 6);
                }
            }
            return None;
        }
        proof {
            reveal_with_fuel(crate::text::pow10, 9);
            crate::text::lemma_val_digits_bound(s@.subrange(j + 1, e as int));
            assert(s@.subrange(j + 1, e as int).len() == run);
            assert(v < crate::text::pow10(run as nat));
        }
        let ghost goal = val_digits(s@.subrange(j + 1, e as int)) * pow10_spec(6 - (run as int));
        frac = if run == 1 {
            proof {
                assert(v < 10);
                assert(v * 100_000 == goal && v * 100_000 < 1_000_000) by {
                    reveal_with_fuel(crate::text::pow10, 9);
                }
            }
            v * 100_000
        } else if run == 2 {
            proof {
                assert(v < 100);
                assert(v * 10_000 == goal && v * 10_000 < 1_000_000) by {
                    reveal_with_fuel(crate::text::pow10, 9);
                }
            }
            v * 10_000
        } else if run == 3 {
            proof {
                assert(v < 1_000);
                assert(v * 1_000 == goal && v * 1_000 < 1_000_000) by {
                    reveal_with_fuel(crate::text::pow10, 9);
                }
            }
            v * 1_000
        } else if run == 4 {
            proof {
                assert(v < 10_000);
                assert(v * 100 == goal && v * 100 < 1_000_000) by {
                    reveal_with_fuel(crate::text::pow10, 9);
                }
            }
            v * 100
        } else if run == 5 {
            proof {
                assert(v < 100_000);
                assert(v * 10 == goal && v * 10 < 1_000_000) by {
                    reveal_with_fuel(crate::text::pow10, 9);
                }
            }
            v * 10
        } else {
            proof {
                assert(run == 6);
                assert(v < 1_000_000);
                assert(pow10_spec(0) == 1) by {
                    reveal_with_fuel(crate::text::pow10, 2);
                }
                assert(val_digits(s@.subrange(j + 1, e as int)) * 1 == val_digits(
                    s@.subrange(j + 1, e as int),
                )) by (nonlinear_arith);
                assert(goal == val_digits(s@.subrange(j + 1, e as int)));
                assert(v == goal);
            }
            v
        };
        proof {
            assert(frac == goal);
            assert(frac < 1_000_000);
        }
        k = e;
    }
    let micro: u64 = whole * 1_000_000 + frac;
    let bound: u64 = if lat {
        LAT_RANGE as u64
    } else {
        LON_RANGE as u64
    };
    if micro > bound {
        return None;
    }
    if neg {
        Some((-(micro as i64), k))
    } else {
        Some((micro as i64, k))
    }
}

/// Exact reader of `coord_at`.
fn read_coord(s: &[u8], i: usize, lat: bool) -> (r: Option<(i64, usize)>)
    requires
        i <= s@.len(),
    ensures
        match r {
            Some((v, j)) => coord_at(s@, i as int, lat) == Some((v, j as int)) && i < j
                <= s@.len(),
            None => coord_at(s@, i as int, lat) is None,
        },
{
    if i < s.len() && s[i] == B_QUOTE {
        match read_decnum(s, i + 1, lat) {
            None => None,
            Some((v, j)) => {
                if j < s.len() && s[j] == B_QUOTE {
                    Some((v, j + 1))
                } else {
                    None
                }
            },
        }
    } else {
        read_decnum(s, i, lat)
    }
}

/// Exact reader of `cpair_at`.
fn read_cpair(s: &[u8], i: usize) -> (r: Option<(Point, usize)>)
    requires
        i <= s@.len(),
    ensures
        match r {
            Some((p, j)) => cpair_at(s@, i as int) == Some((p, j as int)) && i < j <= s@.len(),
            None => cpair_at(s@, i as int) is None,
        },
{
    if !(i < s.len() && s[i] == B_LBRACK) {
        return None;
    }
    let (lat, j) = match read_coord(s, skip_ws(s, i + 1), true) {
        Some(x) => x,
        None => {
            return None;
        },
    };
    let j1 = skip_ws(s, j);
    if !(j1 < s.len() && s[j1] == B_COMMA) {
        return None;
    }
    let (lon, k) = match read_coord(s, skip_ws(s, j1 + 1), false) {
        Some(x) => x,
        None => {
            return None;
        },
    };
    let k1 = skip_ws(s, k);
    if !(k1 < s.len() && s[k1] == B_RBRACK) {
        return None;
    }
    Some((Point { lat, lon }, k1 + 1))
}

/// Exact reader of `cpairs_at`.
fn read_cpairs(s: &[u8], i: usize) -> (r: Option<(Vec<Point>, usize)>)
    requires
        i <= s@.len(),
    ensures
        match r {
            Some((ps, j)) => cpairs_at(s@, i as int) == Some((ps@, j as int)) && i < j <= s@.len(),
            None => cpairs_at(s@, i as int) is None,
        },
    decreases s@.len() - i,
{
    match read_cpair(s, i) {
        None => None,
        Some((p, j)) => {
            let j1 = skip_ws(s, j);
            if j1 < s.len() && s[j1] == B_COMMA {
                proof {
                    lemma_cpair_advances(s@, i as int);
                }
                match read_cpairs(s, skip_ws(s, j1 + 1)) {
                    None => None,
                    Some((ps, k)) => {
                        let mut ps = ps;
                        ps.insert(0, p);
                        proof {
                            assert(ps@ =~= seq![p] + cpairs_at(
                                s@,
                                ws_end(s@, j1 + 1),
                            )->Some_0.0);
                        }
                        Some((ps, k))
                    },
                }
            } else {
                let mut ps: Vec<Point> = Vec::new();
                ps.push(p);
                proof {
                    assert(ps@ =~= seq![p]);
                }
                Some((ps, j))
            }
        },
    }
}

/// Exact reader of `vg_boundary_at`.
fn read_vg_boundary(s: &[u8], i: usize) -> (r: Option<(Vec<Point>, usize)>)
    requires
        i <= s@.len(),
    ensures
        match r {
            Some((ps, j)) => vg_boundary_at(s@, i as int) == Some((ps@, j as int)) && i < j
                <= s@.len(),
            None => vg_boundary_at(s@, i as int) is None,
        },
{
    if !(i < s.len() && s[i] == B_LBRACK) {
        return None;
    }
    let i1 = skip_ws(s, i + 1);
    if i1 < s.len() && s[i1] == B_RBRACK {
        let ps: Vec<Point> = Vec::new();
        proof {
            assert(ps@ =~= Seq::<Point>::empty());
        }
        return Some((ps, i1 + 1));
    }
    match read_cpairs(s, i1) {
        None => None,
        Some((ps, j)) => {
            let j1 = skip_ws(s, j);
            if j1 < s.len() && s[j1] == B_RBRACK {
                Some((ps, j1 + 1))
            } else {
                None
            }
        },
    }
}

/// Exact reader of `vg_freq_at`.
fn read_vg_freq(s: &[u8], i: usize) -> (r: Option<(u64, usize)>)
    requires
        i <= s@.len(),
    ensures
        match r {
            Some((f, j)) => vg_freq_at(s@, i as int) == Some((f, j as int)) && j <= s@.len(),
            None => vg_freq_at(s@, i as int) is None,
        },
{
    if i < s.len() && s[i] == B_QUOTE {
        match crate::euroscope::read_freq(s, i + 1) {
            None => None,
            Some((f, j)) => {
                if j < s.len() && s[j] == B_QUOTE {
                    Some((f, j + 1))
                } else {
                    None
                }
            },
        }
    } else {
        crate::euroscope::read_freq(s, i)
    }
}

/// The fields of one position object collected so far.
pub struct Slots {
    pub id: Option<Vec<u8>>,
    pub name: Option<Vec<u8>>,
    pub freq: Option<u64>,
    pub prefix: Option<Vec<u8>>,
    pub boundary: Option<Vec<Point>>,
}

impl View for Slots {
    type V = SlotsModel;

    open spec fn view(&self) -> SlotsModel {
        SlotsModel {
            id: match self.id {
                Some(ref v) => Some(v@),
                None => None,
            },
            name: match self.name {
                Some(ref v) => Some(v@),
                None => None,
            },
            freq: self.freq,
            prefix: match self.prefix {
                Some(ref v) => Some(v@),
                None => None,
            },
            boundary: match self.boundary {
                Some(ref v) => Some(v@),
                None => None,
            },
        }
    }
}

/// The key `name` as bytes.
fn tok_key_name() -> (r: Vec<u8>)
    ensures
        r@ =~= key_name(),
{
    let mut v: Vec<u8> = Vec::new();
    v.push(0x6e);
    v.push(0x61);
    v.push(0x6d);
    v.push(0x65);
    v
}

/// The key `frequency` as bytes.
fn tok_key_frequency() -> (r: Vec<u8>)
    ensures
        r@ =~= key_frequency(),
{
    let mut v: Vec<u8> = Vec::new();
    v.push(0x66);
    v.push(0x72);
    v.push(0x65);
    v.push(0x71);
    v.push(0x75);
    v.push(0x65);
    v.push(0x6e);
    v.push(0x63);
    v.push(0x79);
    v
}

/// The key `prefix` as bytes.
fn tok_key_prefix() -> (r: Vec<u8>)
    ensures
        r@ =~= key_prefix(),
{
    let mut v: Vec<u8> = Vec::new();
    v.push(0x70);
    v.push(0x72);
    v.push(0x65);
    v.push(0x66);
    v.push(0x69);
    v.push(0x78);
    v
}

/// The key `id` as bytes.
fn tok_key_id() -> (r: Vec<u8>)
    ensures
        r@ =~= crate::codec::key_id(),
{
    let mut v: Vec<u8> = Vec::new();
    v.push(0x69);
    v.push(0x64);
    v
}

/// The key `boundary` as bytes.
fn tok_key_boundary() -> (r: Vec<u8>)
    ensures
        r@ =~= crate::codec::key_boundary(),
{
    let mut v: Vec<u8> = Vec::new();
    v.push(0x62);
    v.push(0x6f);
    v.push(0x75);
    v.push(0x6e);
    v.push(0x64);
    v.push(0x61);
    v.push(0x72);
    v.push(0x79);
    v
}

/// Exact reader of `field_at`.
#[verifier::rlimit(80)]
fn read_field(s: &[u8], i: usize, slots: Slots) -> (r: Option<(Slots, usize)>)
    requires
        i <= s@.len(),
    ensures
        match r {
            Some((sl, j)) => field_at(s@, i as int, slots@) == Some((sl@, j as int)) && j
                <= s@.len(),
            None => field_at(s@, i as int, slots@) is None,
        },
{
    let (key, j0) = match crate::codec::read_quoted(s, i) {
        Some(x) => x,
        None => {
            return None;
        },
    };
    let j = skip_ws(s, j0);
    if !(j < s.len() && s[j] == B_COLON) {
        return None;
    }
    let v = skip_ws(s, j + 1);
    let kid = tok_key_id();
    let kname = tok_key_name();
    let kfreq = tok_key_frequency();
    let kprefix = tok_key_prefix();
    let kbound = tok_key_boundary();
    if crate::model::bytes_eq(key.as_slice(), kid.as_slice()) {
        if slots.id.is_some() {
            return None;
        }
        match crate::codec::read_quoted(s, v) {
            Some((x, k)) => {
                if !crate::model::is_safe_id(x.as_slice()) {
                    return None;
                }
                Some((Slots { id: Some(x), ..slots }, k))
            },
            None => None,
        }
    } else if crate::model::bytes_eq(key.as_slice(), kname.as_slice()) {
        if slots.name.is_some() {
            return None;
        }
        match crate::codec::read_quoted(s, v) {
            Some((x, k)) => Some((Slots { name: Some(x), ..slots }, k)),
            None => None,
        }
    } else if crate::model::bytes_eq(key.as_slice(), kfreq.as_slice()) {
        if slots.freq.is_some() {
            return None;
        }
        match read_vg_freq(s, v) {
            Some((f, k)) => Some((Slots { freq: Some(f), ..slots }, k)),
            None => None,
        }
    } else if crate::model::bytes_eq(key.as_slice(), kprefix.as_slice()) {
        if slots.prefix.is_some() {
            return None;
        }
        match crate::codec::read_quoted(s, v) {
            Some((x, k)) => {
                if x.len() == 0 {
                    return None;
                }
                Some((Slots { prefix: Some(x), ..slots }, k))
            },
            None => None,
        }
    } else if crate::model::bytes_eq(key.as_slice(), kbound.as_slice()) {
        if slots.boundary.is_some() {
            return None;
        }
        match read_vg_boundary(s, v) {
            Some((ps, k)) => Some((Slots { boundary: Some(ps), ..slots }, k)),
            None => None,
        }
    } else {
        None
    }
}

/// Exact reader of `obj_fields`.
fn read_obj_fields(s: &[u8], i: usize, slots: Slots, fuel: u64) -> (r: Option<(Slots, usize)>)
    requires
        i <= s@.len(),
    ensures
        match r {
            Some((sl, j)) => obj_fields(s@, i as int, slots@, fuel as nat) == Some(
                (sl@, j as int),
            ) && j <= s@.len(),
            None => obj_fields(s@, i as int, slots@, fuel as nat) is None,
        },
    decreases fuel,
{
    if fuel == 0 {
        return None;
    }
    match read_field(s, i, slots) {
        None => None,
        Some((slots2, j)) => {
            let j1 = skip_ws(s, j);
            if j1 < s.len() && s[j1] == B_COMMA {
                read_obj_fields(s, skip_ws(s, j1 + 1), slots2, fuel - 1)
            } else if j1 < s.len() && s[j1] == B_RBRACE {
                Some((slots2, j1 + 1))
            } else {
                None
            }
        },
    }
}

/// Exact reader of `obj_at`.
fn read_obj(s: &[u8], i: usize) -> (r: Option<(Entity, usize)>)
    requires
        i <= s@.len(),
    ensures
        match r {
            Some((e, j)) => obj_at(s@, i as int) == Some((e@, j as int)) && i < j <= s@.len(),
            None => obj_at(s@, i as int) is None,
        },
{
    if !(i < s.len() && s[i] == B_LBRACE) {
        return None;
    }
    let empty = Slots { id: None, name: None, freq: None, prefix: None, boundary: None };
    let f0 = skip_ws(s, i + 1);
    proof {
        assert(empty@ == no_slots());
        lemma_obj_fields_advances(s@, f0 as int, no_slots(), 5);
    }
    match read_obj_fields(s, f0, empty, 5) {
        None => None,
        Some((slots, j)) => {
            match (slots.id, slots.name, slots.freq) {
                (Some(id), Some(name), Some(freq)) => {
                    let mut frequencies: Vec<u64> = Vec::new();
                    frequencies.push(freq);
                    let boundary = match slots.boundary {
                        Some(ps) => ps,
                        None => Vec::new(),
                    };
                    proof {
                        assert(frequencies@ =~= seq![freq]);
                        assert(boundary@ =~= match obj_at(s@, i as int)->Some_0.0.boundary {
                            b => b,
                        });
                    }
                    let e = Entity { id, label: name, frequencies, parent: slots.prefix, boundary };
                    Some((e, j))
                },
                _ => None,
            }
        },
    }
}

/// Exact reader of `objs_at`.
#[verifier::rlimit(100)]
#[verifier::spinoff_prover]
fn read_objs(s: &[u8], i: usize) -> (r: Option<(Vec<Entity>, usize)>)
    requires
        i <= s@.len(),
    ensures
        match r {
            Some((es, j)) => objs_at(s@, i as int) == Some(
                (crate::model::models(es@), j as int),
            ) && i < j <= s@.len(),
            None => objs_at(s@, i as int) is None,
        },
    decreases s@.len() - i,
{
    match read_obj(s, i) {
        None => None,
        Some((e, j)) => {
            let j1 = skip_ws(s, j);
            if j1 < s.len() && s[j1] == B_COMMA {
                proof {
                    lemma_obj_advances(s@, i as int);
                }
                match read_objs(s, skip_ws(s, j1 + 1)) {
                    None => None,
                    Some((es, k)) => {
                        let mut es = es;
                        let ghost em = e@;
                        es.insert(0, e);
                        proof {
                            assert(crate::model::models(es@) =~= seq![em] + objs_at(
                                s@,
                                ws_end(s@, j1 + 1),
                            )->Some_0.0) by {
                                assert forall|m: int|
                                    0 <= m < es@.len() implies crate::model::models(es@)[m] == (
                                seq![em] + objs_at(s@, ws_end(s@, j1 + 1))->Some_0.0)[m] by {
                                    if m > 0 {
                                        assert(es@[m] == es@.subrange(1, es@.len() as int)[m - 1]);
                                    }
                                }
                            }
                        }
                        Some((es, k))
                    },
                }
            } else {
                let mut es: Vec<Entity> = Vec::new();
                let ghost em = e@;
                es.push(e);
                proof {
                    assert(crate::model::models(es@) =~= seq![em]);
                }
                Some((es, j))
            }
        },
    }
}

/// The key `positions` as bytes.
fn tok_key_positions() -> (r: Vec<u8>)
    ensures
        r@ =~= key_positions(),
{
    let mut v: Vec<u8> = Vec::new();
    v.push(0x70);
    v.push(0x6f);
    v.push(0x73);
    v.push(0x69);
    v.push(0x74);
    v.push(0x69);
    v.push(0x6f);
    v.push(0x6e);
    v.push(0x73);
    v
}

/// The error reported for a refused document: a format error when the
/// document container itself is not recognized, a schema error when the
/// container is in place but its positions cannot be decoded.
pub open spec fn vg_error(s: Seq<u8>) -> ImportError {
    if !vg_container_ok(s) {
        ImportError::Format
    } else {
        ImportError::Schema
    }
}

/// Decode one community JSON document into entities, in document order.
/// Duplicate identifiers are kept here and resolved at reconciliation.
pub fn parse_vatglasses(s: &[u8]) -> (r: Result<Vec<Entity>, ImportError>)
    ensures
        match vg_at(s@) {
            Some(es) => (r matches Ok(v) && crate::model::models(v@) == es),
            None => r == Err::<Vec<Entity>, ImportError>(vg_error(s@)),
        },
{
    let i0 = skip_ws(s, 0);
    if !(i0 < s.len() && s[i0] == B_LBRACE) {
        return Err(ImportError::Format);
    }
    let (key, i2) = match crate::codec::read_quoted(s, skip_ws(s, i0 + 1)) {
        Some(x) => x,
        None => {
            return Err(ImportError::Format);
        },
    };
    let kp = tok_key_positions();
    if !crate::model::bytes_eq(key.as_slice(), kp.as_slice()) {
        return Err(ImportError::Format);
    }
    let i3 = skip_ws(s, i2);
    if !(i3 < s.len() && s[i3] == B_COLON) {
        return Err(ImportError::Format);
    }
    let i4 = skip_ws(s, i3 + 1);
    if !(i4 < s.len() && s[i4] == B_LBRACK) {
        return Err(ImportError::Format);
    }
    let i5 = skip_ws(s, i4 + 1);
    proof {
        assert(vg_container_ok(s@));
        assert(vg_list_start(s@) == i5);
    }
    if i5 < s.len() && s[i5] == B_RBRACK {
        if finish_document(s, i5 + 1) {
            let es: Vec<Entity> = Vec::new();
            proof {
                assert(crate::model::models(es@) =~= Seq::<EntityModel>::empty());
            }
            Ok(es)
        } else {
            Err(ImportError::Schema)
        }
    } else {
        match read_objs(s, i5) {
            None => Err(ImportError::Schema),
            Some((es, j)) => {
                let j1 = skip_ws(s, j);
                if !(j1 < s.len() && s[j1] == B_RBRACK) {
                    return Err(ImportError::Schema);
                }
                if finish_document(s, j1 + 1) {
                    Ok(es)
                } else {
                    Err(ImportError::Schema)
                }
            },
        }
    }
}

/// Whether only the closing brace and trailing whitespace remain.
fn finish_document(s: &[u8], i: usize) -> (r: bool)
    requires
        i <= s@.len(),
    ensures
        r == (vg_end(s@, Seq::<EntityModel>::empty(), i as int) is Some),
        forall|es: Seq<EntityModel>|
            #[trigger] vg_end(s@, es, i as int) == if r {
                Some(es)
            } else {
                None::<Seq<EntityModel>>
            },
{
    let j = skip_ws(s, i);
    if !(j < s.len() && s[j] == B_RBRACE) {
        return false;
    }
    skip_ws(s, j + 1) == s.len()
}

} // verus!
