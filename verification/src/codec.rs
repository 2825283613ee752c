//! The on-disk entity encodings: a canonical TOML document and a canonical
//! JSON document per entity, written and read byte for byte. The parser's
//! contract pins its result exactly, and reading back what the writer
//! produced yields the original entity.

use vstd::prelude::*;

use crate::format::OutputFormat;
use crate::model::{plain_seq, Entity, EntityModel, Point};
use crate::reconcile::ImportError;
use crate::text::{
    first_at, int_at, int_str, is_digit, lemma_digit_end_bounds,
    lemma_number_round_trip, number_at, dec_str, read_int, read_number, push_decimal, push_int,
    B_COMMA, B_QUOTE,
};

verus! {

pub const B_LBRACE: u8 = 0x7b;

pub const B_RBRACE: u8 = 0x7d;

pub const B_LBRACK: u8 = 0x5b;

pub const B_RBRACK: u8 = 0x5d;

pub const B_COLON: u8 = 0x3a;

pub const B_NL: u8 = 0x0a;

pub const B_SPACE: u8 = 0x20;

pub const B_EQ: u8 = 0x3d;

/// The key `id`.
pub open spec fn key_id() -> Seq<u8> {
    seq![0x69u8, 0x64u8]
}

/// The key `label`.
pub open spec fn key_label() -> Seq<u8> {
    seq![0x6cu8, 0x61u8, 0x62u8, 0x65u8, 0x6cu8]
}

/// The key `frequencies`.
pub open spec fn key_frequencies() -> Seq<u8> {
    seq![0x66u8, 0x72u8, 0x65u8, 0x71u8, 0x75u8, 0x65u8, 0x6eu8, 0x63u8, 0x69u8, 0x65u8, 0x73u8]
}

/// The key `parent`.
pub open spec fn key_parent() -> Seq<u8> {
    seq![0x70u8, 0x61u8, 0x72u8, 0x65u8, 0x6eu8, 0x74u8]
}

/// The key `boundary`.
pub open spec fn key_boundary() -> Seq<u8> {
    seq![0x62u8, 0x6fu8, 0x75u8, 0x6eu8, 0x64u8, 0x61u8, 0x72u8, 0x79u8]
}

/// The JSON literal `null`.
pub open spec fn lit_null() -> Seq<u8> {
    seq![0x6eu8, 0x75u8, 0x6cu8, 0x6cu8]
}

/// A quoted byte string.
pub open spec fn quoted(c: Seq<u8>) -> Seq<u8> {
    seq![B_QUOTE] + c + seq![B_QUOTE]
}

/// A JSON object key followed by its colon.
pub open spec fn jkey(k: Seq<u8>) -> Seq<u8> {
    quoted(k) + seq![B_COLON]
}

/// A TOML key followed by ` = `.
pub open spec fn tkey(k: Seq<u8>) -> Seq<u8> {
    k + seq![B_SPACE, B_EQ, B_SPACE]
}

/// Comma-separated decimal renderings of the numbers.
pub open spec fn num_list(fs: Seq<u64>) -> Seq<u8>
    decreases fs.len(),
{
    if fs.len() == 0 {
        Seq::empty()
    } else if fs.len() == 1 {
        dec_str(fs[0] as nat)
    } else {
        dec_str(fs[0] as nat) + seq![B_COMMA] + num_list(fs.drop_first())
    }
}

/// One boundary point: a two-element array of signed decimals.
pub open spec fn point_bytes(p: Point) -> Seq<u8> {
    seq![B_LBRACK] + int_str(p.lat as int) + seq![B_COMMA] + int_str(p.lon as int) + seq![B_RBRACK]
}

/// Comma-separated boundary points.
pub open spec fn point_list(ps: Seq<Point>) -> Seq<u8>
    decreases ps.len(),
{
    if ps.len() == 0 {
        Seq::empty()
    } else if ps.len() == 1 {
        point_bytes(ps[0])
    } else {
        point_bytes(ps[0]) + seq![B_COMMA] + point_list(ps.drop_first())
    }
}

/// The canonical JSON document of an entity.
pub open spec fn json_bytes(e: EntityModel) -> Seq<u8> {
    seq![B_LBRACE] + jkey(key_id()) + quoted(e.id) + seq![B_COMMA] + jkey(key_label()) + quoted(
        e.label,
    ) + seq![B_COMMA] + jkey(key_frequencies()) + seq![B_LBRACK] + num_list(e.frequencies)
        + seq![B_RBRACK] + seq![B_COMMA] + jkey(key_parent()) + parent_json_bytes(e.parent)
        + seq![B_COMMA] + jkey(key_boundary()) + seq![B_LBRACK] + point_list(e.boundary)
        + seq![B_RBRACK] + seq![B_RBRACE]
}

/// The JSON parent field: `null` or the quoted reference.
pub open spec fn parent_json_bytes(parent: Option<Seq<u8>>) -> Seq<u8> {
    match parent {
        Some(p) => quoted(p),
        None => lit_null(),
    }
}

/// The canonical TOML document of an entity: one key per line, the
/// `parent` line only when a grouping reference exists.
pub open spec fn toml_bytes(e: EntityModel) -> Seq<u8> {
    tkey(key_id()) + quoted(e.id) + seq![B_NL] + tkey(key_label()) + quoted(e.label) + seq![B_NL]
        + tkey(key_frequencies()) + seq![B_LBRACK] + num_list(e.frequencies) + seq![B_RBRACK]
        + seq![B_NL] + parent_toml_bytes(e.parent) + tkey(key_boundary()) + seq![B_LBRACK]
        + point_list(e.boundary) + seq![B_RBRACK] + seq![B_NL]
}

/// The optional TOML parent line.
pub open spec fn parent_toml_bytes(parent: Option<Seq<u8>>) -> Seq<u8> {
    match parent {
        Some(p) => tkey(key_parent()) + quoted(p) + seq![B_NL],
        None => Seq::empty(),
    }
}

/// The canonical document of an entity in the chosen encoding.
pub open spec fn entity_bytes(e: EntityModel, format: OutputFormat) -> Seq<u8> {
    match format {
        OutputFormat::Toml => toml_bytes(e),
        OutputFormat::Json => json_bytes(e),
    }
}

/// Append the bytes of a slice.
pub fn push_bytes(out: &mut Vec<u8>, t: &[u8])
    ensures
        final(out)@ =~= old(out)@ + t@,
{
    let mut i: usize = 0;
    while i < t.len()
        invariant
            0 <= i <= t@.len(),
            out@ =~= old(out)@ + t@.subrange(0, i as int),
        decreases t.len() - i,
    {
        out.push(t[i]);
        i += 1;
    }
}

/// Append a quoted byte string.
fn push_quoted(out: &mut Vec<u8>, c: &[u8])
    ensures
        final(out)@ =~= old(out)@ + quoted(c@),
{
    out.push(B_QUOTE);
    push_bytes(out, c);
    out.push(B_QUOTE);
}

/// Append the comma-separated rendering of the numbers.
fn push_num_list(out: &mut Vec<u8>, fs: &[u64], from: usize)
    requires
        from <= fs@.len(),
    ensures
        final(out)@ =~= old(out)@ + num_list(fs@.skip(from as int)),
    decreases fs@.len() - from,
{
    let ghost tail = fs@.skip(from as int);
    if from < fs.len() {
        push_decimal(out, fs[from]);
        proof {
            assert(tail[0] == fs@[from as int]);
        }
        if from + 1 < fs.len() {
            out.push(B_COMMA);
            push_num_list(out, fs, from + 1);
            proof {
                assert(tail.drop_first() =~= fs@.skip(from + 1));
                assert(tail.len() > 1);
            }
        } else {
            proof {
                assert(tail.len() == 1);
            }
        }
    } else {
        proof {
            assert(tail =~= Seq::<u64>::empty());
        }
    }
}

/// Append one boundary point.
fn push_point(out: &mut Vec<u8>, p: Point)
    requires
        p.lat > i64::MIN,
        p.lon > i64::MIN,
    ensures
        final(out)@ =~= old(out)@ + point_bytes(p),
{
    out.push(B_LBRACK);
    push_int(out, p.lat);
    out.push(B_COMMA);
    push_int(out, p.lon);
    out.push(B_RBRACK);
}

/// Append the comma-separated rendering of the boundary points.
fn push_point_list(out: &mut Vec<u8>, ps: &[Point], from: usize)
    requires
        from <= ps@.len(),
        forall|i: int| 0 <= i < ps@.len() ==> (#[trigger] ps@[i]).lat > i64::MIN && ps@[i].lon
            > i64::MIN,
    ensures
        final(out)@ =~= old(out)@ + point_list(ps@.skip(from as int)),
    decreases ps@.len() - from,
{
    let ghost tail = ps@.skip(from as int);
    if from < ps.len() {
        push_point(out, ps[from]);
        proof {
            assert(tail[0] == ps@[from as int]);
        }
        if from + 1 < ps.len() {
            out.push(B_COMMA);
            push_point_list(out, ps, from + 1);
            proof {
                assert(tail.drop_first() =~= ps@.skip(from + 1));
                assert(tail.len() > 1);
            }
        } else {
            proof {
                assert(tail.len() == 1);
            }
        }
    } else {
        proof {
            assert(tail =~= Seq::<Point>::empty());
        }
    }
}

/// The key `id` as bytes.
fn bytes_key_id() -> (r: Vec<u8>)
    ensures
        r@ =~= key_id(),
{
    let mut v: Vec<u8> = Vec::new();
    v.push(0x69);
    v.push(0x64);
    v
}

/// The key `label` as bytes.
fn bytes_key_label() -> (r: Vec<u8>)
    ensures
        r@ =~= key_label(),
{
    let mut v: Vec<u8> = Vec::new();
    v.push(0x6c);
    v.push(0x61);
    v.push(0x62);
    v.push(0x65);
    v.push(0x6c);
    v
}

/// The key `frequencies` as bytes.
fn bytes_key_frequencies() -> (r: Vec<u8>)
    ensures
        r@ =~= key_frequencies(),
{
    let mut v: Vec<u8> = Vec::new();
    v.push(0x66);
    v.push(0x72);
    v.push(0x65);
    v.push(0x71);
    v.push(0x75);
    v.push(0x65);
    v.push(0x6e);
    v.push(0x63);
    v.push(0x69);
    v.push(0x65);
    v.push(0x73);
    v
}

/// The key `parent` as bytes.
fn bytes_key_parent() -> (r: Vec<u8>)
    ensures
        r@ =~= key_parent(),
{
    let mut v: Vec<u8> = Vec::new();
    v.push(0x70);
    v.push(0x61);
    v.push(0x72);
    v.push(0x65);
    v.push(0x6e);
    v.push(0x74);
    v
}

/// The key `boundary` as bytes.
fn bytes_key_boundary() -> (r: Vec<u8>)
    ensures
        r@ =~= key_boundary(),
{
    let mut v: Vec<u8> = Vec::new();
    v.push(0x62);
    v.push(0x6f);
    v.push(0x75);
    v.push(0x6e);
    v.push(0x64);
    v.push(0x61);
    v.push(0x72);
    v.push(0x79);
    v
}

/// The literal `null` as bytes.
fn bytes_null() -> (r: Vec<u8>)
    ensures
        r@ =~= lit_null(),
{
    let mut v: Vec<u8> = Vec::new();
    v.push(0x6e);
    v.push(0x75);
    v.push(0x6c);
    v.push(0x6c);
    v
}

/// Append a JSON key and its colon.
fn push_jkey(out: &mut Vec<u8>, k: &Vec<u8>)
    ensures
        final(out)@ =~= old(out)@ + jkey(k@),
{
    push_quoted(out, k.as_slice());
    out.push(B_COLON);
}

/// Append a TOML key and its ` = `.
fn push_tkey(out: &mut Vec<u8>, k: &Vec<u8>)
    ensures
        final(out)@ =~= old(out)@ + tkey(k@),
{
    push_bytes(out, k.as_slice());
    out.push(B_SPACE);
    out.push(B_EQ);
    out.push(B_SPACE);
}

/// Serialize one entity into the canonical document of the chosen encoding.
pub fn serialize(entity: &Entity, format: OutputFormat) -> (r: Vec<u8>)
    requires
        forall|i: int|
            0 <= i < entity.boundary@.len() ==> (#[trigger] entity.boundary@[i]).lat > i64::MIN
                && entity.boundary@[i].lon > i64::MIN,
    ensures
        r@ =~= entity_bytes(entity@, format),
{
    match format {
        OutputFormat::Json => serialize_json(entity),
        OutputFormat::Toml => serialize_toml(entity),
    }
}

/// Serialize one entity into the canonical JSON document.
#[verifier::rlimit(100)]
fn serialize_json(entity: &Entity) -> (r: Vec<u8>)
    requires
        forall|i: int|
    0 <= i < entity.boundary@.len() ==> (#[trigger] entity.boundary@[i]).lat > i64::MIN
        && entity.boundary@[i].lon > i64::MIN,
    ensures
        r@ =~= json_bytes(entity@),
{
    let mut out: Vec<u8> = Vec::new();
    let kid = bytes_key_id();
    let klabel = bytes_key_label();
    let kfreq = bytes_key_frequencies();
    let kparent = bytes_key_parent();
    let kbound = bytes_key_boundary();
    out.push(B_LBRACE);
    push_jkey(&mut out, &kid);
    push_quoted(&mut out, entity.id.as_slice());
    out.push(B_COMMA);
    push_jkey(&mut out, &klabel);
    push_quoted(&mut out, entity.label.as_slice());
    out.push(B_COMMA);
    push_jkey(&mut out, &kfreq);
    out.push(B_LBRACK);
    push_num_list(&mut out, entity.frequencies.as_slice(), 0);
    out.push(B_RBRACK);
    out.push(B_COMMA);
    push_jkey(&mut out, &kparent);
    match &entity.parent {
        Some(p) => push_quoted(&mut out, p.as_slice()),
        None => {
            let null = bytes_null();
            push_bytes(&mut out, null.as_slice());
        },
    }
    out.push(B_COMMA);
    push_jkey(&mut out, &kbound);
    out.push(B_LBRACK);
    push_point_list(&mut out, entity.boundary.as_slice(), 0);
    out.push(B_RBRACK);
    out.push(B_RBRACE);
    proof {
        assert(entity.frequencies@.skip(0) =~= entity.frequencies@);
        assert(entity.boundary@.skip(0) =~= entity.boundary@);
    }
    out
}

/// Serialize one entity into the canonical TOML document.
#[verifier::rlimit(100)]
fn serialize_toml(entity: &Entity) -> (r: Vec<u8>)
    requires
        forall|i: int|
            0 <= i < entity.boundary@.len() ==> (#[trigger] entity.boundary@[i]).lat > i64::MIN
                && entity.boundary@[i].lon > i64::MIN,
    ensures
        r@ =~= toml_bytes(entity@),
{
    let mut out: Vec<u8> = Vec::new();
    let kid = bytes_key_id();
    let klabel = bytes_key_label();
    let kfreq = bytes_key_frequencies();
    let kparent = bytes_key_parent();
    let kbound = bytes_key_boundary();
    push_tkey(&mut out, &kid);
    push_quoted(&mut out, entity.id.as_slice());
    out.push(B_NL);
    push_tkey(&mut out, &klabel);
    push_quoted(&mut out, entity.label.as_slice());
    out.push(B_NL);
    push_tkey(&mut out, &kfreq);
    out.push(B_LBRACK);
    push_num_list(&mut out, entity.frequencies.as_slice(), 0);
    out.push(B_RBRACK);
    out.push(B_NL);
    match &entity.parent {
        Some(p) => {
            push_tkey(&mut out, &kparent);
            push_quoted(&mut out, p.as_slice());
            out.push(B_NL);
        },
        None => {},
    }
    push_tkey(&mut out, &kbound);
    out.push(B_LBRACK);
    push_point_list(&mut out, entity.boundary.as_slice(), 0);
    out.push(B_RBRACK);
    out.push(B_NL);
    proof {
        assert(entity.frequencies@.skip(0) =~= entity.frequencies@);
        assert(entity.boundary@.skip(0) =~= entity.boundary@);
    }
    out
}

/// The literal `t` expected at position `i`.
pub open spec fn expect(s: Seq<u8>, i: int, t: Seq<u8>) -> Option<int> {
    if 0 <= i && i + t.len() <= s.len() && s.subrange(i, i + t.len() as int) == t {
        Some(i + t.len() as int)
    } else {
        None
    }
}

/// A quoted plain byte string starting at `i`: the opening quote, the
/// content up to the next quote, and the closing quote.
pub open spec fn quoted_at(s: Seq<u8>, i: int) -> Option<(Seq<u8>, int)> {
    if !(0 <= i < s.len() && s[i] == B_QUOTE) {
        None
    } else {
        let j = first_at(s, i + 1, B_QUOTE);
        if j >= s.len() || !plain_seq(s.subrange(i + 1, j)) {
            None
        } else {
            Some((s.subrange(i + 1, j), j + 1))
        }
    }
}

/// A canonical number ends after the position it starts at.
pub proof fn lemma_number_at_advances(s: Seq<u8>, i: int)
    requires
        0 <= i <= s.len(),
    ensures
        number_at(s, i) matches Some((v, j)) ==> i < j <= s.len(),
        int_at(s, i) matches Some((v, j)) ==> i < j <= s.len(),
{
    lemma_digit_end_bounds(s, i);
    if i < s.len() && s[i] == crate::text::B_MINUS {
        lemma_digit_end_bounds(s, i + 1);
    }
}

/// The non-empty comma-separated number list starting at `i`.
pub open spec fn nums_at(s: Seq<u8>, i: int) -> Option<(Seq<u64>, int)>
    decreases s.len() - i,
    when 0 <= i <= s.len()
    via nums_at_dec
{
    match number_at(s, i) {
        None => None,
        Some((v, j)) => {
            if j < s.len() && s[j] == B_COMMA {
                match nums_at(s, j + 1) {
                    None => None,
                    Some((vs, k)) => Some((seq![v] + vs, k)),
                }
            } else {
                Some((seq![v], j))
            }
        },
    }
}

#[via_fn]
proof fn nums_at_dec(s: Seq<u8>, i: int) {
    lemma_number_at_advances(s, i);
}

/// One boundary point starting at `i`.
pub open spec fn point_at(s: Seq<u8>, i: int) -> Option<(Point, int)> {
    if !(0 <= i < s.len() && s[i] == B_LBRACK) {
        None
    } else {
        match int_at(s, i + 1) {
            None => None,
            Some((lat, j)) => if !(j < s.len() && s[j] == B_COMMA) {
                None
            } else {
                match int_at(s, j + 1) {
                    None => None,
                    Some((lon, k)) => if !(k < s.len() && s[k] == B_RBRACK) {
                        None
                    } else {
                        Some((Point { lat, lon }, k + 1))
                    },
                }
            },
        }
    }
}

/// A parsed point ends after the position it starts at.
pub proof fn lemma_point_at_advances(s: Seq<u8>, i: int)
    requires
        0 <= i <= s.len(),
    ensures
        point_at(s, i) matches Some((p, j)) ==> i < j <= s.len(),
{
    if 0 <= i < s.len() && s[i] == B_LBRACK {
        lemma_number_at_advances(s, i + 1);
        match int_at(s, i + 1) {
            Some((lat, j)) => {
                if j + 1 <= s.len() {
                    lemma_number_at_advances(s, j + 1);
                }
            },
            None => {},
        }
    }
}

/// The non-empty comma-separated point list starting at `i`.
pub open spec fn pts_at(s: Seq<u8>, i: int) -> Option<(Seq<Point>, int)>
    decreases s.len() - i,
    when 0 <= i <= s.len()
    via pts_at_dec
{
    match point_at(s, i) {
        None => None,
        Some((p, j)) => {
            if j < s.len() && s[j] == B_COMMA {
                match pts_at(s, j + 1) {
                    None => None,
                    Some((ps, k)) => Some((seq![p] + ps, k)),
                }
            } else {
                Some((seq![p], j))
            }
        },
    }
}

#[via_fn]
proof fn pts_at_dec(s: Seq<u8>, i: int) {
    lemma_point_at_advances(s, i);
}

/// The canonical JSON document: the exact field sequence of `json_bytes`,
/// consuming the whole input, with a non-empty identifier, a non-empty
/// frequency list, and plain text fields.
pub open spec fn json_at(s: Seq<u8>) -> Option<EntityModel> {
    match expect(s, 0, seq![B_LBRACE] + jkey(key_id())) {
        None => None,
        Some(i0) => match quoted_at(s, i0) {
            None => None,
            Some((id, i1)) => if !crate::model::safe_id(id) {
                None
            } else {
                match expect(s, i1, seq![B_COMMA] + jkey(key_label())) {
                    None => None,
                    Some(i2) => match quoted_at(s, i2) {
                        None => None,
                        Some((label, i3)) => match expect(
                            s,
                            i3,
                            seq![B_COMMA] + jkey(key_frequencies()) + seq![B_LBRACK],
                        ) {
                            None => None,
                            Some(i4) => match nums_at(s, i4) {
                                None => None,
                                Some((fs, i5)) => match expect(
                                    s,
                                    i5,
                                    seq![B_RBRACK, B_COMMA] + jkey(key_parent()),
                                ) {
                                    None => None,
                                    Some(i6) => match parent_json_at(s, i6) {
                                        None => None,
                                        Some((parent, i7)) => match expect(
                                            s,
                                            i7,
                                            seq![B_COMMA] + jkey(key_boundary()) + seq![B_LBRACK],
                                        ) {
                                            None => None,
                                            Some(i8) => match boundary_at(s, i8) {
                                                None => None,
                                                Some((boundary, i9)) => if i9 + 2 == s.len() && s[i9]
                                                    == B_RBRACK && s[i9 + 1] == B_RBRACE {
                                                    Some(
                                                        EntityModel {
                                                            id,
                                                            label,
                                                            frequencies: fs,
                                                            parent,
                                                            boundary,
                                                        },
                                                    )
                                                } else {
                                                    None
                                                },
                                            },
                                        },
                                    },
                                },
                            },
                        },
                    },
                }
            },
        },
    }
}

/// The JSON parent field: `null` or a non-empty quoted reference.
pub open spec fn parent_json_at(s: Seq<u8>, i: int) -> Option<(Option<Seq<u8>>, int)> {
    if 0 <= i < s.len() && s[i] == B_QUOTE {
        match quoted_at(s, i) {
            None => None,
            Some((p, j)) => if p.len() == 0 {
                None
            } else {
                Some((Some(p), j))
            },
        }
    } else {
        match expect(s, i, lit_null()) {
            None => None,
            Some(j) => Some((None, j)),
        }
    }
}

/// The boundary list: empty when the closing bracket follows at once.
pub open spec fn boundary_at(s: Seq<u8>, i: int) -> Option<(Seq<Point>, int)> {
    if 0 <= i < s.len() && s[i] == B_RBRACK {
        Some((Seq::empty(), i))
    } else if 0 <= i <= s.len() {
        pts_at(s, i)
    } else {
        None
    }
}

/// The canonical TOML document: the exact line sequence of `toml_bytes`,
/// consuming the whole input.
pub open spec fn toml_at(s: Seq<u8>) -> Option<EntityModel> {
    match expect(s, 0, tkey(key_id())) {
        None => None,
        Some(i0) => match quoted_at(s, i0) {
            None => None,
            Some((id, i1)) => if !crate::model::safe_id(id) {
                None
            } else {
                match expect(s, i1, seq![B_NL] + tkey(key_label())) {
                    None => None,
                    Some(i2) => match quoted_at(s, i2) {
                        None => None,
                        Some((label, i3)) => match expect(
                            s,
                            i3,
                            seq![B_NL] + tkey(key_frequencies()) + seq![B_LBRACK],
                        ) {
                            None => None,
                            Some(i4) => match nums_at(s, i4) {
                                None => None,
                                Some((fs, i5)) => match expect(s, i5, seq![B_RBRACK, B_NL]) {
                                    None => None,
                                    Some(i6) => match parent_toml_at(s, i6) {
                                        None => None,
                                        Some((parent, i7)) => match expect(
                                            s,
                                            i7,
                                            tkey(key_boundary()) + seq![B_LBRACK],
                                        ) {
                                            None => None,
                                            Some(i8) => match boundary_at(s, i8) {
                                                None => None,
                                                Some((boundary, i9)) => if i9 + 2 == s.len() && s[i9]
                                                    == B_RBRACK && s[i9 + 1] == B_NL {
                                                    Some(
                                                        EntityModel {
                                                            id,
                                                            label,
                                                            frequencies: fs,
                                                            parent,
                                                            boundary,
                                                        },
                                                    )
                                                } else {
                                                    None
                                                },
                                            },
                                        },
                                    },
                                },
                            },
                        },
                    },
                }
            },
        },
    }
}

/// The optional TOML parent line, recognized by its leading key.
pub open spec fn parent_toml_at(s: Seq<u8>, i: int) -> Option<(Option<Seq<u8>>, int)> {
    if 0 <= i < s.len() && s[i] == 0x70 {
        match expect(s, i, tkey(key_parent())) {
            None => None,
            Some(j) => match quoted_at(s, j) {
                None => None,
                Some((p, k)) => if p.len() == 0 || !(k < s.len() && s[k] == B_NL) {
                    None
                } else {
                    Some((Some(p), k + 1))
                },
            },
        }
    } else {
        Some((None, i))
    }
}

/// The canonical document of the chosen encoding.
pub open spec fn parse_at(s: Seq<u8>, format: OutputFormat) -> Option<EntityModel> {
    match format {
        OutputFormat::Toml => toml_at(s),
        OutputFormat::Json => json_at(s),
    }
}

/// Exact reader of `expect` for a literal token.
pub(crate) fn expect_bytes(s: &[u8], i: usize, t: &[u8]) -> (r: Option<usize>)
    requires
        i <= s@.len(),
    ensures
        match r {
            Some(j) => expect(s@, i as int, t@) == Some(j as int) && j == i + t@.len() && j
                <= s@.len(),
            None => expect(s@, i as int, t@) is None,
        },
{
    if s.len() - i < t.len() {
        return None;
    }
    let n: usize = s.len();
    let mut k: usize = 0;
    while k < t.len()
        invariant
            0 <= k <= t@.len(),
            n == s@.len(),
            i + t@.len() <= s@.len(),
            forall|m: int| 0 <= m < k ==> s@[i + m] == t@[m],
        decreases t.len() - k,
    {
        if s[i + k] != t[k] {
            proof {
                assert(s@.subrange(i as int, i + t@.len()) != t@) by {
                    assert(s@.subrange(i as int, i + t@.len())[k as int] == s@[i + k]);
                }
            }
            return None;
        }
        k += 1;
    }
    proof {
        assert(s@.subrange(i as int, i + t@.len()) =~= t@);
    }
    Some(i + t.len())
}

/// Exact reader of `quoted_at`.
pub(crate) fn read_quoted(s: &[u8], i: usize) -> (r: Option<(Vec<u8>, usize)>)
    requires
        i <= s@.len(),
    ensures
        match r {
            Some((c, j)) => quoted_at(s@, i as int) == Some((c@, j as int)) && i < j <= s@.len(),
            None => quoted_at(s@, i as int) is None,
        },
{
    if !(i < s.len() && s[i] == B_QUOTE) {
        return None;
    }
    let mut j: usize = i + 1;
    let mut ok: bool = true;
    proof {
        assert(s@.subrange(i + 1, i + 1) =~= Seq::<u8>::empty());
    }
    while j < s.len() && s[j] != B_QUOTE
        invariant
            i + 1 <= j <= s@.len(),
            i < s@.len() && s@[i as int] == B_QUOTE,
            forall|k: int| i + 1 <= k < j ==> s@[k] != B_QUOTE,
            ok == plain_seq(s@.subrange(i + 1, j as int)),
        decreases s.len() - j,
    {
        let b = s[j];
        proof {
            assert(s@.subrange(i + 1, j + 1) =~= s@.subrange(i + 1, j as int).push(s@[j as int]));
            crate::model::lemma_plain_push(s@.subrange(i + 1, j as int), s@[j as int]);
        }
        if !(0x20 <= b && b <= 0x7e && b != 0x5c) {
            ok = false;
        }
        j += 1;
    }
    proof {
        crate::text::lemma_first_at(s@, i + 1, j as int, B_QUOTE);
    }
    if j == s.len() {
        return None;
    }
    if !ok {
        return None;
    }
    let c = vstd::slice::slice_to_vec(vstd::slice::slice_subrange(s, i + 1, j));
    Some((c, j + 1))
}

/// Exact reader of `nums_at`.
fn read_nums(s: &[u8], i: usize) -> (r: Option<(Vec<u64>, usize)>)
    requires
        i <= s@.len(),
    ensures
        match r {
            Some((vs, j)) => nums_at(s@, i as int) == Some((vs@, j as int)) && i < j <= s@.len(),
            None => nums_at(s@, i as int) is None,
        },
    decreases s@.len() - i,
{
    match read_number(s, i) {
        None => None,
        Some((v, j)) => {
            if j < s.len() && s[j] == B_COMMA {
                match read_nums(s, j + 1) {
                    None => None,
                    Some((vs, k)) => {
                        let mut vs = vs;
                        vs.insert(0, v);
                        proof {
                            let (tvs, tk) = nums_at(s@, (j + 1) as int)->Some_0;
                            assert(vs@ =~= seq![v] + tvs);
                        }
                        Some((vs, k))
                    },
                }
            } else {
                let mut vs: Vec<u64> = Vec::new();
                vs.push(v);
                proof {
                    assert(vs@ =~= seq![v]);
                }
                Some((vs, j))
            }
        },
    }
}

/// Exact reader of `point_at`.
fn read_point(s: &[u8], i: usize) -> (r: Option<(Point, usize)>)
    requires
        i <= s@.len(),
    ensures
        match r {
            Some((p, j)) => point_at(s@, i as int) == Some((p, j as int)) && i < j <= s@.len(),
            None => point_at(s@, i as int) is None,
        },
{
    if !(i < s.len() && s[i] == B_LBRACK) {
        return None;
    }
    match read_int(s, i + 1) {
        None => None,
        Some((lat, j)) => {
            if !(j < s.len() && s[j] == B_COMMA) {
                return None;
            }
            match read_int(s, j + 1) {
                None => None,
                Some((lon, k)) => {
                    if !(k < s.len() && s[k] == B_RBRACK) {
                        return None;
                    }
                    Some((Point { lat, lon }, k + 1))
                },
            }
        },
    }
}

/// Exact reader of `pts_at`.
fn read_pts(s: &[u8], i: usize) -> (r: Option<(Vec<Point>, usize)>)
    requires
        i <= s@.len(),
    ensures
        match r {
            Some((ps, j)) => pts_at(s@, i as int) == Some((ps@, j as int)) && i < j <= s@.len(),
            None => pts_at(s@, i as int) is None,
        },
    decreases s@.len() - i,
{
    match read_point(s, i) {
        None => None,
        Some((p, j)) => {
            if j < s.len() && s[j] == B_COMMA {
                match read_pts(s, j + 1) {
                    None => None,
                    Some((ps, k)) => {
                        let mut ps = ps;
                        ps.insert(0, p);
                        proof {
                            let (tps, tk) = pts_at(s@, (j + 1) as int)->Some_0;
                            assert(ps@ =~= seq![p] + tps);
                        }
                        Some((ps, k))
                    },
                }
            } else {
                let mut ps: Vec<Point> = Vec::new();
                ps.push(p);
                proof {
                    assert(ps@ =~= seq![p]);
                }
                Some((ps, j))
            }
        },
    }
}

/// Exact reader of `boundary_at`.
fn read_boundary(s: &[u8], i: usize) -> (r: Option<(Vec<Point>, usize)>)
    requires
        i <= s@.len(),
    ensures
        match r {
            Some((ps, j)) => boundary_at(s@, i as int) == Some((ps@, j as int)) && i <= j
                <= s@.len(),
            None => boundary_at(s@, i as int) is None,
        },
{
    if i < s.len() && s[i] == B_RBRACK {
        let ps: Vec<Point> = Vec::new();
        proof {
            assert(ps@ =~= Seq::<Point>::empty());
        }
        Some((ps, i))
    } else {
        read_pts(s, i)
    }
}

/// `{"id":` as bytes.
fn tok_json_open() -> (r: Vec<u8>)
    ensures
        r@ =~= seq![B_LBRACE] + jkey(key_id()),
{
    let mut v: Vec<u8> = Vec::new();
    v.push(B_LBRACE);
    let k = bytes_key_id();
    push_jkey(&mut v, &k);
    v
}

/// `,"label":` as bytes.
fn tok_json_label() -> (r: Vec<u8>)
    ensures
        r@ =~= seq![B_COMMA] + jkey(key_label()),
{
    let mut v: Vec<u8> = Vec::new();
    v.push(B_COMMA);
    let k = bytes_key_label();
    push_jkey(&mut v, &k);
    v
}

/// `,"frequencies":[` as bytes.
fn tok_json_frequencies() -> (r: Vec<u8>)
    ensures
        r@ =~= seq![B_COMMA] + jkey(key_frequencies()) + seq![B_LBRACK],
{
    let mut v: Vec<u8> = Vec::new();
    v.push(B_COMMA);
    let k = bytes_key_frequencies();
    push_jkey(&mut v, &k);
    v.push(B_LBRACK);
    v
}

/// `],"parent":` as bytes.
fn tok_json_parent() -> (r: Vec<u8>)
    ensures
        r@ =~= seq![B_RBRACK, B_COMMA] + jkey(key_parent()),
{
    let mut v: Vec<u8> = Vec::new();
    v.push(B_RBRACK);
    v.push(B_COMMA);
    let k = bytes_key_parent();
    push_jkey(&mut v, &k);
    v
}

/// `,"boundary":[` as bytes.
fn tok_json_boundary() -> (r: Vec<u8>)
    ensures
        r@ =~= seq![B_COMMA] + jkey(key_boundary()) + seq![B_LBRACK],
{
    let mut v: Vec<u8> = Vec::new();
    v.push(B_COMMA);
    let k = bytes_key_boundary();
    push_jkey(&mut v, &k);
    v.push(B_LBRACK);
    v
}

/// `id = ` as bytes.
fn tok_toml_id() -> (r: Vec<u8>)
    ensures
        r@ =~= tkey(key_id()),
{
    let mut v: Vec<u8> = Vec::new();
    let k = bytes_key_id();
    push_tkey(&mut v, &k);
    v
}

/// A newline followed by `label = ` as bytes.
fn tok_toml_label() -> (r: Vec<u8>)
    ensures
        r@ =~= seq![B_NL] + tkey(key_label()),
{
    let mut v: Vec<u8> = Vec::new();
    v.push(B_NL);
    let k = bytes_key_label();
    push_tkey(&mut v, &k);
    v
}

/// A newline followed by `frequencies = [` as bytes.
fn tok_toml_frequencies() -> (r: Vec<u8>)
    ensures
        r@ =~= seq![B_NL] + tkey(key_frequencies()) + seq![B_LBRACK],
{
    let mut v: Vec<u8> = Vec::new();
    v.push(B_NL);
    let k = bytes_key_frequencies();
    push_tkey(&mut v, &k);
    v.push(B_LBRACK);
    v
}

/// `]` followed by a newline, as bytes.
fn tok_toml_end_list() -> (r: Vec<u8>)
    ensures
        r@ =~= seq![B_RBRACK, B_NL],
{
    let mut v: Vec<u8> = Vec::new();
    v.push(B_RBRACK);
    v.push(B_NL);
    v
}

/// `parent = ` as bytes.
fn tok_toml_parent() -> (r: Vec<u8>)
    ensures
        r@ =~= tkey(key_parent()),
{
    let mut v: Vec<u8> = Vec::new();
    let k = bytes_key_parent();
    push_tkey(&mut v, &k);
    v
}

/// `boundary = [` as bytes.
fn tok_toml_boundary() -> (r: Vec<u8>)
    ensures
        r@ =~= tkey(key_boundary()) + seq![B_LBRACK],
{
    let mut v: Vec<u8> = Vec::new();
    let k = bytes_key_boundary();
    push_tkey(&mut v, &k);
    v.push(B_LBRACK);
    v
}

/// Exact reader of the canonical JSON document.
fn parse_json_doc(s: &[u8]) -> (r: Option<Entity>)
    ensures
        match json_at(s@) {
            Some(em) => r matches Some(e) && e@ == em,
            None => r is None,
        },
{
    let t0 = tok_json_open();
    let i0 = match expect_bytes(s, 0, t0.as_slice()) {
        Some(i) => i,
        None => {
            return None;
        },
    };
    let (id, i1) = match read_quoted(s, i0) {
        Some(x) => x,
        None => {
            return None;
        },
    };
    if !crate::model::is_safe_id(id.as_slice()) {
        return None;
    }
    let t1 = tok_json_label();
    let i2 = match expect_bytes(s, i1, t1.as_slice()) {
        Some(i) => i,
        None => {
            return None;
        },
    };
    let (label, i3) = match read_quoted(s, i2) {
        Some(x) => x,
        None => {
            return None;
        },
    };
    let t2 = tok_json_frequencies();
    let i4 = match expect_bytes(s, i3, t2.as_slice()) {
        Some(i) => i,
        None => {
            return None;
        },
    };
    let (fs, i5) = match read_nums(s, i4) {
        Some(x) => x,
        None => {
            return None;
        },
    };
    let t3 = tok_json_parent();
    let i6 = match expect_bytes(s, i5, t3.as_slice()) {
        Some(i) => i,
        None => {
            return None;
        },
    };
    let (parent, i7): (Option<Vec<u8>>, usize) = if i6 < s.len() && s[i6] == B_QUOTE {
        match read_quoted(s, i6) {
            Some((p, j)) => {
                if p.len() == 0 {
                    return None;
                }
                (Some(p), j)
            },
            None => {
                return None;
            },
        }
    } else {
        let null = bytes_null();
        match expect_bytes(s, i6, null.as_slice()) {
            Some(j) => (None, j),
            None => {
                return None;
            },
        }
    };
    let t4 = tok_json_boundary();
    let i8 = match expect_bytes(s, i7, t4.as_slice()) {
        Some(i) => i,
        None => {
            return None;
        },
    };
    let (boundary, i9) = match read_boundary(s, i8) {
        Some(x) => x,
        None => {
            return None;
        },
    };
    if !(s.len() >= 2 && i9 == s.len() - 2 && s[i9] == B_RBRACK && s[i9 + 1] == B_RBRACE) {
        return None;
    }
    Some(Entity { id, label, frequencies: fs, parent, boundary })
}

/// Exact reader of the canonical TOML document.
fn parse_toml_doc(s: &[u8]) -> (r: Option<Entity>)
    ensures
        match toml_at(s@) {
            Some(em) => r matches Some(e) && e@ == em,
            None => r is None,
        },
{
    let t0 = tok_toml_id();
    let i0 = match expect_bytes(s, 0, t0.as_slice()) {
        Some(i) => i,
        None => {
            return None;
        },
    };
    let (id, i1) = match read_quoted(s, i0) {
        Some(x) => x,
        None => {
            return None;
        },
    };
    if !crate::model::is_safe_id(id.as_slice()) {
        return None;
    }
    let t1 = tok_toml_label();
    let i2 = match expect_bytes(s, i1, t1.as_slice()) {
        Some(i) => i,
        None => {
            return None;
        },
    };
    let (label, i3) = match read_quoted(s, i2) {
        Some(x) => x,
        None => {
            return None;
        },
    };
    let t2 = tok_toml_frequencies();
    let i4 = match expect_bytes(s, i3, t2.as_slice()) {
        Some(i) => i,
        None => {
            return None;
        },
    };
    let (fs, i5) = match read_nums(s, i4) {
        Some(x) => x,
        None => {
            return None;
        },
    };
    let t3 = tok_toml_end_list();
    let i6 = match expect_bytes(s, i5, t3.as_slice()) {
        Some(i) => i,
        None => {
            return None;
        },
    };
    let (parent, i7): (Option<Vec<u8>>, usize) = if i6 < s.len() && s[i6] == 0x70 {
        let tp = tok_toml_parent();
        let j0 = match expect_bytes(s, i6, tp.as_slice()) {
            Some(j) => j,
            None => {
                return None;
            },
        };
        match read_quoted(s, j0) {
            Some((p, k)) => {
                if p.len() == 0 || !(k < s.len() && s[k] == B_NL) {
                    return None;
                }
                (Some(p), k + 1)
            },
            None => {
                return None;
            },
        }
    } else {
        (None, i6)
    };
    let t4 = tok_toml_boundary();
    let i8 = match expect_bytes(s, i7, t4.as_slice()) {
        Some(i) => i,
        None => {
            return None;
        },
    };
    let (boundary, i9) = match read_boundary(s, i8) {
        Some(x) => x,
        None => {
            return None;
        },
    };
    if !(s.len() >= 2 && i9 == s.len() - 2 && s[i9] == B_RBRACK && s[i9 + 1] == B_NL) {
        return None;
    }
    Some(Entity { id, label, frequencies: fs, parent, boundary })
}

/// Parse one entity document of the chosen encoding. The contract is exact:
/// the result is the canonical reading of the input, and a malformed input
/// is a format error.
pub fn parse(s: &[u8], format: OutputFormat) -> (r: Result<Entity, ImportError>)
    ensures
        match parse_at(s@, format) {
            Some(em) => (r matches Ok(e) && e@ == em),
            None => r == Err::<Entity, ImportError>(ImportError::Format),
        },
{
    let parsed = match format {
        OutputFormat::Json => parse_json_doc(s),
        OutputFormat::Toml => parse_toml_doc(s),
    };
    match parsed {
        Some(e) => Ok(e),
        None => Err(ImportError::Format),
    }
}

/// A quoted plain byte string is read back from its rendering.
proof fn lemma_quoted_round_trip(s: Seq<u8>, o: int, c: Seq<u8>)
    requires
        0 <= o,
        plain_seq(c),
        o + c.len() + 2 <= s.len(),
        forall|k: int| 0 <= k < c.len() + 2 ==> s[o + k] == quoted(c)[k],
    ensures
        quoted_at(s, o) == Some((c, o + c.len() + 2)),
{
    assert(s[o] == quoted(c)[0]);
    assert forall|k: int| o + 1 <= k < o + 1 + c.len() implies s[k] != B_QUOTE by {
        assert(s[k] == quoted(c)[k - o]);
        assert(quoted(c)[k - o] == c[k - o - 1]);
        assert(crate::model::plain_byte(c[k - o - 1]));
    }
    assert(s[o + 1 + c.len()] == quoted(c)[1 + c.len() as int]);
    assert(quoted(c)[1 + c.len() as int] == B_QUOTE);
    crate::text::lemma_first_at(s, o + 1, o + 1 + c.len() as int, B_QUOTE);
    assert(s.subrange(o + 1, o + 1 + c.len() as int) =~= c) by {
        assert forall|k: int| 0 <= k < c.len() implies s[o + 1 + k] == c[k] by {
            assert(s[o + (k + 1)] == quoted(c)[k + 1]);
            assert(quoted(c)[k + 1] == c[k]);
        }
    }
}

/// A rendered number list is read back from its rendering.
proof fn lemma_nums_round_trip(s: Seq<u8>, o: int, fs: Seq<u64>)
    requires
        0 <= o,
        fs.len() >= 1,
        forall|i: int| 0 <= i < fs.len() ==> #[trigger] fs[i] < 1_000_000_000,
        o + num_list(fs).len() < s.len(),
        forall|k: int| 0 <= k < num_list(fs).len() ==> s[o + k] == num_list(fs)[k],
        !is_digit(s[o + num_list(fs).len()]),
        s[o + num_list(fs).len()] != B_COMMA,
    ensures
        nums_at(s, o) == Some((fs, o + num_list(fs).len())),
    decreases fs.len(),
{
    let w = dec_str(fs[0] as nat);
    crate::text::lemma_dec_str(fs[0] as nat);
    if fs.len() == 1 {
        assert(num_list(fs) == w);
        assert(s.subrange(o, o + w.len() as int) =~= w);
        lemma_number_round_trip(s, o, fs[0] as nat);
        assert(s[o + w.len()] != B_COMMA);
        assert(seq![fs[0]] =~= fs);
    } else {
        let rest = num_list(fs.drop_first());
        assert(num_list(fs) == w + seq![B_COMMA] + rest);
        assert(s.subrange(o, o + w.len() as int) =~= w) by {
            assert forall|k: int| 0 <= k < w.len() implies s[o + k] == w[k] by {
                assert(s[o + k] == num_list(fs)[k]);
                assert(num_list(fs)[k] == w[k]);
            }
        }
        assert(s[o + w.len()] == num_list(fs)[w.len() as int]);
        assert(num_list(fs)[w.len() as int] == B_COMMA);
        assert(!is_digit(B_COMMA));
        lemma_number_round_trip(s, o, fs[0] as nat);
        let o2 = o + w.len() + 1;
        assert forall|i: int| 0 <= i < fs.drop_first().len() implies #[trigger] fs.drop_first()[i]
            < 1_000_000_000 by {
            assert(fs.drop_first()[i] == fs[i + 1]);
        }
        assert forall|k: int| 0 <= k < rest.len() implies s[o2 + k] == rest[k] by {
            assert(s[o2 + k] == num_list(fs)[w.len() + 1 + k]);
            assert(num_list(fs)[w.len() + 1 + k] == rest[k]);
        }
        lemma_nums_round_trip(s, o2, fs.drop_first());
        assert(seq![fs[0]] + fs.drop_first() =~= fs);
    }
}

/// A rendered point is read back from its rendering.
proof fn lemma_point_round_trip(s: Seq<u8>, o: int, p: Point)
    requires
        0 <= o,
        -999_999_999 <= p.lat <= 999_999_999,
        -999_999_999 <= p.lon <= 999_999_999,
        o + point_bytes(p).len() <= s.len(),
        forall|k: int| 0 <= k < point_bytes(p).len() ==> s[o + k] == point_bytes(p)[k],
    ensures
        point_at(s, o) == Some((p, o + point_bytes(p).len())),
{
    let wa = int_str(p.lat as int);
    let wb = int_str(p.lon as int);
    let pb = point_bytes(p);
    assert(pb == seq![B_LBRACK] + wa + seq![B_COMMA] + wb + seq![B_RBRACK]);
    assert(s[o] == pb[0]);
    assert(pb[0] == B_LBRACK);
    let ja = o + 1 + wa.len();
    assert(s.subrange(o + 1, ja as int) =~= wa) by {
        assert forall|k: int| 0 <= k < wa.len() implies s[o + 1 + k] == wa[k] by {
            assert(s[o + 1 + k] == pb[1 + k]);
            assert(pb[1 + k] == wa[k]);
        }
    }
    assert(s[ja] == pb[1 + wa.len() as int]);
    assert(pb[1 + wa.len() as int] == B_COMMA);
    assert(!is_digit(B_COMMA));
    crate::text::lemma_int_round_trip(s, o + 1, p.lat as int);
    let jb = ja + 1 + wb.len();
    assert(s.subrange(ja + 1, jb as int) =~= wb) by {
        assert forall|k: int| 0 <= k < wb.len() implies s[ja + 1 + k] == wb[k] by {
            assert(s[ja + 1 + k] == pb[1 + wa.len() + 1 + k]);
            assert(pb[1 + wa.len() + 1 + k] == wb[k]);
        }
    }
    assert(s[jb] == pb[pb.len() as int - 1]);
    assert(pb[pb.len() as int - 1] == B_RBRACK);
    assert(!is_digit(B_RBRACK));
    crate::text::lemma_int_round_trip(s, ja + 1, p.lon as int);
}

/// A rendered point list is read back from its rendering.
proof fn lemma_pts_round_trip(s: Seq<u8>, o: int, ps: Seq<Point>)
    requires
        0 <= o,
        ps.len() >= 1,
        forall|i: int|
            0 <= i < ps.len() ==> -999_999_999 <= (#[trigger] ps[i]).lat <= 999_999_999
                && -999_999_999 <= ps[i].lon <= 999_999_999,
        o + point_list(ps).len() < s.len(),
        forall|k: int| 0 <= k < point_list(ps).len() ==> s[o + k] == point_list(ps)[k],
        s[o + point_list(ps).len()] != B_COMMA,
    ensures
        pts_at(s, o) == Some((ps, o + point_list(ps).len())),
    decreases ps.len(),
{
    let pb = point_bytes(ps[0]);
    if ps.len() == 1 {
        assert(point_list(ps) == pb);
        lemma_point_round_trip(s, o, ps[0]);
        assert(s[o + pb.len()] != B_COMMA);
        assert(seq![ps[0]] =~= ps);
    } else {
        let rest = point_list(ps.drop_first());
        assert(point_list(ps) == pb + seq![B_COMMA] + rest);
        assert forall|k: int| 0 <= k < pb.len() implies s[o + k] == pb[k] by {
            assert(s[o + k] == point_list(ps)[k]);
            assert(point_list(ps)[k] == pb[k]);
        }
        lemma_point_round_trip(s, o, ps[0]);
        assert(s[o + pb.len()] == point_list(ps)[pb.len() as int]);
        assert(point_list(ps)[pb.len() as int] == B_COMMA);
        let o2 = o + pb.len() + 1;
        assert forall|i: int|
            0 <= i < ps.drop_first().len() implies -999_999_999 <= (
        #[trigger] ps.drop_first()[i]).lat <= 999_999_999 && -999_999_999
            <= ps.drop_first()[i].lon <= 999_999_999 by {
            assert(ps.drop_first()[i] == ps[i + 1]);
        }
        assert forall|k: int| 0 <= k < rest.len() implies s[o2 + k] == rest[k] by {
            assert(s[o2 + k] == point_list(ps)[pb.len() + 1 + k]);
            assert(point_list(ps)[pb.len() + 1 + k] == rest[k]);
        }
        lemma_pts_round_trip(s, o2, ps.drop_first());
        assert(seq![ps[0]] + ps.drop_first() =~= ps);
    }
}

/// Indexing facts for an eleven-piece concatenation.
#[verifier::rlimit(100)]
#[verifier::spinoff_prover]
proof fn lemma_chain11(s: Seq<u8>, t0: Seq<u8>, q1: Seq<u8>, t1: Seq<u8>, q2: Seq<u8>, t2: Seq<u8>, nl: Seq<u8>, t3: Seq<u8>, pj: Seq<u8>, t4: Seq<u8>, pl: Seq<u8>, t5: Seq<u8>)
    requires
        s == t0 + q1 + t1 + q2 + t2 + nl + t3 + pj + t4 + pl + t5,
    ensures
        s.len() == t0.len() + q1.len() + t1.len() + q2.len() + t2.len() + nl.len() + t3.len() + pj.len() + t4.len() + pl.len() + t5.len(),
        forall|k: int| 0 <= k < t0.len() ==> s[k] == t0[k],
        forall|k: int| 0 <= k < q1.len() ==> s[t0.len() + k] == q1[k],
        forall|k: int| 0 <= k < t1.len() ==> s[t0.len() + q1.len() + k] == t1[k],
        forall|k: int| 0 <= k < q2.len() ==> s[t0.len() + q1.len() + t1.len() + k] == q2[k],
        forall|k: int| 0 <= k < t2.len() ==> s[t0.len() + q1.len() + t1.len() + q2.len() + k] == t2[k],
        forall|k: int| 0 <= k < nl.len() ==> s[t0.len() + q1.len() + t1.len() + q2.len() + t2.len() + k] == nl[k],
        forall|k: int| 0 <= k < t3.len() ==> s[t0.len() + q1.len() + t1.len() + q2.len() + t2.len() + nl.len() + k] == t3[k],
        forall|k: int| 0 <= k < pj.len() ==> s[t0.len() + q1.len() + t1.len() + q2.len() + t2.len() + nl.len() + t3.len() + k] == pj[k],
        forall|k: int| 0 <= k < t4.len() ==> s[t0.len() + q1.len() + t1.len() + q2.len() + t2.len() + nl.len() + t3.len() + pj.len() + k] == t4[k],
        forall|k: int| 0 <= k < pl.len() ==> s[t0.len() + q1.len() + t1.len() + q2.len() + t2.len() + nl.len() + t3.len() + pj.len() + t4.len() + k] == pl[k],
        forall|k: int| 0 <= k < t5.len() ==> s[t0.len() + q1.len() + t1.len() + q2.len() + t2.len() + nl.len() + t3.len() + pj.len() + t4.len() + pl.len() + k] == t5[k],
{
    let c1 = t0;
    let c2 = c1 + q1;
    let c3 = c2 + t1;
    let c4 = c3 + q2;
    let c5 = c4 + t2;
    let c6 = c5 + nl;
    let c7 = c6 + t3;
    let c8 = c7 + pj;
    let c9 = c8 + t4;
    let c10 = c9 + pl;
    let c11 = c10 + t5;
    assert(s == c11);
    assert(forall|i: int| 0 <= i < c10.len() ==> s[i] == c10[i]);
    assert(forall|i: int| 0 <= i < c9.len() ==> s[i] == c9[i]);
    assert(forall|i: int| 0 <= i < c8.len() ==> s[i] == c8[i]);
    assert(forall|i: int| 0 <= i < c7.len() ==> s[i] == c7[i]);
    assert(forall|i: int| 0 <= i < c6.len() ==> s[i] == c6[i]);
    assert(forall|i: int| 0 <= i < c5.len() ==> s[i] == c5[i]);
    assert(forall|i: int| 0 <= i < c4.len() ==> s[i] == c4[i]);
    assert(forall|i: int| 0 <= i < c3.len() ==> s[i] == c3[i]);
    assert(forall|i: int| 0 <= i < c2.len() ==> s[i] == c2[i]);
    assert(forall|i: int| 0 <= i < c1.len() ==> s[i] == c1[i]);
    assert(forall|k: int| 0 <= k < t0.len() ==> s[k] == t0[k]);
    assert(forall|k: int| 0 <= k < q1.len() ==> s[t0.len() + k] == q1[k]);
    assert(forall|k: int| 0 <= k < t1.len() ==> s[t0.len() + q1.len() + k] == t1[k]);
    assert(forall|k: int| 0 <= k < q2.len() ==> s[t0.len() + q1.len() + t1.len() + k] == q2[k]);
    assert(forall|k: int| 0 <= k < t2.len() ==> s[t0.len() + q1.len() + t1.len() + q2.len() + k] == t2[k]);
    assert(forall|k: int| 0 <= k < nl.len() ==> s[t0.len() + q1.len() + t1.len() + q2.len() + t2.len() + k] == nl[k]);
    assert(forall|k: int| 0 <= k < t3.len() ==> s[t0.len() + q1.len() + t1.len() + q2.len() + t2.len() + nl.len() + k] == t3[k]);
    assert(forall|k: int| 0 <= k < pj.len() ==> s[t0.len() + q1.len() + t1.len() + q2.len() + t2.len() + nl.len() + t3.len() + k] == pj[k]);
    assert(forall|k: int| 0 <= k < t4.len() ==> s[t0.len() + q1.len() + t1.len() + q2.len() + t2.len() + nl.len() + t3.len() + pj.len() + k] == t4[k]);
    assert(forall|k: int| 0 <= k < pl.len() ==> s[t0.len() + q1.len() + t1.len() + q2.len() + t2.len() + nl.len() + t3.len() + pj.len() + t4.len() + k] == pl[k]);
    assert(forall|k: int| 0 <= k < t5.len() ==> s[t0.len() + q1.len() + t1.len() + q2.len() + t2.len() + nl.len() + t3.len() + pj.len() + t4.len() + pl.len() + k] == t5[k]);
}

/// The JSON parent field is read back from its rendering.
proof fn lemma_parent_json_round_trip(s: Seq<u8>, o: int, parent: Option<Seq<u8>>)
    requires
        0 <= o,
        parent matches Some(p) ==> p.len() > 0 && plain_seq(p),
        o + parent_json_bytes(parent).len() < s.len(),
        forall|k: int|
            0 <= k < parent_json_bytes(parent).len() ==> s[o + k] == parent_json_bytes(parent)[k],
    ensures
        parent_json_at(s, o) == Some((parent, o + parent_json_bytes(parent).len())),
{
    let pj = parent_json_bytes(parent);
    match parent {
        Some(p) => {
            assert(s[o] == pj[0]);
            assert(pj[0] == B_QUOTE);
            lemma_quoted_round_trip(s, o, p);
        },
        None => {
            assert(s[o] == pj[0]);
            assert(pj[0] == 0x6e);
            assert(s.subrange(o, o + pj.len() as int) =~= lit_null()) by {
                assert forall|k: int| 0 <= k < pj.len() implies s[o + k] == pj[k] by {}
            }
            assert(expect(s, o, lit_null()) == Some(o + pj.len() as int));
        },
    }
}

/// Reading back the canonical JSON document of a well-formed entity yields
/// the entity.
#[verifier::rlimit(100)]
#[verifier::spinoff_prover]
proof fn lemma_json_round_trip(em: EntityModel)
    requires
        crate::model::wf_entity(em),
    ensures
        json_at(json_bytes(em)) == Some(em),
{
    let s = json_bytes(em);
    let t0 = seq![B_LBRACE] + jkey(key_id());
    let q1 = quoted(em.id);
    let t1 = seq![B_COMMA] + jkey(key_label());
    let q2 = quoted(em.label);
    let t2 = seq![B_COMMA] + jkey(key_frequencies()) + seq![B_LBRACK];
    let nl = num_list(em.frequencies);
    let t3 = seq![B_RBRACK, B_COMMA] + jkey(key_parent());
    let pj = parent_json_bytes(em.parent);
    let t4 = seq![B_COMMA] + jkey(key_boundary()) + seq![B_LBRACK];
    let pl = point_list(em.boundary);
    let t5 = seq![B_RBRACK, B_RBRACE];
    let o1 = t0.len() as int;
    let o2 = o1 + q1.len();
    let o3 = o2 + t1.len();
    let o4 = o3 + q2.len();
    let o5 = o4 + t2.len();
    let o6 = o5 + nl.len();
    let o7 = o6 + t3.len();
    let o8 = o7 + pj.len();
    let o9 = o8 + t4.len();
    let o10 = o9 + pl.len();
    assert(s == t0 + q1 + t1 + q2 + t2 + nl + t3 + pj + t4 + pl + t5);
    lemma_chain11(s, t0, q1, t1, q2, t2, nl, t3, pj, t4, pl, t5);
    assert(s.len() == o10 + 2);
    assert(s.subrange(0, o1) =~= t0);
    assert(expect(s, 0, t0) == Some(o1));
    lemma_quoted_round_trip(s, o1, em.id);
    assert(s.subrange(o2, o3) =~= t1);
    assert(expect(s, o2, t1) == Some(o3));
    lemma_quoted_round_trip(s, o3, em.label);
    assert(s.subrange(o4, o5) =~= t2);
    assert(expect(s, o4, t2) == Some(o5));
    assert(s[o6] == t3[0]);
    lemma_nums_round_trip(s, o5, em.frequencies);
    assert(s.subrange(o6, o7) =~= t3);
    assert(expect(s, o6, t3) == Some(o7));
    lemma_parent_json_round_trip(s, o7, em.parent);
    assert(parent_json_at(s, o7) == Some((em.parent, o8)));
    assert(s.subrange(o8, o9) =~= t4);
    assert(expect(s, o8, t4) == Some(o9));
    assert(s[o10] == t5[0]);
    assert(t5[0] == B_RBRACK);
    assert(s[o10 + 1] == t5[1]);
    assert(t5[1] == B_RBRACE);
    if em.boundary.len() == 0 {
        assert(pl =~= Seq::<u8>::empty());
        assert(s[o9] == B_RBRACK);
        assert(boundary_at(s, o9) == Some((Seq::<Point>::empty(), o9)));
        assert(Seq::<Point>::empty() =~= em.boundary);
    } else {
        assert(s[o9] == pl[0]);
        assert(pl[0] == point_bytes(em.boundary[0])[0]);
        assert(point_bytes(em.boundary[0])[0] == B_LBRACK);
        lemma_pts_round_trip(s, o9, em.boundary);
        assert(boundary_at(s, o9) == Some((em.boundary, o10)));
    }
    assert(o10 + 2 == s.len());
}

/// The optional TOML parent line is read back from its rendering.
proof fn lemma_parent_toml_round_trip(s: Seq<u8>, o: int, parent: Option<Seq<u8>>)
    requires
        0 <= o,
        parent matches Some(p) ==> p.len() > 0 && plain_seq(p),
        o + parent_toml_bytes(parent).len() < s.len(),
        forall|k: int|
            0 <= k < parent_toml_bytes(parent).len() ==> s[o + k] == parent_toml_bytes(parent)[k],
        parent is None ==> s[o] != 0x70,
    ensures
        parent_toml_at(s, o) == Some((parent, o + parent_toml_bytes(parent).len())),
{
    let pt = parent_toml_bytes(parent);
    match parent {
        Some(p) => {
            let tkp = tkey(key_parent());
            assert(s[o] == pt[0]);
            assert(pt[0] == tkp[0]);
            assert(tkp[0] == key_parent()[0]);
            assert(key_parent()[0] == 0x70);
            assert(s.subrange(o, o + tkp.len() as int) =~= tkp) by {
                assert forall|k: int| 0 <= k < tkp.len() implies s[o + k] == tkp[k] by {
                    assert(s[o + k] == pt[k]);
                    assert(pt[k] == tkp[k]);
                }
            }
            assert(expect(s, o, tkp) == Some(o + tkp.len() as int));
            let oq = o + tkp.len() as int;
            assert forall|k: int| 0 <= k < p.len() + 2 implies s[oq + k] == quoted(p)[k] by {
                assert(s[o + (tkp.len() + k)] == pt[tkp.len() + k]);
                assert(pt[tkp.len() + k] == quoted(p)[k]);
            }
            lemma_quoted_round_trip(s, oq, p);
            let onl = oq + p.len() + 2;
            assert(s[onl] == pt[pt.len() as int - 1]);
            assert(pt[pt.len() as int - 1] == B_NL);
        },
        None => {
        },
    }
}

/// Reading back the canonical TOML document of a well-formed entity yields
/// the entity.
#[verifier::rlimit(100)]
#[verifier::spinoff_prover]
proof fn lemma_toml_round_trip(em: EntityModel)
    requires
        crate::model::wf_entity(em),
    ensures
        toml_at(toml_bytes(em)) == Some(em),
{
    let s = toml_bytes(em);
    let t0 = tkey(key_id());
    let q1 = quoted(em.id);
    let t1 = seq![B_NL] + tkey(key_label());
    let q2 = quoted(em.label);
    let t2 = seq![B_NL] + tkey(key_frequencies()) + seq![B_LBRACK];
    let nl = num_list(em.frequencies);
    let t3 = seq![B_RBRACK, B_NL];
    let pt = parent_toml_bytes(em.parent);
    let t4 = tkey(key_boundary()) + seq![B_LBRACK];
    let pl = point_list(em.boundary);
    let t5 = seq![B_RBRACK, B_NL];
    let o1 = t0.len() as int;
    let o2 = o1 + q1.len();
    let o3 = o2 + t1.len();
    let o4 = o3 + q2.len();
    let o5 = o4 + t2.len();
    let o6 = o5 + nl.len();
    let o7 = o6 + t3.len();
    let o8 = o7 + pt.len();
    let o9 = o8 + t4.len();
    let o10 = o9 + pl.len();
    assert(s == t0 + q1 + t1 + q2 + t2 + nl + t3 + pt + t4 + pl + t5);
    lemma_chain11(s, t0, q1, t1, q2, t2, nl, t3, pt, t4, pl, t5);
    assert(s.len() == o10 + 2);
    assert(s.subrange(0, o1) =~= t0);
    assert(expect(s, 0, t0) == Some(o1));
    lemma_quoted_round_trip(s, o1, em.id);
    assert(s.subrange(o2, o3) =~= t1);
    assert(expect(s, o2, t1) == Some(o3));
    lemma_quoted_round_trip(s, o3, em.label);
    assert(s.subrange(o4, o5) =~= t2);
    assert(expect(s, o4, t2) == Some(o5));
    assert(s[o6] == t3[0]);
    lemma_nums_round_trip(s, o5, em.frequencies);
    assert(s.subrange(o6, o7) =~= t3);
    assert(expect(s, o6, t3) == Some(o7));
    if em.parent is None {
        assert(pt.len() == 0);
        assert(s[o7] == t4[0]);
        assert(t4[0] == key_boundary()[0]);
        assert(key_boundary()[0] == 0x62);
    }
    lemma_parent_toml_round_trip(s, o7, em.parent);
    assert(parent_toml_at(s, o7) == Some((em.parent, o8)));
    assert(s.subrange(o8, o9) =~= t4);
    assert(expect(s, o8, t4) == Some(o9));
    assert(s[o10] == t5[0]);
    assert(t5[0] == B_RBRACK);
    assert(s[o10 + 1] == t5[1]);
    assert(t5[1] == B_NL);
    if em.boundary.len() == 0 {
        assert(pl =~= Seq::<u8>::empty());
        assert(s[o9] == B_RBRACK);
        assert(boundary_at(s, o9) == Some((Seq::<Point>::empty(), o9)));
        assert(Seq::<Point>::empty() =~= em.boundary);
    } else {
        assert(s[o9] == pl[0]);
        assert(pl[0] == point_bytes(em.boundary[0])[0]);
        assert(point_bytes(em.boundary[0])[0] == B_LBRACK);
        lemma_pts_round_trip(s, o9, em.boundary);
        assert(boundary_at(s, o9) == Some((em.boundary, o10)));
    }
    assert(o10 + 2 == s.len());
}

/// Law: serialization is lossless for both encodings. Reading back the
/// canonical document of any well-formed entity yields exactly that entity.
pub proof fn lemma_round_trip(em: EntityModel, format: OutputFormat)
    requires
        crate::model::wf_entity(em),
    ensures
        parse_at(entity_bytes(em, format), format) == Some(em),
{
    match format {
        OutputFormat::Json => lemma_json_round_trip(em),
        OutputFormat::Toml => lemma_toml_round_trip(em),
    }
}

} // verus!
