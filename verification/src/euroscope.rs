//! The legacy sectorfile parser: a line-oriented sectioned text format.
//! An explicit state (the current section) is carried across lines; position
//! lines inside the known section become source records, other lines are
//! skipped — with a diagnostic inside a known section, silently elsewhere.
//! Coordinates are sexagesimal with a hemisphere letter and are converted to
//! the same microdegree representation the rest of the model uses.

use vstd::prelude::*;

use crate::codec::{quoted_at, B_LBRACK, B_NL, B_RBRACK};
use crate::model::{Point, LAT_RANGE, LON_RANGE};
use crate::text::{first_at, is_digit, lemma_first_at, val_digits, B_COMMA};

verus! {

pub const B_CR: u8 = 0x0d;

pub const B_DOT: u8 = 0x2e;

/// One raw parsed unit from the sectorfile, before normalization, tagged
/// with its source line for diagnostics.
#[derive(Debug)]
pub struct SourceRecord {
    pub id: Vec<u8>,
    pub label: Vec<u8>,
    /// Frequency in kilohertz.
    pub freq: u64,
    pub points: Vec<Point>,
    /// One-based source line number.
    pub line: u64,
}

/// Mathematical model of a `SourceRecord`.
pub ghost struct RecordModel {
    pub id: Seq<u8>,
    pub label: Seq<u8>,
    pub freq: u64,
    pub points: Seq<Point>,
    pub line: u64,
}

impl View for SourceRecord {
    type V = RecordModel;

    open spec fn view(&self) -> RecordModel {
        RecordModel {
            id: self.id@,
            label: self.label@,
            freq: self.freq,
            points: self.points@,
            line: self.line,
        }
    }
}

/// The models of a sequence of records.
pub open spec fn record_models(s: Seq<SourceRecord>) -> Seq<RecordModel> {
    s.map_values(|r: SourceRecord| r@)
}

/// A run of exactly `w` digit bytes at `i`, read as a value.
pub open spec fn fixed_at(s: Seq<u8>, i: int, w: int) -> Option<int> {
    if 0 <= i && 0 <= w && i + w <= s.len() && (forall|k: int|
        i <= k < i + w ==> is_digit(#[trigger] s[k])) {
        Some(val_digits(s.subrange(i, i + w)))
    } else {
        None
    }
}

/// One sexagesimal coordinate token: a hemisphere letter, then
/// `DDD.MM.SS.mmm`, fourteen bytes in all, converted to microdegrees and
/// refused outside the valid range of its axis.
pub open spec fn dms_at(s: Seq<u8>, i: int, lat: bool) -> Option<int> {
    if !(0 <= i && i + 14 <= s.len()) {
        None
    } else {
        let h = s[i];
        let neg = h == 0x53 || h == 0x57;
        let ok_h = if lat {
            h == 0x4e || h == 0x53
        } else {
            h == 0x45 || h == 0x57
        };
        if !ok_h || s[i + 4] != B_DOT || s[i + 7] != B_DOT || s[i + 10] != B_DOT {
            None
        } else {
            match (fixed_at(s, i + 1, 3), fixed_at(s, i + 5, 2), fixed_at(s, i + 8, 2), fixed_at(
                s,
                i + 11,
                3,
            )) {
                (Some(d), Some(m), Some(sec), Some(ms)) => {
                    if m >= 60 || sec >= 60 {
                        None
                    } else {
                        let total = ((d * 60 + m) * 60 + sec) * 1000 + ms;
                        let micro = (total * 5 + 9) / 18;
                        let v = if neg {
                            -micro
                        } else {
                            micro
                        };
                        let bound = if lat {
                            LAT_RANGE as int
                        } else {
                            LON_RANGE as int
                        };
                        if micro > bound {
                            None
                        } else {
                            Some(v)
                        }
                    }
                },
                _ => None,
            }
        }
    }
}

/// A coordinate pair: latitude token, one space, longitude token.
pub open spec fn pair_at(s: Seq<u8>, i: int) -> Option<Point> {
    if !(0 <= i && i + 29 <= s.len() && s[i + 14] == 0x20) {
        None
    } else {
        match (dms_at(s, i, true), dms_at(s, i + 15, false)) {
            (Some(lat), Some(lon)) => Some(Point { lat: lat as i64, lon: lon as i64 }),
            _ => None,
        }
    }
}

/// The trailing coordinate pairs of a position line: each preceded by a
/// comma, ending exactly at the end of the line.
pub open spec fn coords_at(s: Seq<u8>, i: int) -> Option<Seq<Point>>
    decreases s.len() - i,
{
    if i == s.len() {
        Some(Seq::empty())
    } else if !(0 <= i && i + 30 <= s.len() && s[i] == B_COMMA) {
        None
    } else {
        match pair_at(s, i + 1) {
            None => None,
            Some(p) => match coords_at(s, i + 30) {
                None => None,
                Some(ps) => Some(seq![p] + ps),
            },
        }
    }
}

/// The frequency token `MHZ.KKK`: an integer megahertz part below one
/// thousand without padding, a dot, and exactly three kilohertz digits.
pub open spec fn freq_at(s: Seq<u8>, i: int) -> Option<(u64, int)> {
    match crate::text::number_at(s, i) {
        None => None,
        Some((mhz, j)) => {
            if mhz >= 1_000_000 || !(j + 4 <= s.len() && s[j] == B_DOT) {
                None
            } else {
                match fixed_at(s, j + 1, 3) {
                    None => None,
                    Some(khz) => Some(((mhz * 1000 + khz) as u64, j + 4)),
                }
            }
        },
    }
}

/// One position line: quoted identifier, quoted label, frequency, and the
/// coordinate pairs, spanning the whole line.
pub open spec fn pos_line_at(line: Seq<u8>, line_no: u64) -> Option<RecordModel> {
    match quoted_at(line, 0) {
        None => None,
        Some((id, i1)) => if !crate::model::safe_id(id) || !(i1 < line.len() && line[i1]
            == B_COMMA) {
            None
        } else {
            match quoted_at(line, i1 + 1) {
                None => None,
                Some((label, i2)) => if !(i2 < line.len() && line[i2] == B_COMMA) {
                    None
                } else {
                    match freq_at(line, i2 + 1) {
                        None => None,
                        Some((freq, i3)) => match coords_at(line, i3) {
                            None => None,
                            Some(points) => Some(
                                RecordModel { id, label, freq, points, line: line_no },
                            ),
                        },
                    }
                },
            }
        },
    }
}

/// Whether the line is a section header: bracketed, with the bracket
/// closing at the end of the line.
pub open spec fn is_header(line: Seq<u8>) -> bool {
    line.len() >= 2 && line[0] == B_LBRACK && line[line.len() - 1] == B_RBRACK
}

/// The header line that opens the known positions section.
pub open spec fn positions_header() -> Seq<u8> {
    seq![B_LBRACK, 0x50u8, 0x4fu8, 0x53u8, 0x49u8, 0x54u8, 0x49u8, 0x4fu8, 0x4eu8, 0x53u8, B_RBRACK]
}

/// One line of the input: up to the next newline, a trailing carriage
/// return removed.
pub open spec fn line_at(s: Seq<u8>, i: int) -> Seq<u8> {
    let e = first_at(s, i, B_NL);
    let raw = s.subrange(i, e);
    if raw.len() > 0 && raw.last() == B_CR {
        raw.drop_last()
    } else {
        raw
    }
}

/// The records and the diagnostics of the whole input from position `i` on:
/// a fold over the lines carrying the section state. Diagnostics are the
/// line numbers skipped inside the known section.
pub open spec fn sector_fold(s: Seq<u8>, i: int, in_pos: bool, line_no: u64) -> (Seq<
    RecordModel,
>, Seq<u64>)
    decreases s.len() - i,
    when 0 <= i <= s.len()
    via sector_fold_dec
{
    if i >= s.len() {
        (Seq::empty(), Seq::empty())
    } else {
        let line = line_at(s, i);
        let e = first_at(s, i, B_NL);
        let next = if e < s.len() {
            e + 1
        } else {
            e
        };
        let rest = sector_fold(s, next, next_state(line, in_pos), (line_no + 1) as u64);
        if is_header(line) {
            rest
        } else if in_pos {
            match pos_line_at(line, line_no) {
                Some(r) => (seq![r] + rest.0, rest.1),
                None => (rest.0, seq![line_no] + rest.1),
            }
        } else {
            rest
        }
    }
}

/// The section state after a line: headers switch it, other lines keep it.
pub open spec fn next_state(line: Seq<u8>, in_pos: bool) -> bool {
    if is_header(line) {
        line == positions_header()
    } else {
        in_pos
    }
}

/// The first newline lies within the input.
pub proof fn lemma_first_at_bounds(s: Seq<u8>, i: int, b: u8)
    requires
        0 <= i <= s.len(),
    ensures
        i <= first_at(s, i, b) <= s.len(),
        forall|k: int| i <= k < first_at(s, i, b) ==> s[k] != b,
        first_at(s, i, b) < s.len() ==> s[first_at(s, i, b)] == b,
    decreases s.len() - i,
{
    if i < s.len() && s[i] != b {
        lemma_first_at_bounds(s, i + 1, b);
    }
}

#[via_fn]
proof fn sector_fold_dec(s: Seq<u8>, i: int, in_pos: bool, line_no: u64) {
    if 0 <= i < s.len() {
        lemma_first_at_bounds(s, i, B_NL);
    }
}

/// The records and diagnostics of a whole sectorfile input.
pub open spec fn sector_records(s: Seq<u8>) -> (Seq<RecordModel>, Seq<u64>) {
    sector_fold(s, 0, false, 1)
}

/// Exact reader of `fixed_at`.
fn read_fixed(s: &[u8], i: usize, w: usize) -> (r: Option<u64>)
    requires
        i <= s@.len(),
        w <= 4,
    ensures
        match r {
            Some(v) => fixed_at(s@, i as int, w as int) == Some(v as int) && v < 10000,
            None => fixed_at(s@, i as int, w as int) is None,
        },
{
    if s.len() - i < w {
        return None;
    }
    let n: usize = s.len();
    let mut k: usize = 0;
    let mut v: u64 = 0;
    while k < w
        invariant
            0 <= k <= w,
            w <= 4,
            n == s@.len(),
            i + w <= s@.len(),
            forall|m: int| i <= m < i + k ==> is_digit(#[trigger] s@[m]),
            v == val_digits(s@.subrange(i as int, i + k)),
            v < 10000,
        decreases w - k,
    {
        let b = s[i + k];
        if !(0x30 <= b && b <= 0x39) {
            return None;
        }
        proof {
            assert(s@.subrange(i as int, i + k + 1).drop_last() =~= s@.subrange(i as int, i + k));
            assert(s@.subrange(i as int, i + k + 1).last() == s@[i + k]);
            crate::text::lemma_val_digits_bound(s@.subrange(i as int, i + k));
            crate::text::lemma_pow10_mono((k) as nat, 3);
            reveal_with_fuel(crate::text::pow10, 5);
        }
        v = v * 10 + (b - 0x30) as u64;
        k += 1;
    }
    proof {
        crate::text::lemma_val_digits_bound(s@.subrange(i as int, i + w));
        crate::text::lemma_pow10_mono(w as nat, 4);
        reveal_with_fuel(crate::text::pow10, 5);
    }
    Some(v)
}

/// Exact reader of `dms_at`.
fn read_dms(s: &[u8], i: usize, lat: bool) -> (r: Option<i64>)
    requires
        i <= s@.len(),
    ensures
        match r {
            Some(v) => dms_at(s@, i as int, lat) == Some(v as int),
            None => dms_at(s@, i as int, lat) is None,
        },
{
    if s.len() - i < 14 {
        return None;
    }
    let h = s[i];
    let neg = h == 0x53 || h == 0x57;
    let ok_h = if lat {
        h == 0x4e || h == 0x53
    } else {
        h == 0x45 || h == 0x57
    };
    if !ok_h || s[i + 4] != B_DOT || s[i + 7] != B_DOT || s[i + 10] != B_DOT {
        return None;
    }
    let d = match read_fixed(s, i + 1, 3) {
        Some(v) => v,
        None => {
            return None;
        },
    };
    let m = match read_fixed(s, i + 5, 2) {
        Some(v) => v,
        None => {
            return None;
        },
    };
    let sec = match read_fixed(s, i + 8, 2) {
        Some(v) => v,
        None => {
            return None;
        },
    };
    let ms = match read_fixed(s, i + 11, 3) {
        Some(v) => v,
        None => {
            return None;
        },
    };
    if m >= 60 || sec >= 60 {
        return None;
    }
    let total: u64 = ((d * 60 + m) * 60 + sec) * 1000 + ms;
    let micro: u64 = (total * 5 + 9) / 18;
    let bound: u64 = if lat {
        LAT_RANGE as u64
    } else {
        LON_RANGE as u64
    };
    if micro > bound {
        return None;
    }
    if neg {
        Some(-(micro as i64))
    } else {
        Some(micro as i64)
    }
}

/// Exact reader of `pair_at`.
fn read_pair(s: &[u8], i: usize) -> (r: Option<Point>)
    requires
        i <= s@.len(),
    ensures
        match r {
            Some(p) => pair_at(s@, i as int) == Some(p),
            None => pair_at(s@, i as int) is None,
        },
{
    if s.len() - i < 29 || s[i + 14] != 0x20 {
        return None;
    }
    let lat = match read_dms(s, i, true) {
        Some(v) => v,
        None => {
            return None;
        },
    };
    let lon = match read_dms(s, i + 15, false) {
        Some(v) => v,
        None => {
            return None;
        },
    };
    Some(Point { lat, lon })
}

/// Exact reader of `coords_at`.
fn read_coords(s: &[u8], i: usize) -> (r: Option<Vec<Point>>)
    requires
        i <= s@.len(),
    ensures
        match r {
            Some(ps) => coords_at(s@, i as int) == Some(ps@),
            None => coords_at(s@, i as int) is None,
        },
    decreases s@.len() - i,
{
    if i == s.len() {
        let ps: Vec<Point> = Vec::new();
        proof {
            assert(ps@ =~= Seq::<Point>::empty());
        }
        return Some(ps);
    }
    if s.len() - i < 30 || s[i] != B_COMMA {
        return None;
    }
    let p = match read_pair(s, i + 1) {
        Some(p) => p,
        None => {
            return None;
        },
    };
    match read_coords(s, i + 30) {
        None => None,
        Some(ps) => {
            let mut ps = ps;
            ps.insert(0, p);
            proof {
                assert(ps@ =~= seq![p] + coords_at(s@, i + 30)->Some_0);
            }
            Some(ps)
        },
    }
}

/// Exact reader of `freq_at`.
pub(crate) fn read_freq(s: &[u8], i: usize) -> (r: Option<(u64, usize)>)
    requires
        i <= s@.len(),
    ensures
        match r {
            Some((f, j)) => freq_at(s@, i as int) == Some((f, j as int)) && i < j <= s@.len(),
            None => freq_at(s@, i as int) is None,
        },
{
    let (mhz, j) = match crate::text::read_number(s, i) {
        Some(x) => x,
        None => {
            return None;
        },
    };
    if mhz >= 1_000_000 || s.len() - j < 4 || s[j] != B_DOT {
        return None;
    }
    let khz = match read_fixed(s, j + 1, 3) {
        Some(v) => v,
        None => {
            return None;
        },
    };
    Some((mhz * 1000 + khz, j + 4))
}

/// Exact reader of `pos_line_at`.
fn read_pos_line(line: &[u8], line_no: u64) -> (r: Option<SourceRecord>)
    ensures
        match r {
            Some(rec) => pos_line_at(line@, line_no) == Some(rec@),
            None => pos_line_at(line@, line_no) is None,
        },
{
    let (id, i1) = match crate::codec::read_quoted(line, 0) {
        Some(x) => x,
        None => {
            return None;
        },
    };
    if !crate::model::is_safe_id(id.as_slice()) || !(i1 < line.len() && line[i1] == B_COMMA) {
        return None;
    }
    let (label, i2) = match crate::codec::read_quoted(line, i1 + 1) {
        Some(x) => x,
        None => {
            return None;
        },
    };
    if !(i2 < line.len() && line[i2] == B_COMMA) {
        return None;
    }
    let (freq, i3) = match read_freq(line, i2 + 1) {
        Some(x) => x,
        None => {
            return None;
        },
    };
    match read_coords(line, i3) {
        None => None,
        Some(points) => Some(SourceRecord { id, label, freq, points, line: line_no }),
    }
}

/// The `[POSITIONS]` header as bytes.
fn tok_positions_header() -> (r: Vec<u8>)
    ensures
        r@ =~= positions_header(),
{
    let mut v: Vec<u8> = Vec::new();
    v.push(B_LBRACK);
    v.push(0x50);
    v.push(0x4f);
    v.push(0x53);
    v.push(0x49);
    v.push(0x54);
    v.push(0x49);
    v.push(0x4f);
    v.push(0x4e);
    v.push(0x53);
    v.push(B_RBRACK);
    v
}

/// Walk the input line by line, mirroring `sector_fold`.
#[verifier::rlimit(100)]
#[verifier::spinoff_prover]
fn sector_walk(s: &[u8], i: usize, in_pos: bool, line_no: u64) -> (r: (
    Vec<SourceRecord>,
    Vec<u64>,
))
    requires
        i <= s@.len(),
        line_no + s@.len() - i + 1 <= u64::MAX,
    ensures
        record_models(r.0@) == sector_fold(s@, i as int, in_pos, line_no).0,
        r.1@ == sector_fold(s@, i as int, in_pos, line_no).1,
    decreases s@.len() - i,
{
    if i >= s.len() {
        let r: (Vec<SourceRecord>, Vec<u64>) = (Vec::new(), Vec::new());
        proof {
            assert(record_models(r.0@) =~= Seq::<RecordModel>::empty());
            assert(r.1@ =~= Seq::<u64>::empty());
        }
        return r;
    }
    proof {
        lemma_first_at_bounds(s@, i as int, B_NL);
    }
    let mut e: usize = i;
    while e < s.len() && s[e] != B_NL
        invariant
            i <= e <= s@.len(),
            forall|k: int| i <= k < e ==> s@[k] != B_NL,
        decreases s.len() - e,
    {
        e += 1;
    }
    proof {
        lemma_first_at(s@, i as int, e as int, B_NL);
    }
    let mut line_end: usize = e;
    if line_end > i && s[line_end - 1] == B_CR {
        line_end -= 1;
    }
    let line = vstd::slice::slice_subrange(s, i, line_end);
    proof {
        if e > i && s@[e - 1] == B_CR {
            assert(s@.subrange(i as int, e as int).last() == s@[e - 1]);
            assert(s@.subrange(i as int, e as int).drop_last() =~= s@.subrange(
                i as int,
                e - 1,
            ));
        } else if e > i {
            assert(s@.subrange(i as int, e as int).last() == s@[e - 1]);
        }
        assert(line@ == line_at(s@, i as int));
    }
    let header = line.len() >= 2 && line[0] == B_LBRACK && line[line.len() - 1] == B_RBRACK;
    proof {
        if line@.len() >= 2 {
            assert(line@[line@.len() - 1] == line_at(s@, i as int)[line_at(s@, i as int).len()
                - 1]);
        }
        assert(header == is_header(line_at(s@, i as int)));
    }
    let ph = tok_positions_header();
    let next_in_pos = if header {
        crate::model::bytes_eq(line, ph.as_slice())
    } else {
        in_pos
    };
    proof {
        assert(next_in_pos == next_state(line_at(s@, i as int), in_pos));
    }
    let next = if e < s.len() {
        e + 1
    } else {
        e
    };
    let (mut recs, mut diags) = sector_walk(s, next, next_in_pos, line_no + 1);
    let ghost rest = sector_fold(s@, next as int, next_in_pos, (line_no + 1) as u64);
    if header {
        return (recs, diags);
    }
    if in_pos {
        match read_pos_line(line, line_no) {
            Some(rec) => {
                let ghost rm = rec@;
                recs.insert(0, rec);
                proof {
                    assert(record_models(recs@) =~= seq![rm] + rest.0) by {
                        assert forall|k: int| 0 <= k < recs@.len() implies record_models(
                            recs@,
                        )[k] == (seq![rm] + rest.0)[k] by {
                            if k > 0 {
                                assert(recs@[k] == recs@.subrange(1, recs@.len() as int)[k - 1]);
                            }
                        }
                    }
                }
            },
            None => {
                diags.insert(0, line_no);
                proof {
                    assert(diags@ =~= seq![line_no] + rest.1);
                }
            },
        }
    }
    (recs, diags)
}

/// Whether `id` starts with `p`.
pub open spec fn starts_with(id: Seq<u8>, p: Seq<u8>) -> bool {
    p.len() <= id.len() && id.subrange(0, p.len() as int) == p
}

/// Whether a record survives the prefix pre-filter: an empty prefix set
/// keeps everything, otherwise the identifier must start with some prefix.
pub open spec fn kept(id: Seq<u8>, prefixes: Seq<Seq<u8>>) -> bool {
    prefixes.len() == 0 || exists|i: int|
        0 <= i < prefixes.len() && starts_with(id, #[trigger] prefixes[i])
}

/// The models of a sequence of prefixes.
pub open spec fn prefix_models(s: Seq<Vec<u8>>) -> Seq<Seq<u8>> {
    s.map_values(|v: Vec<u8>| v@)
}

/// Whether the identifier starts with the prefix.
fn check_prefix(id: &[u8], p: &[u8]) -> (r: bool)
    ensures
        r == starts_with(id@, p@),
{
    if p.len() > id.len() {
        return false;
    }
    let head = vstd::slice::slice_subrange(id, 0, p.len());
    crate::model::bytes_eq(head, p)
}

/// Whether the record survives the prefix pre-filter.
fn check_kept(id: &[u8], prefixes: &Vec<Vec<u8>>) -> (r: bool)
    ensures
        r == kept(id@, prefix_models(prefixes@)),
{
    let ghost pm = prefix_models(prefixes@);
    if prefixes.len() == 0 {
        return true;
    }
    let mut i: usize = 0;
    while i < prefixes.len()
        invariant
            0 <= i <= prefixes@.len(),
            pm == prefix_models(prefixes@),
            pm.len() == prefixes@.len(),
            forall|k: int| 0 <= k < i ==> !starts_with(id@, #[trigger] pm[k]),
        decreases prefixes.len() - i,
    {
        proof {
            assert(pm[i as int] == prefixes@[i as int]@);
        }
        if check_prefix(id, prefixes[i].as_slice()) {
            return true;
        }
        i += 1;
    }
    false
}

/// Parse a sectorfile input and keep only the records whose identifier
/// starts with one of the given prefixes; an empty prefix set keeps all.
/// The diagnostics are the skipped line numbers of the known section.
pub fn parse_sectorfile(s: &[u8], prefixes: &Vec<Vec<u8>>) -> (r: (
    Vec<SourceRecord>,
    Vec<u64>,
))
    requires
        s@.len() + 2 <= u64::MAX,
    ensures
        record_models(r.0@) =~= sector_records(s@).0.filter(
            |rec: RecordModel| kept(rec.id, prefix_models(prefixes@)),
        ),
        r.1@ == sector_records(s@).1,
{
    let (recs, diags) = sector_walk(s, 0, false, 1);
    let ghost pm = prefix_models(prefixes@);
    let ghost pred = |rec: RecordModel| kept(rec.id, pm);
    let ghost all = record_models(recs@);
    let mut out: Vec<SourceRecord> = Vec::new();
    let mut i: usize = 0;
    while i < recs.len()
        invariant
            0 <= i <= recs@.len(),
            pm == prefix_models(prefixes@),
            pred == (|rec: RecordModel| kept(rec.id, pm)),
            all == record_models(recs@),
            all.len() == recs@.len(),
            record_models(out@) =~= all.subrange(0, i as int).filter(pred),
        decreases recs.len() - i,
    {
        proof {
            reveal_with_fuel(Seq::filter, 2);
            assert(all.subrange(0, i + 1).drop_last() =~= all.subrange(0, i as int));
            assert(all.subrange(0, i + 1).last() == all[i as int]);
            assert(all[i as int] == recs@[i as int]@);
        }
        if check_kept(recs[i].id.as_slice(), prefixes) {
            let ghost prev = out@;
            let rec = &recs[i];
            out.push(
                SourceRecord {
                    id: crate::model::copy_vec(&rec.id),
                    label: crate::model::copy_vec(&rec.label),
                    freq: rec.freq,
                    points: crate::model::copy_vec(&rec.points),
                    line: rec.line,
                },
            );
            proof {
                assert(record_models(out@) =~= record_models(prev).push(out@.last()@)) by {
                    assert forall|k: int| 0 <= k < prev.len() implies record_models(out@)[k]
                        == record_models(prev)[k] by {
                        assert(out@[k] == prev[k]);
                    }
                }
            }
        }
        i += 1;
    }
    proof {
        assert(all.subrange(0, all.len() as int) =~= all);
    }
    (out, diags)
}

} // verus!
