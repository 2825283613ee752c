use vacs_data::codec::parse;
use vacs_data::euroscope::parse_sectorfile;
use vacs_data::format::OutputFormat;
use vacs_data::model::Entity;
use vacs_data::pipeline::{dedup_entities, plan_import, to_entity};
use vacs_data::reconcile::{ImportError, Policy};
use vacs_data::validator::validate;
use vacs_data::vatglasses::parse_vatglasses;

const SECTORFILE: &str = "; comment before any section\n[INFO]\nignored line\n[POSITIONS]\n\"EGLL_APP\",\"London Approach\",119.730,N051.28.39.000 W000.27.41.000,N051.30.00.000 W000.20.00.000,N051.20.00.000 W000.25.00.000\n\"EGKK_APP\",\"Gatwick Approach\",126.825,N051.08.53.000 W000.11.25.000,N051.10.00.000 W000.05.00.000,N051.05.00.000 W000.10.00.000\nbadly formed line\n[OTHER]\n\"LFPG_APP\",\"Paris\",121.150\n";

fn prefixes(ps: &[&str]) -> Vec<Vec<u8>> {
    ps.iter().map(|p| p.as_bytes().to_vec()).collect()
}

#[test]
fn sectorfile_parses_positions_and_skips_noise() {
    let (records, diags) = parse_sectorfile(SECTORFILE.as_bytes(), &prefixes(&[]));
    assert_eq!(records.len(), 2);
    assert_eq!(records[0].id, b"EGLL_APP".to_vec());
    assert_eq!(records[0].label, b"London Approach".to_vec());
    assert_eq!(records[0].freq, 119730);
    assert_eq!(records[0].points.len(), 3);
    assert_eq!(records[0].line, 5);
    assert_eq!(records[1].id, b"EGKK_APP".to_vec());
    assert_eq!(records[1].line, 6);
    // only the malformed line inside the known section is reported
    assert_eq!(diags, vec![7]);
}

#[test]
fn sectorfile_dms_conversion_is_exact() {
    let (records, _) = parse_sectorfile(SECTORFILE.as_bytes(), &prefixes(&[]));
    // N051.28.39.000: (51*3600000 + 28*60000 + 39*1000) milliseconds of arc,
    // times five, plus nine, divided by eighteen.
    let t: i64 = 51 * 3600000 + 28 * 60000 + 39 * 1000;
    assert_eq!(records[0].points[0].lat, (t * 5 + 9) / 18);
    let t_lon: i64 = 27 * 60000 + 41 * 1000;
    assert_eq!(records[0].points[0].lon, -((t_lon * 5 + 9) / 18));
}

#[test]
fn sectorfile_prefix_filter_keeps_matching_records() {
    let (records, _) = parse_sectorfile(SECTORFILE.as_bytes(), &prefixes(&["EG"]));
    assert_eq!(records.len(), 2);
    let (records, _) = parse_sectorfile(SECTORFILE.as_bytes(), &prefixes(&["EGLL"]));
    assert_eq!(records.len(), 1);
    assert_eq!(records[0].id, b"EGLL_APP".to_vec());
    let (records, _) = parse_sectorfile(SECTORFILE.as_bytes(), &prefixes(&["LF"]));
    assert_eq!(records.len(), 0);
}

#[test]
fn sectorfile_empty_prefix_list_keeps_all() {
    let (all, _) = parse_sectorfile(SECTORFILE.as_bytes(), &prefixes(&[]));
    assert_eq!(all.len(), 2);
}

#[test]
fn sectorfile_crlf_lines_are_accepted() {
    let input = "[POSITIONS]\r\n\"EGLL_APP\",\"London Approach\",119.730\r\n";
    let (records, _) = parse_sectorfile(input.as_bytes(), &prefixes(&[]));
    assert_eq!(records.len(), 1);
    assert_eq!(records[0].points.len(), 0);
}

#[test]
fn sectorfile_end_to_end_import() {
    // Import with prefixes ["EGLL"], json encoding, fresh output directory:
    // exactly one file, EGLL_APP.json, holding the normalized entity, and a
    // validator pass over what was written.
    let (records, _) = parse_sectorfile(SECTORFILE.as_bytes(), &prefixes(&["EGLL"]));
    let entities: Vec<Entity> = records.iter().map(to_entity).collect();
    let (entities, dups) = dedup_entities(&entities);
    assert!(dups.is_empty());
    let existing: Vec<Entity> = Vec::new();
    let files = plan_import(&entities, &existing, Policy::FailIfExists, OutputFormat::Json)
        .expect("fresh output directory");
    assert_eq!(files.len(), 1);
    assert_eq!(files[0].0, b"EGLL_APP.json".to_vec());
    let written = parse(&files[0].1, OutputFormat::Json).expect("written entity reads back");
    assert_eq!(written.id, b"EGLL_APP".to_vec());
    assert_eq!(written.label, b"London Approach".to_vec());
    assert_eq!(written.frequencies, vec![119730]);
    let dataset = vec![written];
    assert!(validate(&dataset).is_empty());
}

#[test]
fn vatglasses_parses_objects_in_any_field_order() {
    let doc = "{\"positions\":[{\"id\":\"EGLL_APP\",\"name\":\"London Approach\",\"frequency\":\"119.730\",\"prefix\":\"EGLL\",\"boundary\":[[\"51.4775\",\"-0.461389\"],[51.5,\"-0.333333\"],[\"51.333333\",-0.416667]]},{\"frequency\":126.825,\"name\":\"Gatwick Approach\",\"id\":\"EGKK_APP\"}]}";
    let entities = parse_vatglasses(doc.as_bytes()).expect("document parses");
    assert_eq!(entities.len(), 2);
    assert_eq!(entities[0].id, b"EGLL_APP".to_vec());
    assert_eq!(entities[0].label, b"London Approach".to_vec());
    assert_eq!(entities[0].frequencies, vec![119730]);
    assert_eq!(entities[0].parent, Some(b"EGLL".to_vec()));
    assert_eq!(entities[0].boundary.len(), 3);
    assert_eq!(entities[0].boundary[0].lat, 51477500);
    assert_eq!(entities[0].boundary[0].lon, -461389);
    assert_eq!(entities[0].boundary[1].lat, 51500000);
    assert_eq!(entities[0].boundary[2].lon, -416667);
    assert_eq!(entities[1].id, b"EGKK_APP".to_vec());
    assert_eq!(entities[1].frequencies, vec![126825]);
    assert!(entities[1].parent.is_none());
    assert!(entities[1].boundary.is_empty());
}

#[test]
fn vatglasses_rejects_missing_required_fields() {
    let doc = "{\"positions\":[{\"id\":\"A\",\"name\":\"a\"}]}";
    assert!(matches!(parse_vatglasses(doc.as_bytes()), Err(ImportError::Schema)));
    let doc = "{\"positions\":[{\"id\":\"A\",\"frequency\":\"119.730\"}]}";
    assert!(matches!(parse_vatglasses(doc.as_bytes()), Err(ImportError::Schema)));
}

#[test]
fn vatglasses_rejects_repeated_fields_and_bad_container() {
    let doc = "{\"positions\":[{\"id\":\"A\",\"id\":\"B\",\"name\":\"a\",\"frequency\":\"119.730\"}]}";
    assert!(matches!(parse_vatglasses(doc.as_bytes()), Err(ImportError::Schema)));
    assert!(matches!(parse_vatglasses(b"[]"), Err(ImportError::Format)));
    assert!(matches!(parse_vatglasses(b"{\"positions\":"), Err(ImportError::Format)));
}

#[test]
fn vatglasses_empty_positions_array() {
    let entities = parse_vatglasses(b"{\"positions\":[]}").expect("empty document parses");
    assert!(entities.is_empty());
}

#[test]
fn vatglasses_duplicate_identifiers_deferred_to_reconciliation() {
    let doc = "{\"positions\":[{\"id\":\"A\",\"name\":\"first\",\"frequency\":\"119.730\"},{\"id\":\"A\",\"name\":\"second\",\"frequency\":\"121.000\"}]}";
    let entities = parse_vatglasses(doc.as_bytes()).expect("parses with duplicates");
    assert_eq!(entities.len(), 2);
    let (kept, dups) = dedup_entities(&entities);
    assert_eq!(kept.len(), 1);
    assert_eq!(kept[0].label, b"first".to_vec());
    assert_eq!(dups, vec![b"A".to_vec()]);
}

#[test]
fn vatglasses_rejects_out_of_range_coordinates() {
    let doc = "{\"positions\":[{\"id\":\"A\",\"name\":\"a\",\"frequency\":\"119.730\",\"boundary\":[[\"91.0\",\"0.0\"]]}]}";
    assert!(matches!(parse_vatglasses(doc.as_bytes()), Err(ImportError::Schema)));
}

#[test]
fn decimal_number_primitives_round_trip() {
    for n in [0u64, 1, 9, 10, 42, 999_999_999] {
        let mut out: Vec<u8> = Vec::new();
        vacs_data::text::push_decimal(&mut out, n);
        out.push(b',');
        let (v, j) = vacs_data::text::read_number(&out, 0).expect("reads back");
        assert_eq!(v, n);
        assert_eq!(j, out.len() - 1);
    }
}

#[test]
fn signed_number_rejects_noncanonical_forms() {
    assert!(vacs_data::text::read_int(b"-0", 0).is_none());
    assert!(vacs_data::text::read_number(b"007", 0).is_none());
    assert!(vacs_data::text::read_number(b"1234567890", 0).is_none());
    assert_eq!(vacs_data::text::read_int(b"-454500]", 0), Some((-454500, 7)));
}

#[test]
fn vatglasses_accepts_pretty_printed_documents() {
    let doc = "{\n  \"positions\": [\n    {\n      \"id\": \"EGLL_APP\",\n      \"name\": \"London Approach\",\n      \"frequency\": \"119.730\",\n      \"boundary\": [\n        [ \"51.4775\", \"-0.461389\" ],\n        [ 51.5, -0.333333 ],\n        [ 51.333333, -0.416667 ]\n      ]\n    },\n    { \"id\": \"EGKK_APP\", \"name\": \"Gatwick Approach\", \"frequency\": 126.825 }\n  ]\n}\n";
    let entities = parse_vatglasses(doc.as_bytes()).expect("pretty-printed document parses");
    assert_eq!(entities.len(), 2);
    assert_eq!(entities[0].id, b"EGLL_APP".to_vec());
    assert_eq!(entities[0].boundary.len(), 3);
    assert_eq!(entities[0].boundary[0].lat, 51477500);
    assert_eq!(entities[1].id, b"EGKK_APP".to_vec());
    assert_eq!(entities[1].frequencies, vec![126825]);
}

#[test]
fn vatglasses_pretty_empty_array() {
    let entities = parse_vatglasses(b"{ \"positions\": [ ] }\n").expect("empty array parses");
    assert!(entities.is_empty());
}

#[test]
fn vatglasses_rejects_text_outside_dataset_alphabet() {
    // Non-ASCII label bytes are outside the dataset schema's stated
    // alphabet: the document is refused as a schema defect.
    let doc = "{\"positions\":[{\"id\":\"EDDM_APP\",\"name\":\"M\u{fc}nchen Radar\",\"frequency\":\"119.730\"}]}";
    assert!(matches!(parse_vatglasses(doc.as_bytes()), Err(ImportError::Schema)));
}

#[test]
fn parsers_refuse_path_like_identifiers() {
    let doc = "{\"positions\":[{\"id\":\"../x\",\"name\":\"a\",\"frequency\":\"119.730\"}]}";
    assert!(matches!(parse_vatglasses(doc.as_bytes()), Err(ImportError::Schema)));
    let sector = "[POSITIONS]\n\"a/b\",\"label\",119.730\n";
    let (records, diags) = parse_sectorfile(sector.as_bytes(), &prefixes(&[]));
    assert!(records.is_empty());
    assert_eq!(diags, vec![2]);
    let toml_doc = "id = \"../x\"\nlabel = \"a\"\nfrequencies = [1]\nboundary = []\n";
    assert!(parse(toml_doc.as_bytes(), OutputFormat::Toml).is_err());
}
