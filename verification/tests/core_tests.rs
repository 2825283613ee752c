use vacs_data::codec::{parse, serialize};
use vacs_data::format::OutputFormat;
use vacs_data::model::{Entity, Point};
use vacs_data::pipeline::{dedup_entities, entity_file_name, plan_import, to_entity};
use vacs_data::reconcile::{reconcile, ImportError, Policy};
use vacs_data::validator::{validate, ViolationKind};

fn point(lat: i64, lon: i64) -> Point {
    Point { lat, lon }
}

fn entity(id: &str, label: &str, freq: u64, parent: Option<&str>, pts: &[(i64, i64)]) -> Entity {
    Entity {
        id: id.as_bytes().to_vec(),
        label: label.as_bytes().to_vec(),
        frequencies: vec![freq],
        parent: parent.map(|p| p.as_bytes().to_vec()),
        boundary: pts.iter().map(|&(lat, lon)| point(lat, lon)).collect(),
    }
}

fn entity_eq(a: &Entity, b: &Entity) -> bool {
    a.id == b.id
        && a.label == b.label
        && a.frequencies == b.frequencies
        && a.parent == b.parent
        && a.boundary == b.boundary
}

const TRIANGLE: [(i64, i64); 3] = [(51470000, -454500), (51480000, -450000), (51400000, -440000)];

#[test]
fn round_trip_toml() {
    let e = entity("EGLL_APP", "London Approach", 119730, Some("EGLL"), &TRIANGLE);
    let bytes = serialize(&e, OutputFormat::Toml);
    let back = parse(&bytes, OutputFormat::Toml).expect("canonical toml parses");
    assert!(entity_eq(&e, &back));
}

#[test]
fn round_trip_json() {
    let e = entity("EGKK_APP", "Gatwick Approach", 126825, None, &TRIANGLE);
    let bytes = serialize(&e, OutputFormat::Json);
    let back = parse(&bytes, OutputFormat::Json).expect("canonical json parses");
    assert!(entity_eq(&e, &back));
}

#[test]
fn round_trip_negative_coordinates_and_empty_label() {
    let e = entity("X", "", 100000, None, &[(-90000000, -180000000), (0, 0), (1, -1)]);
    for fmt in [OutputFormat::Toml, OutputFormat::Json] {
        let bytes = serialize(&e, fmt);
        let back = parse(&bytes, fmt).expect("parses");
        assert!(entity_eq(&e, &back));
    }
}

#[test]
fn json_output_is_valid_json() {
    let e = entity("EGLL_APP", "London Approach", 119730, Some("EGLL"), &TRIANGLE);
    let bytes = serialize(&e, OutputFormat::Json);
    let v: serde_json::Value = serde_json::from_slice(&bytes).expect("valid json");
    assert_eq!(v["id"], serde_json::Value::String("EGLL_APP".to_string()));
    assert_eq!(v["label"], serde_json::Value::String("London Approach".to_string()));
    assert_eq!(v["frequencies"][0].as_u64(), Some(119730));
    assert_eq!(v["parent"].as_str(), Some("EGLL"));
    assert_eq!(v["boundary"][0][0].as_i64(), Some(51470000));
    assert_eq!(v["boundary"][0][1].as_i64(), Some(-454500));
}

#[test]
fn toml_output_is_valid_toml() {
    let e = entity("EGLL_APP", "London Approach", 119730, Some("EGLL"), &TRIANGLE);
    let bytes = serialize(&e, OutputFormat::Toml);
    let text = String::from_utf8(bytes).expect("utf8");
    let v: toml::Value = toml::from_str(&text).expect("valid toml");
    assert_eq!(v["id"].as_str(), Some("EGLL_APP"));
    assert_eq!(v["label"].as_str(), Some("London Approach"));
    assert_eq!(v["frequencies"][0].as_integer(), Some(119730));
    assert_eq!(v["parent"].as_str(), Some("EGLL"));
    assert_eq!(v["boundary"][2][1].as_integer(), Some(-440000));
}

#[test]
fn parse_rejects_garbage() {
    assert!(matches!(parse(b"not a document", OutputFormat::Toml), Err(ImportError::Format)));
    assert!(matches!(parse(b"{]", OutputFormat::Json), Err(ImportError::Format)));
    assert!(matches!(parse(b"", OutputFormat::Json), Err(ImportError::Format)));
}

#[test]
fn parse_rejects_trailing_bytes() {
    let e = entity("A", "b", 1, None, &TRIANGLE);
    let mut bytes = serialize(&e, OutputFormat::Json);
    bytes.push(b' ');
    assert!(matches!(parse(&bytes, OutputFormat::Json), Err(ImportError::Format)));
}

#[test]
fn reconcile_overwrite_drops_existing_only_ids() {
    let n = vec![entity("A", "new a", 1, None, &TRIANGLE)];
    let e = vec![
        entity("A", "old a", 2, None, &TRIANGLE),
        entity("B", "old b", 3, None, &TRIANGLE),
    ];
    let out = reconcile(&n, &e, Policy::Overwrite).expect("overwrite succeeds");
    assert_eq!(out.len(), 1);
    assert_eq!(out[0].id, b"A".to_vec());
    assert_eq!(out[0].label, b"new a".to_vec());
}

#[test]
fn reconcile_merge_keeps_existing_only_ids_and_import_wins() {
    let n = vec![
        entity("A", "new a", 1, None, &TRIANGLE),
        entity("C", "new c", 4, None, &TRIANGLE),
    ];
    let e = vec![
        entity("A", "old a", 2, None, &TRIANGLE),
        entity("B", "old b", 3, None, &TRIANGLE),
    ];
    let out = reconcile(&n, &e, Policy::Merge).expect("merge succeeds");
    assert_eq!(out.len(), 3);
    assert_eq!(out[0].id, b"A".to_vec());
    assert_eq!(out[0].label, b"new a".to_vec());
    assert_eq!(out[1].id, b"B".to_vec());
    assert_eq!(out[1].label, b"old b".to_vec());
    assert_eq!(out[2].id, b"C".to_vec());
}

#[test]
fn reconcile_merge_twice_gives_same_result() {
    let n = vec![
        entity("A", "new a", 1, None, &TRIANGLE),
        entity("C", "new c", 4, None, &TRIANGLE),
    ];
    let e = vec![
        entity("A", "old a", 2, None, &TRIANGLE),
        entity("B", "old b", 3, None, &TRIANGLE),
    ];
    let once = reconcile(&n, &e, Policy::Merge).expect("merge succeeds");
    let twice = reconcile(&n, &once, Policy::Merge).expect("merge succeeds");
    assert_eq!(once.len(), twice.len());
    for (a, b) in once.iter().zip(twice.iter()) {
        assert!(entity_eq(a, b));
    }
}

#[test]
fn reconcile_default_policy_fails_on_existing() {
    let n = vec![entity("A", "a", 1, None, &TRIANGLE)];
    let e = vec![entity("B", "b", 2, None, &TRIANGLE)];
    assert!(matches!(reconcile(&n, &e, Policy::FailIfExists), Err(ImportError::OutputExists)));
    let empty: Vec<Entity> = Vec::new();
    let ok = reconcile(&n, &empty, Policy::FailIfExists).expect("empty existing set");
    assert_eq!(ok.len(), 1);
}

#[test]
fn plan_import_default_policy_writes_nothing_on_existing() {
    let n = vec![entity("A", "a", 1, None, &TRIANGLE)];
    let e = vec![entity("B", "b", 2, None, &TRIANGLE)];
    let r = plan_import(&n, &e, Policy::FailIfExists, OutputFormat::Toml);
    assert!(matches!(r, Err(ImportError::OutputExists)));
}

#[test]
fn plan_import_renders_one_file_per_entity() {
    let n = vec![
        entity("A", "a", 1, None, &TRIANGLE),
        entity("B", "b", 2, None, &TRIANGLE),
    ];
    let e: Vec<Entity> = Vec::new();
    let files = plan_import(&n, &e, Policy::FailIfExists, OutputFormat::Json).expect("fresh");
    assert_eq!(files.len(), 2);
    assert_eq!(files[0].0, b"A.json".to_vec());
    assert_eq!(files[1].0, b"B.json".to_vec());
    let back = parse(&files[0].1, OutputFormat::Json).expect("written file parses");
    assert!(entity_eq(&back, &n[0]));
}

#[test]
fn validator_reports_insufficient_boundary_points() {
    let ds = vec![entity("A", "a", 1, None, &[(0, 0), (1, 1)])];
    let vs = validate(&ds);
    assert_eq!(vs.len(), 1);
    assert_eq!(vs[0].entity_id, b"A".to_vec());
    assert!(matches!(vs[0].kind, ViolationKind::InsufficientBoundaryPoints));
    assert_eq!(vs[0].kind.name(), "insufficient boundary points");
}

#[test]
fn validator_reports_duplicate_identifier() {
    let ds = vec![
        entity("A", "a", 1, None, &TRIANGLE),
        entity("A", "again", 2, None, &TRIANGLE),
    ];
    let vs = validate(&ds);
    assert_eq!(vs.len(), 1);
    assert!(matches!(vs[0].kind, ViolationKind::DuplicateIdentifier));
    assert_eq!(vs[0].kind.name(), "duplicate identifier");
}

#[test]
fn validator_reports_unresolved_reference() {
    let ds = vec![entity("A", "a", 1, Some("MISSING"), &TRIANGLE)];
    let vs = validate(&ds);
    assert_eq!(vs.len(), 1);
    assert!(matches!(vs[0].kind, ViolationKind::UnresolvedReference));
    assert_eq!(vs[0].kind.name(), "unresolved reference");
}

#[test]
fn validator_reports_coordinate_out_of_range() {
    let ds = vec![entity("A", "a", 1, None, &[(90000001, 0), (0, 0), (1, 1)])];
    let vs = validate(&ds);
    assert_eq!(vs.len(), 1);
    assert!(matches!(vs[0].kind, ViolationKind::CoordinateOutOfRange));
    assert_eq!(vs[0].kind.name(), "coordinate out of range");
}

#[test]
fn validator_accepts_valid_dataset() {
    let ds = vec![
        entity("EGLL", "London group", 100000, None, &TRIANGLE),
        entity("EGLL_APP", "London Approach", 119730, Some("EGLL"), &TRIANGLE),
    ];
    assert!(validate(&ds).is_empty());
}

#[test]
fn validator_collects_all_violations_in_order() {
    let ds = vec![
        entity("A", "a", 1, None, &TRIANGLE),
        entity("A", "dup and short", 2, Some("NOPE"), &[(0, 0)]),
    ];
    let vs = validate(&ds);
    assert_eq!(vs.len(), 3);
    assert!(matches!(vs[0].kind, ViolationKind::DuplicateIdentifier));
    assert!(matches!(vs[1].kind, ViolationKind::InsufficientBoundaryPoints));
    assert!(matches!(vs[2].kind, ViolationKind::UnresolvedReference));
}

#[test]
fn dedup_keeps_first_occurrence_and_reports_later_ones() {
    let es = vec![
        entity("A", "first", 1, None, &TRIANGLE),
        entity("B", "only", 2, None, &TRIANGLE),
        entity("A", "second", 3, None, &TRIANGLE),
    ];
    let (kept, dups) = dedup_entities(&es);
    assert_eq!(kept.len(), 2);
    assert_eq!(kept[0].label, b"first".to_vec());
    assert_eq!(kept[1].id, b"B".to_vec());
    assert_eq!(dups, vec![b"A".to_vec()]);
}

#[test]
fn file_name_uses_extension() {
    let e = entity("EGLL_APP", "x", 1, None, &TRIANGLE);
    assert_eq!(entity_file_name(&e, OutputFormat::Json), b"EGLL_APP.json".to_vec());
    assert_eq!(entity_file_name(&e, OutputFormat::Toml), b"EGLL_APP.toml".to_vec());
}

#[test]
fn output_format_names() {
    assert_eq!(OutputFormat::variants(), &["toml", "json"]);
    assert_eq!(OutputFormat::Toml.ext(), "toml");
    assert_eq!(OutputFormat::Json.ext(), "json");
    assert_eq!(OutputFormat::default(), OutputFormat::Toml);
    assert_eq!(OutputFormat::from_str("toml"), Ok(OutputFormat::Toml));
    assert_eq!(OutputFormat::from_str("JSON"), Ok(OutputFormat::Json));
    let err = OutputFormat::from_str("yaml").unwrap_err();
    assert_eq!(err, "invalid output format: yaml. supported formats: toml, json");
}

#[test]
fn source_record_to_entity() {
    let rec = vacs_data::euroscope::SourceRecord {
        id: b"EGLL_APP".to_vec(),
        label: b"London Approach".to_vec(),
        freq: 119730,
        points: TRIANGLE.iter().map(|&(lat, lon)| point(lat, lon)).collect(),
        line: 3,
    };
    let e = to_entity(&rec);
    assert_eq!(e.id, rec.id);
    assert_eq!(e.label, rec.label);
    assert_eq!(e.frequencies, vec![119730]);
    assert!(e.parent.is_none());
    assert_eq!(e.boundary, rec.points);
}

#[test]
fn parse_handwritten_canonical_toml() {
    let text = "id = \"EGLL_APP\"\nlabel = \"London Approach\"\nfrequencies = [119730]\nboundary = [[51470000,-454500],[51480000,-450000],[51400000,-440000]]\n";
    let e = parse(text.as_bytes(), OutputFormat::Toml).expect("canonical document parses");
    assert_eq!(e.id, b"EGLL_APP".to_vec());
    assert_eq!(e.frequencies, vec![119730]);
    assert!(e.parent.is_none());
    assert_eq!(e.boundary.len(), 3);
    assert_eq!(e.boundary[0].lat, 51470000);
}

#[test]
fn merge_import_adds_to_existing_files() {
    let first = vec![entity("A", "a", 1, None, &TRIANGLE)];
    let empty: Vec<Entity> = Vec::new();
    let files = plan_import(&first, &empty, Policy::FailIfExists, OutputFormat::Toml)
        .expect("fresh output");
    let existing: Vec<Entity> = files
        .iter()
        .map(|(_, content)| parse(content, OutputFormat::Toml).expect("written file parses"))
        .collect();
    let second = vec![entity("B", "b", 2, None, &TRIANGLE)];
    let merged = plan_import(&second, &existing, Policy::Merge, OutputFormat::Toml)
        .expect("merge succeeds");
    assert_eq!(merged.len(), 2);
    assert_eq!(merged[0].0, b"A.toml".to_vec());
    assert_eq!(merged[1].0, b"B.toml".to_vec());
}
