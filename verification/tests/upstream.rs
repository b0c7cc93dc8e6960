use glyphr::app::OutputMode;
use glyphr::glyph::Glyph;
use glyphr::upstream::{
    entries_of, normalize, parse_codepoint, parse_upstream, snapshot_entries, JsonField, NormalizeError,
    SnapshotError, Upstream, UpstreamItem,
};

fn item(fields: &[(&str, JsonField)]) -> UpstreamItem {
    UpstreamItem {
        fields: fields
            .iter()
            .map(|(k, v)| {
                let v = match v {
                    JsonField::U64(i) => JsonField::U64(*i),
                    JsonField::Str(s) => JsonField::Str(s.clone()),
                    JsonField::Other => JsonField::Other,
                };
                (k.to_string(), v)
            })
            .collect(),
    }
}

fn s(x: &str) -> JsonField {
    JsonField::Str(x.to_string())
}

#[test]
fn normalize_object_schema() {
    let v = Upstream::Object(vec![
        ("METADATA".to_string(), item(&[("version", s("3.4.0"))])),
        ("cod-folder".to_string(), item(&[("char", s("\u{ea83}")), ("code", s("ea83"))])),
        (
            "fa-cogs".to_string(),
            item(&[("char", s("\u{f085}")), ("code", s("f085")), ("aliases", JsonField::Other)]),
        ),
    ]);
    let mut g = normalize(&v).unwrap();
    g.sort_by(|a, b| a.name.cmp(&b.name));
    assert_eq!(g.len(), 2);
    assert_eq!(g[0].name, "nf-cod-folder");
    assert_eq!(g[0].codepoint, 0xea83);
    assert_eq!(g[1].name, "nf-fa-cogs");
    assert_eq!(g[1].codepoint, 0xf085);
}

#[test]
fn skips_metadata_key() {
    let v = Upstream::Object(vec![
        ("METADATA".to_string(), item(&[("version", s("1"))])),
        ("dev-git".to_string(), item(&[("code", s("e702"))])),
    ]);
    let g = normalize(&v).unwrap();
    assert_eq!(g.len(), 1);
    assert_eq!(g[0].name, "nf-dev-git");
    assert_eq!(g[0].codepoint, 0xe702);
}

#[test]
fn rejects_non_object_upstream() {
    assert!(normalize(&Upstream::NotObject).is_err());
}

#[test]
fn empty_object_yields_empty_vec() {
    assert!(normalize(&Upstream::Object(vec![])).unwrap().is_empty());
}

#[test]
fn plane16_codepoint_parsed() {
    let v = Upstream::Object(vec![("md-folder".to_string(), item(&[("code", s("f024b"))]))]);
    let g = normalize(&v).unwrap();
    assert_eq!(g.len(), 1);
    assert_eq!(g[0].codepoint, 0xf024b);
}

#[test]
fn codepoint_sources_in_order() {
    // A number under `codepoint` is taken as is, cut to 32 bits.
    assert_eq!(parse_codepoint(&item(&[("codepoint", JsonField::U64(0xe000))])), Ok(0xe000));
    assert_eq!(parse_codepoint(&item(&[("codepoint", JsonField::U64(0x1_0000_0041))])), Ok(0x41));
    // A string under `codepoint` wins over `code`.
    assert_eq!(
        parse_codepoint(&item(&[("code", s("e001")), ("codepoint", s("e002"))])),
        Ok(0xe002)
    );
    // `hex` is the last resort.
    assert_eq!(parse_codepoint(&item(&[("hex", s("U+E003"))])), Ok(0xe003));
    // A `codepoint` that is neither a number nor a string hides `code`.
    assert_eq!(
        parse_codepoint(&item(&[("codepoint", JsonField::Other), ("code", s("e004"))])),
        Err(NormalizeError::MissingCodepoint)
    );
    assert_eq!(parse_codepoint(&item(&[])), Err(NormalizeError::MissingCodepoint));
}

#[test]
fn codepoint_text_markers_and_errors() {
    assert_eq!(parse_codepoint(&item(&[("code", s("  0xF024B "))])), Ok(0xf024b));
    assert_eq!(parse_codepoint(&item(&[("code", s("u+0x0Xe5"))])), Ok(0xe5));
    assert_eq!(parse_codepoint(&item(&[("code", s("+ff"))])), Ok(0xff));
    assert_eq!(parse_codepoint(&item(&[("code", s(""))])), Err(NormalizeError::BadHex));
    assert_eq!(parse_codepoint(&item(&[("code", s("+"))])), Err(NormalizeError::BadHex));
    assert_eq!(parse_codepoint(&item(&[("code", s("-1"))])), Err(NormalizeError::BadHex));
    assert_eq!(parse_codepoint(&item(&[("code", s("xyz"))])), Err(NormalizeError::BadHex));
    assert_eq!(parse_codepoint(&item(&[("code", s("ffffffff"))])), Ok(0xffff_ffff));
    assert_eq!(parse_codepoint(&item(&[("code", s("100000000"))])), Err(NormalizeError::BadHex));
}

#[test]
fn first_bad_entry_decides_the_error() {
    let v = Upstream::Object(vec![
        ("a-b".to_string(), item(&[("code", s("zz"))])),
        ("c-d".to_string(), item(&[])),
    ]);
    assert_eq!(normalize(&v).err(), Some(NormalizeError::BadHex));
}

#[test]
fn rendered_hex_reads_back() {
    for cp in [0u32, 0x2a, 0xf07d, 0xf0493, 0x10ffff, u32::MAX] {
        let g = Glyph { name: "nf-x-y".into(), codepoint: cp };
        let text = OutputMode::Hex.render(&g);
        assert_eq!(parse_codepoint(&item(&[("code", s(&text))])), Ok(cp));
    }
}

#[test]
fn snapshot_entries_rejects_text_that_is_not_json() {
    assert!(matches!(snapshot_entries("{not json"), Err(SnapshotError::NotJson)));
}

#[test]
fn snapshot_entries_rejects_a_non_object() {
    assert!(matches!(
        snapshot_entries("[1, 2]"),
        Err(SnapshotError::Normalize(NormalizeError::NotAnObject))
    ));
}

#[test]
fn snapshot_entries_rejects_an_empty_table() {
    assert!(matches!(snapshot_entries("{}"), Err(SnapshotError::Empty)));
    assert!(matches!(
        snapshot_entries(r#"{"METADATA": {"version": "3.4.0"}}"#),
        Err(SnapshotError::Empty)
    ));
}

#[test]
fn snapshot_entries_rejects_a_missing_codepoint() {
    assert!(matches!(
        snapshot_entries(r#"{"cod-x": {"char": "x"}}"#),
        Err(SnapshotError::Normalize(NormalizeError::MissingCodepoint))
    ));
}

#[test]
fn snapshot_entries_reads_the_upstream_table() {
    let raw = r#"{
        "METADATA": {"version": "3.4.0"},
        "cod-folder": {"char": "x", "code": "ea83"},
        "md-cog": {"codepoint": 983187}
    }"#;
    let v = snapshot_entries(raw).unwrap();
    let got: Vec<(String, u32)> = v.iter().map(|g| (g.name.clone(), g.codepoint)).collect();
    assert_eq!(
        got,
        vec![("nf-cod-folder".to_string(), 0xea83), ("nf-md-cog".to_string(), 983187)]
    );
}

#[test]
fn parse_upstream_reads_members() {
    match parse_upstream(r#"{"a": {"codepoint": 5, "code": "f0", "x": null, "n": -1}}"#) {
        Some(Upstream::Object(entries)) => {
            assert_eq!(entries.len(), 1);
            assert_eq!(entries[0].0, "a");
            let f = &entries[0].1.fields;
            assert_eq!(f.len(), 4);
            for (k, v) in f {
                match (k.as_str(), v) {
                    ("codepoint", JsonField::U64(5)) => {}
                    ("code", JsonField::Str(s)) => assert_eq!(s, "f0"),
                    ("x", JsonField::Other) | ("n", JsonField::Other) => {}
                    _ => panic!("unexpected member {k}"),
                }
            }
        }
        _ => panic!("expected an object"),
    }
    assert!(matches!(parse_upstream("3"), Some(Upstream::NotObject)));
    assert!(parse_upstream("").is_none());
}

#[test]
fn entries_of_refuses_an_empty_object() {
    assert!(matches!(entries_of(&Upstream::Object(vec![])), Err(SnapshotError::Empty)));
}
