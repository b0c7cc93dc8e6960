use glyphr::glyph::{aliases_of, glyphs_from_snapshot, set_of, Glyph, StoredGlyph};

#[test]
fn char_round_trip() {
    let g = Glyph {
        name: "nf-cod-folder".into(),
        codepoint: 0xf07d,
    };
    assert_eq!(g.char(), Some('\u{f07d}'));
}

#[test]
fn invalid_codepoint_is_none() {
    let g = Glyph {
        name: "nf-bogus".into(),
        codepoint: 0xd801, // surrogate
    };
    assert_eq!(g.char(), None);
}

#[test]
fn set_derived_from_name() {
    assert_eq!(set_of("nf-cod-folder"), "cod");
    assert_eq!(set_of("nf-md-cog"), "md");
    // The first '-' after the prefix ends the token.
    assert_eq!(set_of("nf-seti-foo"), "seti");
    assert_eq!(set_of("nf"), "nf"); // no prefix-split -> whole string
    assert_eq!(set_of("not-nf"), "not"); // falls back when no `nf-`
}

#[test]
fn alias_collapses_underscores() {
    let v = aliases_of("nf-cod-left_hard_divider");
    assert_eq!(v, vec!["left hard divider".to_string()]);
}

#[test]
fn alias_simple_uses_suffix_as_is() {
    assert_eq!(aliases_of("nf-cod-folder"), vec!["folder".to_string()]);
    assert_eq!(aliases_of("nf-md-cog"), vec!["cog".to_string()]);
}

#[test]
fn alias_empty_when_only_set() {
    let v = aliases_of("nf-cod-");
    assert!(v.is_empty(), "got {v:?}");
    let v = aliases_of("nf-cod-___");
    assert!(v.is_empty(), "got {v:?}");
}

#[test]
fn stored_glyph_into_glyph_strips_fields() {
    let s = StoredGlyph {
        name: "nf-cod-folder".into(),
        codepoint: 0xf07d,
    };
    let g = s.into_glyph();
    assert_eq!(g.name, "nf-cod-folder");
    assert_eq!(g.codepoint, 0xf07d);
    assert_eq!(g.set(), "cod");
}

#[test]
fn codepoint_above_unicode_is_none() {
    let g = Glyph { name: "nf-x-y".into(), codepoint: 0x110000 };
    assert_eq!(g.char(), None);
    let g = Glyph { name: "nf-x-y".into(), codepoint: 0x10ffff };
    assert_eq!(g.char(), Some('\u{10ffff}'));
}

#[test]
fn set_of_edge_cases() {
    assert_eq!(set_of(""), "");
    assert_eq!(set_of("nf-"), "");
    assert_eq!(set_of("nf--x"), "");
    assert_eq!(set_of("nf-é-x"), "é");
    assert_eq!(set_of("abc"), "abc");
}

#[test]
fn alias_keeps_inner_spacing_and_later_dashes() {
    assert_eq!(aliases_of("nf-seti-foo-bar"), vec!["foo-bar".to_string()]);
    assert_eq!(aliases_of("nf-cod-_x_"), vec![" x ".to_string()]);
    // A name without the `nf-` prefix still skips three bytes, the token and a dash.
    assert_eq!(aliases_of("nfx-cod-folder"), vec!["-folder".to_string()]);
    assert!(aliases_of("not-nf").is_empty());
    assert!(aliases_of("nf").is_empty());
}

#[test]
fn alias_byte_offset_inside_a_character_is_none() {
    // The set token is "é" (two bytes): the descriptor offset is 3 + 2 + 1 = 6
    // bytes, which is the boundary before "ab".
    assert_eq!(aliases_of("nf-é-ab"), vec!["ab".to_string()]);
    // Without `nf-`, the offset lands inside the two-byte "é".
    assert!(aliases_of("é-éé").is_empty());
}

#[test]
fn glyph_aliases_and_set_follow_name() {
    let g = Glyph { name: "nf-md-folder_open".into(), codepoint: 0xf0770 };
    assert_eq!(g.set(), "md");
    assert_eq!(g.aliases(), vec!["folder open".to_string()]);
}

#[test]
fn search_strings_are_name_hex_and_aliases() {
    let g = Glyph { name: "nf-MD-Folder_Open".into(), codepoint: 0xF0770 };
    assert_eq!(
        g.search_strings(),
        vec!["nf-md-folder_open".to_string(), "f0770".to_string(), "folder open".to_string()]
    );
    let g = Glyph { name: "nf-cod-".into(), codepoint: 0 };
    assert_eq!(g.search_strings(), vec!["nf-cod-".to_string(), "0".to_string()]);
}

#[test]
fn snapshot_entries_keep_their_order() {
    let stored = vec![
        StoredGlyph { name: "nf-a-b".into(), codepoint: 1 },
        StoredGlyph { name: "nf-c-d".into(), codepoint: 2 },
        StoredGlyph { name: "nf-e-f".into(), codepoint: 3 },
    ];
    let g = glyphs_from_snapshot(stored);
    let names: Vec<&str> = g.iter().map(|x| x.name.as_str()).collect();
    assert_eq!(names, vec!["nf-a-b", "nf-c-d", "nf-e-f"]);
    assert_eq!(g.iter().map(|x| x.codepoint).collect::<Vec<_>>(), vec![1, 2, 3]);
}
