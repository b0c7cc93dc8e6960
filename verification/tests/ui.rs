use glyphr::app::{App, KeyCode, KeyEvent, OutputMode};
use glyphr::glyph::Glyph;
use glyphr::matcher::Hit;
use glyphr::ui::{aliases_summary, footer_count, list_window, name_spans, output_badge, preview, row_head};

fn fx() -> Vec<Glyph> {
    vec![
        Glyph {
            name: "nf-cod-folder".into(),
            codepoint: 0xf07d,
        },
        Glyph {
            name: "nf-fa-cogs".into(),
            codepoint: 0xf085,
        },
        Glyph {
            name: "nf-dev-github".into(),
            codepoint: 0xe70e,
        },
        Glyph {
            name: "nf-md-cog".into(),
            codepoint: 0xf0493,
        },
    ]
}

fn press_char(app: &mut App, c: char) {
    app.update(KeyEvent::new(KeyCode::Char(c), false), 24);
}

#[test]
fn highlight_indices_populated_for_name_match() {
    let g = fx();
    let mut app = App::new(&g);
    for c in "folder".chars() {
        press_char(&mut app, c);
    }
    let hit = app
        .items
        .iter()
        .find(|h: &&Hit| h.glyph_idx == 0)
        .expect("folder must hit cod");
    assert!(!hit.name_indices.is_empty());
}

#[test]
fn name_spans_includes_all_chars_when_all_match() {
    let spans = name_spans("abcdef", &[0, 1, 2, 3, 4, 5]);
    let joined: String = spans.iter().map(|s| s.content.clone()).collect();
    assert_eq!(joined, "abcdef");
    assert_eq!(spans.len(), 1);
}

#[test]
fn name_spans_merges_consecutive_inactive_chars() {
    let spans = name_spans("aBcdD", &[0, 4]);
    let joined: String = spans.iter().map(|s| s.content.clone()).collect();
    assert_eq!(joined, "aBcdD");
    assert_eq!(spans.len(), 3);
    assert_eq!(spans[0].content, "a");
    assert_eq!(spans[1].content, "Bcd");
    assert_eq!(spans[2].content, "D");
}

#[test]
fn name_spans_runs_for_all_inactive() {
    let spans = name_spans("abcdef", &[]);
    assert_eq!(spans.len(), 1);
    assert_eq!(spans[0].content, "abcdef");
}

#[test]
fn name_spans_mark_runs_and_ignore_out_of_range() {
    let spans = name_spans("héllo", &[1, 2, 2, 99]);
    let parts: Vec<(String, bool)> =
        spans.iter().map(|s| (s.content.clone(), s.highlighted)).collect();
    assert_eq!(
        parts,
        vec![("h".to_string(), false), ("él".to_string(), true), ("lo".to_string(), false)]
    );
    assert!(name_spans("", &[0]).is_empty());
}

#[test]
fn aliases_summary_fits_or_is_cut() {
    assert_eq!(aliases_summary(&[], 10), "-");
    let a = vec!["left hard divider".to_string()];
    assert_eq!(aliases_summary(&a, 40), "left hard divider");
    assert_eq!(aliases_summary(&a, 17), "left hard divider");
    assert_eq!(aliases_summary(&a, 8), "left ha\u{2026}");
    assert_eq!(aliases_summary(&a, 0), "\u{2026}");
    let two = vec!["cogs".to_string(), "settings".to_string()];
    assert_eq!(aliases_summary(&two, 40), "cogs, settings");
}

#[test]
fn preview_lines_for_a_glyph() {
    let g = Glyph { name: "nf-cod-folder".into(), codepoint: 0xf07d };
    let p = preview(&g, 30);
    assert_eq!(p.display, "\u{f07d}");
    assert_eq!(p.set_line, "set:  cod (folder)");
    assert_eq!(p.hex_line, "hex:  0xf07d");
    assert_eq!(p.esc_line, "esc:  \\u{f07d}");
    let bad = Glyph { name: "nf-x-".into(), codepoint: 0xdfff };
    let p = preview(&bad, 30);
    assert_eq!(p.display, "<none>");
    assert_eq!(p.set_line, "set:  x (-)");
    assert_eq!(p.esc_line, "esc:  ");
}

#[test]
fn row_heads() {
    assert_eq!(row_head(&Glyph { name: "nf-a-b".into(), codepoint: 0x41 }), "A ");
    assert_eq!(row_head(&Glyph { name: "nf-a-b".into(), codepoint: 0xd800 }), "  ");
}

#[test]
fn footer_count_pads_both_numbers() {
    assert_eq!(footer_count(0, 0), "    0/0   ");
    assert_eq!(footer_count(2, 4), "    3/4   ");
    assert_eq!(footer_count(12344, 123456), " 12345/123456");
}

#[test]
fn footer_badge_names_the_mode() {
    assert_eq!(output_badge(OutputMode::Hex), "OUTPUT: hex \u{2192} ");
    assert_eq!(output_badge(OutputMode::Char), "OUTPUT: char \u{2192} ");
}

#[test]
fn list_window_clamps_to_the_list() {
    assert_eq!(list_window(0, 0, 4, 16), (0, 4, Some(0)));
    assert_eq!(list_window(10, 12, 30, 5), (10, 15, Some(2)));
    assert_eq!(list_window(10, 2, 30, 5), (10, 15, None));
    assert_eq!(list_window(50, 0, 30, 5), (30, 30, None));
    assert_eq!(list_window(0, 0, 0, 5), (0, 0, None));
}

#[test]
fn output_badge_after_ctrl_y() {
    let g = fx();
    let mut app = App::new(&g);
    app.update(KeyEvent::new(KeyCode::Char('y'), true), 24);
    let badge = output_badge(app.output_mode);
    assert!(badge.contains("esc"), "badge was: {badge}");
    assert!(badge.contains("OUTPUT:"), "badge was: {badge}");
}
