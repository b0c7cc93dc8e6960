use glyphr::app::{Action, App, KeyCode, KeyEvent, OutputMode};
use glyphr::glyph::Glyph;

fn fx() -> Vec<Glyph> {
    vec![
        Glyph {
            name: "nf-cod-folder".into(),
            codepoint: 0xf07d,
        },
        Glyph {
            name: "nf-fa-cogs".into(),
            codepoint: 0xf085,
        },
        Glyph {
            name: "nf-dev-github".into(),
            codepoint: 0xe70e,
        },
        Glyph {
            name: "nf-md-cog".into(),
            codepoint: 0xf0493,
        },
    ]
}

/// A key press; `ctrl` says whether Control was held.
fn key(code: KeyCode, ctrl: bool) -> KeyEvent {
    KeyEvent::new(code, ctrl)
}

const NONE: bool = false;
const CONTROL: bool = true;

fn items_idx(app: &App<'_>) -> Vec<usize> {
    app.items.iter().map(|h| h.glyph_idx).collect()
}

#[test]
fn enter_selects_highlighted() {
    let g = fx();
    let mut app = App::new(&g);
    app.update(key(KeyCode::Down, NONE), 24);
    app.update(key(KeyCode::Down, NONE), 24);
    let act = app.update(key(KeyCode::Enter, NONE), 24);
    match act {
        Action::Quit(idx) => assert_eq!(idx, app.items[2].glyph_idx),
        other => panic!("expected Quit, got {other:?}"),
    }
}

#[test]
fn esc_cancels() {
    let g = fx();
    let mut app = App::new(&g);
    let act = app.update(key(KeyCode::Esc, NONE), 24);
    assert!(matches!(act, Action::Cancel));
}

#[test]
fn ctrl_c_cancels() {
    let g = fx();
    let mut app = App::new(&g);
    let act = app.update(key(KeyCode::Char('c'), CONTROL), 24);
    assert!(matches!(act, Action::Cancel));
}

#[test]
fn typing_filters_then_selects() {
    let g = fx();
    let mut app = App::new(&g);
    app.update(key(KeyCode::Char('f'), NONE), 24);
    app.update(key(KeyCode::Char('a'), NONE), 24);
    assert_eq!(items_idx(&app), vec![1]); // only nf-fa-cogs remains
    let act = app.update(key(KeyCode::Enter, NONE), 24);
    assert_eq!(g[1].codepoint, 0xf085);
    match act {
        Action::Quit(idx) => assert_eq!(idx, 1),
        other => panic!("expected Quit, got {other:?}"),
    }
}

#[test]
fn backspace_unfilters() {
    let g = fx();
    let mut app = App::new(&g);
    app.update(key(KeyCode::Char('c'), NONE), 24);
    app.update(key(KeyCode::Char('o'), NONE), 24);
    assert_eq!(items_idx(&app).len(), 3);
    app.update(key(KeyCode::Backspace, NONE), 24);
    app.update(key(KeyCode::Backspace, NONE), 24);
    assert_eq!(items_idx(&app).len(), g.len());
}

#[test]
fn enter_with_no_match_continues() {
    let g = fx();
    let mut app = App::new(&g);
    app.update(key(KeyCode::Char('z'), NONE), 24);
    app.update(key(KeyCode::Char('z'), NONE), 24);
    assert!(app.items.is_empty());
    let act = app.update(key(KeyCode::Enter, NONE), 24);
    assert!(matches!(act, Action::Continue));
}

#[test]
fn cursor_does_not_overshoot() {
    let g = fx();
    let mut app = App::new(&g);
    for _ in 0..20 {
        app.update(key(KeyCode::Down, NONE), 24);
    }
    assert_eq!(app.cursor, g.len() - 1);
}

#[test]
fn set_prefix_typing_filters() {
    let g = fx();
    let mut app = App::new(&g);
    for c in "md>".chars() {
        app.update(key(KeyCode::Char(c), NONE), 24);
    }
    assert_eq!(items_idx(&app), vec![3]);
}

#[test]
fn backspace_through_set_prefix() {
    let g = fx();
    let mut app = App::new(&g);
    for c in "md>".chars() {
        app.update(key(KeyCode::Char(c), NONE), 24);
    }
    assert_eq!(items_idx(&app), vec![3]);
    app.update(key(KeyCode::Backspace, NONE), 24);
    assert_eq!(app.query, "md");
    assert!(items_idx(&app).contains(&3));
    app.update(key(KeyCode::Backspace, NONE), 24);
    assert_eq!(app.query, "m");
    assert_eq!(items_idx(&app), vec![3]);
    app.update(key(KeyCode::Backspace, NONE), 24);
    assert_eq!(app.query, "");
    assert_eq!(items_idx(&app).len(), g.len());
}

#[test]
fn ctrl_y_cycles_output_mode() {
    let g = fx();
    let mut app = App::new(&g);
    assert_eq!(app.output_mode, OutputMode::Char);
    app.update(key(KeyCode::Char('y'), CONTROL), 24);
    assert_eq!(app.output_mode, OutputMode::Escape);
    app.update(key(KeyCode::Char('y'), CONTROL), 24);
    assert_eq!(app.output_mode, OutputMode::Name);
    app.update(key(KeyCode::Char('y'), CONTROL), 24);
    assert_eq!(app.output_mode, OutputMode::Hex);
    app.update(key(KeyCode::Char('y'), CONTROL), 24);
    assert_eq!(app.output_mode, OutputMode::Char);
}

#[test]
fn output_mode_next_wraps() {
    assert_eq!(OutputMode::Hex.next(), OutputMode::Char);
    assert_eq!(OutputMode::Char.next(), OutputMode::Escape);
}

#[test]
fn output_mode_cycles_in_four_steps() {
    for m in [OutputMode::Char, OutputMode::Escape, OutputMode::Name, OutputMode::Hex] {
        assert_ne!(m.next(), m);
        assert_eq!(m.next().next().next().next(), m);
    }
    assert_eq!(OutputMode::default(), OutputMode::Char);
}

#[test]
fn labels_name_each_mode() {
    assert_eq!(OutputMode::Char.label(), "char");
    assert_eq!(OutputMode::Escape.label(), "esc");
    assert_eq!(OutputMode::Name.label(), "name");
    assert_eq!(OutputMode::Hex.label(), "hex");
}

#[test]
fn render_each_mode() {
    let g = Glyph { name: "nf-md-cog".into(), codepoint: 0xf0493 };
    assert_eq!(OutputMode::Char.render(&g), "\u{f0493}");
    assert_eq!(OutputMode::Escape.render(&g), "\\u{f0493}");
    assert_eq!(OutputMode::Name.render(&g), "nf-md-cog");
    assert_eq!(OutputMode::Hex.render(&g), "0xf0493");
    let small = Glyph { name: "nf-x-y".into(), codepoint: 0x2a };
    assert_eq!(OutputMode::Hex.render(&small), "0x002a");
    let bad = Glyph { name: "nf-x-y".into(), codepoint: 0xd800 };
    assert_eq!(OutputMode::Char.render(&bad), "");
    assert_eq!(OutputMode::Escape.render(&bad), "");
    assert_eq!(OutputMode::Hex.render(&bad), "0xd800");
}

#[test]
fn new_lists_everything_from_the_top() {
    let g = fx();
    let app = App::new(&g);
    assert_eq!(items_idx(&app), vec![0, 1, 2, 3]);
    assert_eq!(app.cursor, 0);
    assert_eq!(app.scroll, 0);
    assert_eq!(app.query, "");
    assert_eq!(app.selected(), Some(0));
}

#[test]
fn typing_then_backspace_restores_the_query() {
    let g = fx();
    let mut app = App::new(&g);
    app.update(key(KeyCode::Char('g'), NONE), 24);
    assert_eq!(app.query, "g");
    app.update(key(KeyCode::Backspace, NONE), 24);
    assert_eq!(app.query, "");
    assert_eq!(items_idx(&app), vec![0, 1, 2, 3]);
    // Backspace on an empty query leaves it empty.
    app.update(key(KeyCode::Backspace, NONE), 24);
    assert_eq!(app.query, "");
}

#[test]
fn navigation_keys_move_and_scroll() {
    let g: Vec<Glyph> = (0..30u32)
        .map(|i| Glyph { name: format!("nf-x-g{i:02}"), codepoint: 0xe000 + i })
        .collect();
    let mut app = App::new(&g);
    // A 10-row terminal leaves 4 list rows.
    app.update(key(KeyCode::PageDown, NONE), 10);
    assert_eq!((app.cursor, app.scroll), (4, 1));
    app.update(key(KeyCode::End, NONE), 10);
    assert_eq!((app.cursor, app.scroll), (29, 26));
    app.update(key(KeyCode::PageUp, NONE), 10);
    assert_eq!((app.cursor, app.scroll), (25, 25));
    app.update(key(KeyCode::Up, NONE), 10);
    assert_eq!((app.cursor, app.scroll), (24, 24));
    app.update(key(KeyCode::Home, NONE), 10);
    assert_eq!((app.cursor, app.scroll), (0, 0));
    // A tiny terminal still shows one row.
    app.update(key(KeyCode::Down, NONE), 3);
    assert_eq!((app.cursor, app.scroll), (1, 1));
    // Up with Control held does nothing; plain `k` is typed.
    app.update(key(KeyCode::Up, CONTROL), 10);
    assert_eq!(app.cursor, 1);
    app.update(key(KeyCode::Char('k'), NONE), 10);
    assert_eq!(app.query, "k");
}

#[test]
fn control_characters_and_other_keys_do_nothing() {
    let g = fx();
    let mut app = App::new(&g);
    let act = app.update(key(KeyCode::Char('\u{7}'), NONE), 24);
    assert!(matches!(act, Action::Continue));
    assert_eq!(app.query, "");
    app.update(key(KeyCode::Char('x'), CONTROL), 24);
    assert_eq!(app.query, "");
    app.update(key(KeyCode::Other, NONE), 24);
    assert_eq!(app.query, "");
    assert_eq!(app.output_mode, OutputMode::Char);
}
