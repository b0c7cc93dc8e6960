use glyphr::glyph::Glyph;
use glyphr::matcher::{best_score, filter, rank, rank_scores, split_query, FuzzyMatcher, Scored};

fn fx() -> Vec<Glyph> {
    vec![
        Glyph {
            name: "nf-cod-folder".into(),
            codepoint: 0xf07d,
        },
        Glyph {
            name: "nf-fa-cogs".into(),
            codepoint: 0xf085,
        },
        Glyph {
            name: "nf-dev-github".into(),
            codepoint: 0xe70e,
        },
        Glyph {
            name: "nf-md-cog".into(),
            codepoint: 0xf0493,
        },
    ]
}

fn fresh() -> FuzzyMatcher {
    FuzzyMatcher::new()
}

#[test]
fn empty_returns_all() {
    let v = filter(&fx(), "", &mut fresh());
    assert_eq!(v.len(), 4);
    assert!(v.iter().all(|h| h.name_indices.is_empty()));
}

#[test]
fn whitespace_returns_all() {
    let v = filter(&fx(), "   ", &mut fresh());
    assert_eq!(v.len(), 4);
}

#[test]
fn name_match_findable() {
    let v = filter(&fx(), "folder", &mut fresh());
    let idxs: Vec<usize> = v.iter().map(|h| h.glyph_idx).collect();
    assert!(idxs.contains(&0), "{idxs:?}");
}

#[test]
fn codepoint_match_findable() {
    let g = &fx()[0];
    let hex = format!("{:x}", g.codepoint).to_ascii_lowercase();
    let v = filter(&fx(), &hex, &mut fresh());
    assert!(v.iter().any(|h| h.glyph_idx == 0));
}

#[test]
fn alias_match_findable() {
    let v = filter(&fx(), "github", &mut fresh());
    assert!(v.iter().any(|h| h.glyph_idx == 2));
}

#[test]
fn no_match_returns_empty() {
    let v = filter(&fx(), "zzzznotathing", &mut fresh());
    assert!(v.is_empty());
}

#[test]
fn match_highlight_in_name() {
    let v = filter(&fx(), "folder", &mut fresh());
    let hit = v.iter().find(|h| h.glyph_idx == 0).unwrap();
    let max = fx()[0].name.chars().count();
    assert!(hit.name_indices.iter().all(|&i| (i as usize) < max));
    for &i in &hit.name_indices {
        let c = fx()[0].name.chars().nth(i as usize).unwrap();
        assert!(
            "folder".contains(c),
            "index {i} -> {c:?} not in 'folder'",
        );
    }
}

#[test]
fn split_query_recognizes_set_prefix() {
    assert_eq!(split_query("md>folder"), (Some("md".into()), "folder".into()));
    assert_eq!(split_query("  fa >  cog  "), (Some("fa".into()), "cog".into()));
    assert_eq!(split_query(">folder"), (None, "folder".into()));
    assert_eq!(split_query("md>"), (Some("md".into()), "".into()));
    assert_eq!(split_query("folder"), (None, "folder".into()));
    assert_eq!(split_query(""), (None, "".into()));
}

#[test]
fn set_prefix_restricts_candidates() {
    let v = filter(&fx(), "md>", &mut fresh());
    let idxs: Vec<usize> = v.iter().map(|h| h.glyph_idx).collect();
    assert_eq!(idxs, vec![3]);

    let v = filter(&fx(), "md>cog", &mut fresh());
    let idxs: Vec<usize> = v.iter().map(|h| h.glyph_idx).collect();
    assert_eq!(idxs, vec![3]);
    let hit = &v[0];
    for &i in &hit.name_indices {
        let c = fx()[3].name.chars().nth(i as usize).unwrap();
        assert!("cog".contains(c), "index {i} -> {c:?} not in 'cog'");
    }
}

#[test]
fn set_prefix_starts_with_match() {
    let g = vec![Glyph {
        name: "nf-seti-folder".into(),
        codepoint: 0xe7eb,
    }];
    let v = filter(&g, "set>folder", &mut fresh());
    assert!(v.iter().any(|h| h.glyph_idx == 0));
}

#[test]
fn unmatched_set_prefix_is_empty() {
    let v = filter(&fx(), "pl>folder", &mut fresh());
    assert!(v.is_empty());
}

#[test]
fn split_query_lowers_only_the_prefix_and_splits_at_the_first_marker() {
    assert_eq!(split_query("MD>Folder"), (Some("md".into()), "Folder".into()));
    assert_eq!(split_query("a>b>c"), (Some("a".into()), "b>c".into()));
    assert_eq!(split_query("\u{3000}x\u{a0}"), (None, "x".into()));
    assert_eq!(split_query("  >  "), (None, "".into()));
}

#[test]
fn prefix_is_case_insensitive_against_the_set() {
    let g = vec![Glyph { name: "nf-MD-cog".into(), codepoint: 0xf0493 }];
    let v = filter(&g, "md>", &mut fresh());
    assert_eq!(v.iter().map(|h| h.glyph_idx).collect::<Vec<_>>(), vec![0]);
}

#[test]
fn best_score_takes_the_largest() {
    assert_eq!(best_score(&vec![]), None);
    assert_eq!(best_score(&vec![None, None]), None);
    assert_eq!(best_score(&vec![None, Some(3), Some(7), Some(5)]), Some(7));
    assert_eq!(best_score(&vec![Some(0)]), Some(0));
}

fn scored(i: usize, score: u32) -> Scored {
    Scored { glyph_idx: i, score }
}

#[test]
fn rank_orders_by_score_then_length_then_name() {
    let g = vec![
        Glyph { name: "nf-b-bb".into(), codepoint: 1 },
        Glyph { name: "nf-a-a".into(), codepoint: 2 },
        Glyph { name: "nf-a-b".into(), codepoint: 3 },
        Glyph { name: "nf-a-b".into(), codepoint: 4 },
        Glyph { name: "nf-z".into(), codepoint: 5 },
    ];
    let ranked = rank(
        &g,
        vec![scored(0, 10), scored(1, 10), scored(2, 10), scored(3, 10), scored(4, 20)],
    );
    let order: Vec<usize> = ranked.iter().map(|h| h.glyph_idx).collect();
    // Highest score first; then the shorter names; then by name; equal names by index.
    assert_eq!(order, vec![4, 1, 2, 3, 0]);
    // Each entry keeps its own score.
    assert!(ranked.iter().all(|h| h.score == if h.glyph_idx == 4 { 20 } else { 10 }));
}

#[test]
fn rank_of_nothing_is_empty() {
    let hits = rank(&fx(), vec![]);
    assert!(hits.is_empty());
}

#[test]
fn filter_ranks_best_match_first() {
    let v = filter(&fx(), "cog", &mut fresh());
    let idxs: Vec<usize> = v.iter().map(|h| h.glyph_idx).collect();
    assert!(idxs.contains(&1) && idxs.contains(&3), "{idxs:?}");
    assert!(!idxs.contains(&2), "{idxs:?}");
}

#[test]
fn rank_scores_lists_glyphs_with_a_score() {
    let g = fx();
    // Glyph 0 scores 5 at best, glyph 1 nothing, glyph 2 scores 9, glyph 3 scores 5.
    let scores = vec![
        vec![Some(5), None],
        vec![None, None],
        vec![Some(1), Some(9)],
        vec![None, Some(5)],
    ];
    let marks = vec![vec![0, 1], vec![], vec![2], vec![3, 4]];
    let hits = rank_scores(&g, &scores, &marks);
    let order: Vec<usize> = hits.iter().map(|h| h.glyph_idx).collect();
    // 9 first; the two fives by name length ("nf-md-cog" is shorter).
    assert_eq!(order, vec![2, 3, 0]);
    assert_eq!(hits[0].name_indices, vec![2]);
    assert_eq!(hits[1].name_indices, vec![3, 4]);
    assert_eq!(hits[2].name_indices, vec![0, 1]);
}

#[test]
fn rank_scores_with_no_scores_is_empty() {
    let g = fx();
    let scores = vec![vec![], vec![None], vec![None, None], vec![]];
    let marks = vec![vec![], vec![], vec![], vec![]];
    assert!(rank_scores(&g, &scores, &marks).is_empty());
}

#[test]
fn filter_lists_each_scoring_glyph_once() {
    let v = filter(&fx(), "nf", &mut fresh());
    let mut idxs: Vec<usize> = v.iter().map(|h| h.glyph_idx).collect();
    idxs.sort();
    assert_eq!(idxs, vec![0, 1, 2, 3]);
}

#[test]
fn long_needle_against_long_name_is_not_scored() {
    // Both are over 2520 characters: nucleo's u16 score could overflow, so the glyph is left unscored.
    let long = "a".repeat(3000);
    let g = vec![Glyph { name: format!("nf-x-{long}"), codepoint: 0x41 }];
    let v = filter(&g, &long, &mut fresh());
    assert!(v.is_empty());
}

#[test]
fn needle_within_the_score_limit_is_scored() {
    // 2100 matched characters keep nucleo's u16 score in range: the glyph is listed.
    let long = "a".repeat(2100);
    let g = vec![Glyph { name: format!("nf-x-{long}"), codepoint: 0x41 }];
    let v = filter(&g, &long, &mut fresh());
    assert_eq!(v.len(), 1);
    assert_eq!(v[0].glyph_idx, 0);
    assert!(!v[0].name_indices.is_empty());
    assert!(v[0].name_indices.iter().all(|&i| (i as usize) < g[0].name.chars().count()));
}

#[test]
fn long_needle_against_short_names_lists_nothing() {
    let v = filter(&fx(), &"a".repeat(3000), &mut fresh());
    assert!(v.is_empty());
}

#[test]
fn typing_then_backspace_restores_the_list() {
    let g = fx();
    let before: Vec<usize> = filter(&g, "co", &mut fresh()).iter().map(|h| h.glyph_idx).collect();
    let after: Vec<usize> = filter(&g, "co", &mut fresh()).iter().map(|h| h.glyph_idx).collect();
    let typed: Vec<usize> = filter(&g, "cog", &mut fresh()).iter().map(|h| h.glyph_idx).collect();
    assert_eq!(before, after);
    assert_ne!(before, typed);
}
