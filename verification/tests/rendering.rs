use synonyms::domain::{Synonyms, Word};
use synonyms::layout::{column_count, make_grid, merge_adjacent, render};

fn word(content: &str) -> Word {
    Word::new(content.to_string(), "q".to_string())
}

fn group(category: &str, contents: &[&str]) -> Synonyms {
    Synonyms {
        category: category.to_string(),
        words: contents.iter().map(|c| word(c)).collect(),
    }
}

#[test]
fn column_count_for_a_typical_terminal() {
    assert_eq!(column_count(80), 4);
}

#[test]
fn column_count_clamps_to_max() {
    assert_eq!(column_count(500), 12);
}

#[test]
fn column_count_never_drops_below_one() {
    assert_eq!(column_count(0), 1);
    assert_eq!(column_count(19), 1);
}

#[test]
fn adjacent_same_category_groups_merge() {
    let groups = vec![
        group("adj", &["a"]),
        group("adj", &["b"]),
        group("noun", &["c"]),
        group("adj", &["d"]),
    ];
    let merged = merge_adjacent(groups);
    let categories: Vec<&str> = merged.iter().map(|g| g.category.as_str()).collect();
    assert_eq!(categories, vec!["adj", "noun", "adj"]);
    let first: Vec<&str> = merged[0].words.iter().map(|w| w.content.as_str()).collect();
    assert_eq!(first, vec!["a", "b"]);
}

#[test]
fn rendering_merges_adjacent_blocks_only() {
    let groups = vec![
        group("adj", &["a"]),
        group("adj", &["b"]),
        group("noun", &["c"]),
        group("adj", &["d"]),
    ];
    let blocks = render(groups, 80);
    let headers: Vec<&str> = blocks.iter().map(|b| b.header.as_str()).collect();
    assert_eq!(headers, vec!["Category: adj", "Category: noun", "Category: adj"]);
}

#[test]
fn grid_has_ceiling_of_words_over_columns_rows() {
    let words: Vec<Word> = ["a", "b", "c", "d", "e"].iter().map(|c| word(c)).collect();
    let rows = make_grid(&words, 2);
    assert_eq!(rows.len(), 3);
    for row in &rows {
        assert_eq!(row.len(), 2);
    }
    assert_eq!(rows[0][0], words[0].get_printable());
    assert_eq!(rows[2][0], words[4].get_printable());
    assert_eq!(rows[2][1], "");
}

#[test]
fn exact_multiple_needs_no_padding() {
    let words: Vec<Word> = ["a", "b", "c", "d"].iter().map(|c| word(c)).collect();
    let rows = make_grid(&words, 2);
    assert_eq!(rows.len(), 2);
    assert_eq!(rows[1][1], words[3].get_printable());
}

#[test]
fn empty_group_renders_header_only() {
    let blocks = render(vec![group("adj", &[])], 80);
    assert_eq!(blocks.len(), 1);
    assert_eq!(blocks[0].header, "Category: adj");
    assert_eq!(blocks[0].rows.len(), 0);
}
