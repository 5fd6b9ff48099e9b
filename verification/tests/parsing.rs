use synonyms::domain::{get_words, Synonyms, Word};
use synonyms::request_handling::{ItemList, ResponseItem};

#[test]
fn correctly_parse_response_item() {
    let input = ResponseItem {
        list: ItemList {
            category: "(adj)".to_string(),
            synonyms: "potential|latent (similar term)|actual (antonym)".to_string(),
        },
    };
    let expected = vec![
        Word::new("potential".to_string(), "similar term".to_string()),
        Word::new("latent".to_string(), "similar term".to_string()),
        Word::new("actual".to_string(), "antonym".to_string()),
    ];
    let words = Synonyms::from(input);
    assert_eq!(&words.category, "adj");
    assert_eq!(words.words, expected);
}

#[test]
fn bare_tokens_yield_nothing() {
    assert_eq!(get_words("alpha|beta|gamma".to_string()), vec![]);
}

#[test]
fn empty_string_yields_nothing() {
    assert_eq!(get_words(String::new()), vec![]);
}

#[test]
fn shared_qualifier_groups_words() {
    let words = get_words("potential|latent (similar term)|actual (antonym)".to_string());
    let expected = vec![
        Word::new("potential".to_string(), "similar term".to_string()),
        Word::new("latent".to_string(), "similar term".to_string()),
        Word::new("actual".to_string(), "antonym".to_string()),
    ];
    assert_eq!(words, expected);
}

#[test]
fn qualifier_closes_only_the_recent_buffer() {
    let words = get_words("a (x)|b (x)".to_string());
    let expected = vec![
        Word::new("a".to_string(), "x".to_string()),
        Word::new("b".to_string(), "x".to_string()),
    ];
    assert_eq!(words, expected);
}

#[test]
fn all_closing_parens_are_stripped() {
    let words = get_words("foo (bar) baz)".to_string());
    let expected = vec![Word::new("foo".to_string(), "bar baz".to_string())];
    assert_eq!(words, expected);
}

#[test]
fn empty_head_still_takes_a_buffer_slot() {
    let words = get_words("a| (x)".to_string());
    let expected = vec![
        Word::new("a".to_string(), "x".to_string()),
        Word::new("".to_string(), "x".to_string()),
    ];
    assert_eq!(words, expected);
}

#[test]
fn trailing_bare_tokens_are_dropped() {
    let words = get_words("a (x)|b".to_string());
    let expected = vec![Word::new("a".to_string(), "x".to_string())];
    assert_eq!(words, expected);
}

#[test]
fn category_loses_all_parentheses() {
    let input = ResponseItem {
        list: ItemList { category: "(ad(j))".to_string(), synonyms: String::new() },
    };
    let group = Synonyms::from(input);
    assert_eq!(&group.category, "adj");
}

#[test]
fn printable_form_dims_the_description() {
    let word = Word::new("word".to_string(), "desc".to_string());
    assert_eq!(word.get_printable(), "word\n\u{1b}[2m(desc)\u{1b}[0m");
}
