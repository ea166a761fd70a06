use llm_tidy_lint::rust::items::ItemKind;
use llm_tidy_lint::rust::{contains_word, is_documentable};

#[test]
fn contains_word_should_match_when_framed_by_punctuation() {
    assert!(contains_word("see `name` here", "name"));
    assert!(contains_word("TODO: fix", "todo"));
    assert!(contains_word("x", "X"));
}

#[test]
fn contains_word_should_reject_matches_inside_longer_words() {
    assert!(!contains_word("filename", "name"));
    assert!(!contains_word("name_x", "name"));
    assert!(!contains_word("", "name"));
}

#[test]
fn contains_word_should_treat_unicode_letters_as_word_characters() {
    assert!(!contains_word("énamé", "nam"));
    assert!(contains_word("— name —", "name"));
}

#[test]
fn contains_word_should_resume_after_a_rejected_occurrence() {
    assert!(contains_word("names name", "name"));
}

#[test]
fn is_documentable_should_cover_value_and_type_items_only() {
    assert!(is_documentable(ItemKind::Fn));
    assert!(is_documentable(ItemKind::Static));
    assert!(is_documentable(ItemKind::Union));
    assert!(!is_documentable(ItemKind::Mod));
    assert!(!is_documentable(ItemKind::Impl));
    assert!(!is_documentable(ItemKind::Use));
}
