use licensefinder::ngram::{ngrams_of, HashableVec, NGram};
use licensefinder::store::NGRAM_SIZE;
use licensefinder::text::{get_ngrams, join_tokens, normalize, normalized_tokens, split_tokens};

fn words(s: &str) -> Vec<String> {
    s.split(' ').filter(|w| !w.is_empty()).map(String::from).collect()
}

#[test]
fn ngram_new_keeps_tokens_and_size() {
    let g = NGram::new(&words("a b c"));
    assert_eq!(g.size, 3);
    assert_eq!(g.elements.obj, words("a b c"));
    assert_eq!(HashableVec::new(words("x y")).obj, words("x y"));
}

#[test]
fn same_tokens_compares_positions() {
    let a = NGram::new(&words("a b c"));
    let b = NGram::new(&words("a b c"));
    let c = NGram::new(&words("a c b"));
    assert!(a.same_tokens(&b));
    assert!(!a.same_tokens(&c));
    assert!(a.duplicate().same_tokens(&a));
}

#[test]
fn fewer_tokens_than_width_give_no_ngram() {
    assert!(ngrams_of(&words("one two three four five six"), NGRAM_SIZE).is_empty());
    assert!(ngrams_of(&Vec::new(), NGRAM_SIZE).is_empty());
}

#[test]
fn exactly_width_tokens_give_one_ngram() {
    let r = ngrams_of(&words("one two three four five six seven"), NGRAM_SIZE);
    assert_eq!(r.len(), 1);
    assert_eq!(r[0].size, NGRAM_SIZE);
    assert_eq!(r[0].elements.obj, words("one two three four five six seven"));
}

#[test]
fn windows_slide_by_one_token() {
    let r = ngrams_of(&words("a b c d e f g h i j"), NGRAM_SIZE);
    assert_eq!(r.len(), 4);
    assert_eq!(r[3].elements.obj, words("d e f g h i j"));
    let r2 = ngrams_of(&words("a b c"), 2);
    assert_eq!(r2.len(), 2);
    assert_eq!(r2[1].elements.obj, words("b c"));
}

#[test]
fn split_drops_empty_pieces() {
    assert_eq!(split_tokens("  a  b c "), words("a b c"));
    assert!(split_tokens("").is_empty());
    assert!(split_tokens("   ").is_empty());
}

#[test]
fn join_uses_single_spaces() {
    assert_eq!(join_tokens(&words("a b c")), "a b c");
    assert_eq!(join_tokens(&Vec::new()), "");
}

#[test]
fn normalize_collapses_blanks_and_newlines() {
    assert_eq!(normalize("a\n\nb\t\tc\r d\x0B e").unwrap(), "a b c d e");
}

#[test]
fn normalize_removes_placeholders_and_underscore_runs() {
    assert_eq!(normalize("Copyright <YEAR> <OWNER> all").unwrap(), "Copyright all");
    assert_eq!(normalize("Signed: ______ here _ x").unwrap(), "Signed: here _ x");
    assert_eq!(normalize("a <> b").unwrap(), "a b");
    assert_eq!(normalize("a <two words> b").unwrap(), "a <two words> b");
}

#[test]
fn normalize_is_idempotent_on_samples() {
    for s in [
        "Copyright <YEAR> <OWNER>\n\n  Permission   is ____ granted",
        "<a> __<b>__ c",
        "",
        "x\ty\r\nz",
    ] {
        let once = normalize(s).unwrap();
        assert_eq!(normalize(&once).unwrap(), once);
    }
}

#[test]
fn normalizing_again_can_remove_a_nested_placeholder() {
    let once = normalize("<<a>> c").unwrap();
    assert_eq!(once, "<> c");
    assert_eq!(normalize(&once).unwrap(), "c");
}

#[test]
fn normalized_tokens_of_template() {
    assert_eq!(normalized_tokens("The <NAME> license\n____\nv2").unwrap(), words("The license v2"));
}

#[test]
fn get_ngrams_of_short_and_exact_text() {
    assert!(get_ngrams("one two three four five six", NGRAM_SIZE).unwrap().is_empty());
    let r = get_ngrams("one  two\nthree <X> four five six seven", NGRAM_SIZE).unwrap();
    assert_eq!(r.len(), 1);
    assert_eq!(r[0].elements.obj, words("one two three four five six seven"));
}

#[test]
fn placeholders_hold_ascii_word_characters_only() {
    assert_eq!(normalize("a <Año> b <x_9> c").unwrap(), "a <Año> b c");
}
