use licensefinder::discriminator::{train, LicenseCorpus};
use licensefinder::matcher::{is_covered, match_licenses, InputCorpus};
use licensefinder::ngram::NGram;
use licensefinder::store::{load_data, save_data, StoredEntry, NGRAM_SIZE};
use licensefinder::text::get_ngrams;

fn corpus(file: &str, text: &str) -> LicenseCorpus {
    LicenseCorpus { file: file.to_string(), ngrams: get_ngrams(text, NGRAM_SIZE).unwrap() }
}

fn tokens_of(g: &NGram) -> Vec<String> {
    g.elements.obj.clone()
}

fn loaded(cs: &Vec<LicenseCorpus>) -> Vec<InputCorpus> {
    let t = train(cs).unwrap();
    load_data(&save_data(cs, &t).unwrap()).unwrap()
}

fn scan(ls: &Vec<InputCorpus>, text: &str) -> Vec<String> {
    match_licenses(ls, &get_ngrams(text, NGRAM_SIZE).unwrap())
}

const MIT: &str = "Permission is hereby granted free of charge to any person obtaining a copy of this software";
const A: &str = "alpha beta gamma delta epsilon zeta eta theta iota kappa";
const B: &str = "one two three four five six seven eight nine ten";

#[test]
fn single_license_trains_and_matches_itself() {
    let cs = vec![corpus("licenses/MIT.txt", MIT)];
    let t = train(&cs).unwrap();
    assert_eq!(t.len(), 1);
    assert!(t[0].ngrams.len() >= 3);
    assert_eq!(t[0].level, 1);
    let ls = loaded(&cs);
    assert_eq!(ls[0].file, "MIT");
    assert_eq!(scan(&ls, MIT), vec!["MIT".to_string()]);
}

#[test]
fn two_distinct_licenses_finish_in_first_round() {
    let cs = vec![corpus("A.txt", A), corpus("B.txt", B)];
    let t = train(&cs).unwrap();
    assert_eq!(t.len(), 2);
    for f in &t {
        assert!(f.ngrams.len() >= 3);
        assert_eq!(f.level, 1);
    }
    for g in &t[0].ngrams {
        for h in &t[1].ngrams {
            assert_ne!(tokens_of(g), tokens_of(h));
        }
    }
    for (i, f) in t.iter().enumerate() {
        for g in &f.ngrams {
            assert!(cs[i].ngrams.iter().any(|x| x.same_tokens(g)));
            assert!(!cs[1 - i].ngrams.iter().any(|x| x.same_tokens(g)));
        }
    }
}

#[test]
fn identical_texts_are_not_discriminable() {
    let cs = vec![corpus("X.txt", A), corpus("Y.txt", A)];
    let err = train(&cs).err().unwrap();
    assert!(err.contains(&"X.txt".to_string()));
    assert!(err.contains(&"Y.txt".to_string()));
}

#[test]
fn texts_equal_after_normalization_are_not_discriminable() {
    let cs = vec![corpus("X.txt", A), corpus("Y.txt", &format!("{} <YEAR>\n", A.replace(' ', "  ")))];
    let err = train(&cs).err().unwrap();
    assert_eq!(err.len(), 2);
}

#[test]
fn too_short_text_stalls() {
    let cs = vec![corpus("A.txt", A), corpus("S.txt", "only four tokens here")];
    assert_eq!(train(&cs).err().unwrap(), vec!["S.txt".to_string()]);
}

#[test]
fn empty_training_set_gives_empty_table() {
    assert!(train(&Vec::new()).unwrap().is_empty());
}

#[test]
fn shared_text_is_freed_once_a_license_is_finished() {
    // C holds all of A plus two words: its only own n-grams are the last two.
    let c_text = format!("{} lambda mu", A);
    let cs = vec![corpus("A.txt", A), corpus("C.txt", &c_text)];
    // A has no n-gram of its own, C has two: nobody finishes in round one.
    assert_eq!(train(&cs).err().unwrap().len(), 2);
    // A2 finishes in round one; the n-grams it shared with C are handed to C
    // only in the next round, which therefore finishes nobody.
    let cs2 = vec![corpus("A.txt", &format!("{} omega psi chi", A)), corpus("C.txt", &c_text)];
    assert_eq!(train(&cs2).err().unwrap(), vec!["C.txt".to_string()]);
}

#[test]
fn embedded_license_is_found() {
    let cs = vec![corpus("A.txt", A), corpus("B.txt", B)];
    let ls = loaded(&cs);
    let text = format!("some prologue words here\n{}\nand an epilogue too", A);
    assert_eq!(scan(&ls, &text), vec!["A".to_string()]);
}

#[test]
fn placeholder_in_reference_is_tolerated() {
    let reference = "Copyright <YEAR> <OWNER> rights reserved to bearer hereby granted to use copy modify";
    let cs = vec![corpus("R.txt", reference), corpus("B.txt", B)];
    let ls = loaded(&cs);
    let candidate = "Copyright <2023> ____ <HOLDER> rights reserved to bearer hereby granted to use copy modify";
    assert_eq!(scan(&ls, candidate), vec!["R".to_string()]);
}

#[test]
fn a_year_in_place_of_a_placeholder_stays_a_token() {
    let reference = "Copyright <YEAR> <OWNER> rights reserved to bearer hereby granted to use copy modify";
    let cs = vec![corpus("R.txt", reference), corpus("B.txt", B)];
    let ls = loaded(&cs);
    let candidate = "Copyright 2023 rights reserved to bearer hereby granted to use copy modify";
    assert!(scan(&ls, candidate).is_empty());
}

#[test]
fn unrelated_prose_matches_nothing() {
    let cs = vec![corpus("MIT.txt", MIT), corpus("A.txt", A), corpus("B.txt", B)];
    let ls = loaded(&cs);
    let prose = "It was the best of times, it was the worst of times, it was the age of wisdom, \
        it was the age of foolishness, it was the epoch of belief, it was the epoch of incredulity, \
        it was the season of Light, it was the season of Darkness, it was the spring of hope, \
        it was the winter of despair, we had everything before us, we had nothing before us, \
        we were all going direct to Heaven, we were all going direct the other way - in short, \
        the period was so far like the present period, that some of its noisiest authorities \
        insisted on its being received, for good or for evil, in the superlative degree of \
        comparison only.";
    assert!(scan(&ls, prose).is_empty());
}

#[test]
fn matcher_reports_every_covered_license_in_order() {
    let cs = vec![corpus("A.txt", A), corpus("B.txt", B)];
    let ls = loaded(&cs);
    let both = format!("{} {}", B, A);
    assert_eq!(scan(&ls, &both), vec!["A".to_string(), "B".to_string()]);
    assert!(is_covered(&ls[0], &get_ngrams(A, NGRAM_SIZE).unwrap()));
    assert!(!is_covered(&ls[0], &get_ngrams(B, NGRAM_SIZE).unwrap()));
}

#[test]
fn save_names_entries_by_stem() {
    let cs = vec![corpus("/data/GPL-2.0.txt", A), corpus("data/BSD", B)];
    let t = train(&cs).unwrap();
    let s = save_data(&cs, &t).unwrap();
    assert_eq!(s[0].name, "GPL-2.0");
    assert_eq!(s[1].name, "BSD");
    assert_eq!(s[0].level, t[0].level);
    assert_eq!(s[0].ngrams.len(), t[0].ngrams.len());
    assert_eq!(s[0].ngrams[0], tokens_of(&t[0].ngrams[0]));
    let cs2 = vec![corpus("/", A)];
    let t2 = train(&cs2).unwrap();
    assert!(save_data(&cs2, &t2).is_none());
}

fn entry(name: &str, level: u64, width: usize) -> StoredEntry {
    let g: Vec<String> = (0..width).map(|i| format!("w{}", i)).collect();
    StoredEntry { name: name.to_string(), level, ngrams: vec![g.clone(), g] }
}

#[test]
fn load_orders_by_level_keeping_ties() {
    let input = vec![entry("c", 3, 7), entry("a", 1, 7), entry("b", 3, 7), entry("d", 2, 7)];
    let v = load_data(&input).unwrap();
    let names: Vec<&str> = v.iter().map(|x| x.file.as_str()).collect();
    assert_eq!(names, vec!["a", "d", "c", "b"]);
    assert_eq!(v[0].ngrams.len(), 2);
    assert_eq!(v[0].ngrams[0].size, 7);
}

#[test]
fn load_rejects_wrong_width() {
    let input = vec![entry("ok", 1, 7), entry("bad", 2, 6)];
    assert_eq!(load_data(&input).err().unwrap(), "bad");
    assert!(load_data(&Vec::new()).unwrap().is_empty());
}

#[test]
fn fingerprint_may_reuse_text_of_a_license_finished_earlier() {
    // S is shared; X finishes in round one and drops out of S's owners, so Y
    // completes its fingerprint with S in round two.
    let s7 = "s1 s2 s3 s4 s5 s6 s7";
    let x = format!("x1 x2 x3 {}", s7);
    let y = format!("{} y1 y2", s7);
    let cs = vec![corpus("X.txt", &x), corpus("Y.txt", &y)];
    let t = train(&cs).unwrap();
    assert_eq!(t[0].level, 1);
    assert_eq!(t[1].level, 2);
    assert!(t[1].ngrams.iter().any(|g| tokens_of(g) == vec!["s1", "s2", "s3", "s4", "s5", "s6", "s7"]));
    for g in &t[0].ngrams {
        assert!(!cs[1].ngrams.iter().any(|h| h.same_tokens(g)));
    }
}

#[test]
fn fingerprint_ngrams_are_distinct() {
    let cs = vec![corpus("MIT.txt", MIT), corpus("A.txt", A), corpus("B.txt", B)];
    let t = train(&cs).unwrap();
    for f in &t {
        for i in 0..f.ngrams.len() {
            for j in 0..f.ngrams.len() {
                if i != j {
                    assert!(!f.ngrams[i].same_tokens(&f.ngrams[j]));
                }
            }
        }
        assert!(f.level >= 1 && f.level as usize <= cs.len());
    }
}

#[test]
fn no_license_with_three_own_ngrams_fails_naming_all() {
    let cs = vec![corpus("P.txt", "a b c d e f g h"), corpus("Q.txt", "z y x w v u t s")];
    let err = train(&cs).err().unwrap();
    assert_eq!(err, vec!["P.txt".to_string(), "Q.txt".to_string()]);
}

#[test]
fn repeated_stem_is_refused_on_save() {
    let cs = vec![corpus("lic/MIT.txt", A), corpus("lic/MIT.md", B)];
    let t = train(&cs).unwrap();
    assert!(save_data(&cs, &t).is_none());
}

#[test]
fn repeated_name_is_refused_on_load() {
    let input = vec![entry("MIT", 1, 7), entry("BSD", 1, 7), entry("MIT", 2, 7)];
    assert_eq!(load_data(&input).err().unwrap(), "MIT");
}

#[test]
fn loaded_ngrams_have_their_width_as_size() {
    let cs = vec![corpus("A.txt", A), corpus("B.txt", B)];
    let ls = loaded(&cs);
    for l in &ls {
        for g in &l.ngrams {
            assert_eq!(g.size, NGRAM_SIZE);
        }
    }
}
