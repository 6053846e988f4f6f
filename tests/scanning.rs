use licensefinder::discriminator::{train, LicenseCorpus};
use licensefinder::matcher::match_licenses;
use licensefinder::pathex::resolve_components;
use licensefinder::scan::ScanResults;
use licensefinder::ssdeep::{compare_output, hits_of, parse_score};
use licensefinder::store::{load_data, save_data, NGRAM_SIZE};
use licensefinder::text::get_ngrams;
use licensefinder::walk::{is_hidden_path, mime_admits};

fn parts(s: &str) -> Vec<String> {
    s.split('/').filter(|w| !w.is_empty()).map(String::from).collect()
}

#[test]
fn score_parsing() {
    assert_eq!(parse_score(&"85".to_string()), Some(85));
    assert_eq!(parse_score(&"0".to_string()), Some(0));
    assert_eq!(parse_score(&"4294967295".to_string()), Some(4294967295));
    assert_eq!(parse_score(&"4294967296".to_string()), None);
    assert_eq!(parse_score(&"".to_string()), None);
    assert_eq!(parse_score(&"7a".to_string()), None);
}

#[test]
fn comparison_keeps_hits_above_threshold() {
    let out = "\"/src/a.c\",\"/cache/MIT.txt\",90\n\"/src/b.c\",\"/cache/GPL.txt\",75\n\"/src/c.c\",\"/ref/BSD.txt\",76\n";
    let v = compare_output(out, 75).unwrap();
    assert_eq!(v.len(), 2);
    assert_eq!(v[0].file_a, "/src/a.c");
    assert_eq!(v[0].file_b, "MIT");
    assert_eq!(v[0].similarity, 90);
    assert_eq!(v[1].file_b, "BSD");
    assert!(compare_output("", 75).unwrap().is_empty());
}

#[test]
fn malformed_comparison_is_skipped() {
    assert!(compare_output("a,b\n", 75).is_none());
    assert!(compare_output("a,b,high\n", 75).is_none());
    assert!(compare_output("a,b,90\nc,d\n", 75).is_none());
}

#[test]
fn lexical_resolution_of_dots() {
    assert_eq!(resolve_components(&parts("home/u/./src/../lib")), parts("home/u/lib"));
    assert_eq!(resolve_components(&parts("../../a")), parts("a"));
    assert_eq!(resolve_components(&parts("a/b/..")), parts("a"));
    assert!(resolve_components(&Vec::new()).is_empty());
}

#[test]
fn results_keep_set_semantics() {
    let mut r = ScanResults::new();
    r.insert_one("/x".to_string(), "MIT".to_string());
    r.insert_one("/x".to_string(), "MIT".to_string());
    r.insert_one("/x".to_string(), "BSD".to_string());
    r.insert_one("/y".to_string(), "MIT".to_string());
    assert_eq!(r.entries.len(), 2);
    assert_eq!(r.entries[0].licenses, vec!["MIT".to_string(), "BSD".to_string()]);
    assert_eq!(r.entries[1].file, "/y");
}

#[test]
fn fuzzy_hit_adds_a_license_the_exact_pass_missed() {
    let reference = "alpha beta gamma delta epsilon zeta eta theta iota kappa";
    let other = "one two three four five six seven eight nine ten";
    let cs = vec![
        LicenseCorpus { file: "A.txt".to_string(), ngrams: get_ngrams(reference, NGRAM_SIZE).unwrap() },
        LicenseCorpus { file: "B.txt".to_string(), ngrams: get_ngrams(other, NGRAM_SIZE).unwrap() },
    ];
    let t = train(&cs).unwrap();
    let ls = load_data(&save_data(&cs, &t).unwrap()).unwrap();
    let edited = "alpha beta GAMMA delta epsilon zeta eta theta iota kappa";
    let mut results = ScanResults::new();
    for id in match_licenses(&ls, &get_ngrams(edited, NGRAM_SIZE).unwrap()) {
        results.insert_one("/scan/f.txt".to_string(), id);
    }
    assert!(results.entries.is_empty());
    for h in compare_output("/scan/f.txt,/cache/A.txt,88\n", 75).unwrap() {
        results.insert_one(h.file_a, h.file_b);
    }
    assert_eq!(results.entries.len(), 1);
    assert_eq!(results.entries[0].licenses, vec!["A".to_string()]);
}

#[test]
fn hidden_paths_are_recognised() {
    assert!(is_hidden_path("/src/.git/config"));
    assert!(is_hidden_path("./a/.hidden"));
    assert!(!is_hidden_path("/src/a.b/c"));
    assert!(!is_hidden_path("."));
    assert!(!is_hidden_path(""));
    assert!(!is_hidden_path("a/"));
}

#[test]
fn only_text_and_directories_are_walked() {
    assert!(mime_admits("text/plain; charset=us-ascii"));
    assert!(mime_admits("inode/directory; charset=binary"));
    assert!(!mime_admits("application/octet-stream; charset=binary"));
    assert!(!mime_admits("text"));
    assert!(!mime_admits(""));
}

#[test]
fn hits_of_records() {
    let rec = |a: &str, b: &str, c: &str| vec![a.to_string(), b.to_string(), c.to_string()];
    let v = hits_of(&vec![rec("/f", "/r/GPL.txt", "80"), rec("/g", "/r/MIT.txt", "10")], 75).unwrap();
    assert_eq!(v.len(), 1);
    assert_eq!(v[0].file_b, "GPL");
    assert_eq!(v[0].similarity, 80);
    assert!(hits_of(&vec![vec!["/f".to_string()]], 75).is_none());
    assert!(hits_of(&Vec::new(), 75).unwrap().is_empty());
}

#[test]
fn fuzzy_hits_join_exact_results() {
    let mut r = ScanResults::new();
    r.insert_one("/x".to_string(), "MIT".to_string());
    let hits = compare_output("/x,/ref/MIT.txt,90\n/x,/ref/BSD.txt,80\n/z,/ref/GPL.txt,99\n", 75).unwrap();
    r.add_hits(&hits);
    assert_eq!(r.entries.len(), 2);
    assert_eq!(r.entries[0].licenses, vec!["MIT".to_string(), "BSD".to_string()]);
    assert_eq!(r.entries[1].file, "/z");
    assert_eq!(r.entries[1].licenses, vec!["GPL".to_string()]);
}
