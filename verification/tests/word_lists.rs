use segmenter::words::{remove_duplicates, return_potential};

fn bytes(s: &str) -> Vec<u8> {
    s.as_bytes().to_vec()
}

fn lines(entries: &[&str]) -> Vec<Vec<u8>> {
    entries.iter().map(|e| bytes(e)).collect()
}

#[test]
fn return_potential_keeps_five_letter_cr_words() {
    let input = lines(&["crust", "CRoak", "cRazy", "cradle", "crab", "xxcry", "cr", ""]);
    let out = return_potential(input);
    assert_eq!(out, lines(&["crust", "CRoak", "cRazy"]));
}

#[test]
fn return_potential_of_empty_input_is_empty() {
    let out = return_potential(Vec::new());
    assert!(out.is_empty());
}

#[test]
fn return_potential_is_case_insensitive_on_the_prefix_only() {
    let input = lines(&["CRUST", "brUST", "crUST"]);
    let out = return_potential(input);
    assert_eq!(out, lines(&["CRUST", "crUST"]));
}

#[test]
fn remove_duplicates_keeps_first_seen_order() {
    let input = lines(&["a", "b", "a", "c", "b", "a"]);
    let out = remove_duplicates(input);
    assert_eq!(out, lines(&["a", "b", "c"]));
}

#[test]
fn remove_duplicates_is_case_sensitive() {
    let input = lines(&["crust", "Crust", "crust"]);
    let out = remove_duplicates(input);
    assert_eq!(out, lines(&["crust", "Crust"]));
}

#[test]
fn remove_duplicates_of_empty_input_is_empty() {
    let out = remove_duplicates(Vec::new());
    assert!(out.is_empty());
}
