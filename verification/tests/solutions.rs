use segmenter::solution::{digit_count, filter_solution, Solution};

fn bytes(s: &str) -> Vec<u8> {
    s.as_bytes().to_vec()
}

#[test]
fn digit_count_boundaries() {
    assert_eq!(digit_count(0), 1);
    assert_eq!(digit_count(9), 1);
    assert_eq!(digit_count(10), 2);
    assert_eq!(digit_count(99), 2);
    assert_eq!(digit_count(100), 3);
    assert_eq!(digit_count(12345), 5);
}

#[test]
fn signature_is_summed_digit_counts() {
    let s = Solution::new(bytes("word"), vec![0]);
    assert_eq!(s.code_length, 1);
    let s = Solution::new(bytes("word"), vec![9, 10]);
    assert_eq!(s.code_length, 3);
    let s = Solution::new(bytes("word"), vec![100, 3, 23]);
    assert_eq!(s.code_length, 6);
    let s = Solution::new(bytes("word"), Vec::new());
    assert_eq!(s.code_length, 0);
}

#[test]
fn new_keeps_word_and_code() {
    let s = Solution::new(bytes("crust"), vec![23, 5]);
    assert_eq!(s.word, bytes("crust"));
    assert_eq!(s.code, vec![23, 5]);
    assert_eq!(s.code_length, 3);
}

#[test]
fn filter_keeps_signature_seven_first_index_23() {
    // 23 prints as two characters; 10, 11 as two; 5 as one: 2+2+2+1 == 7.
    let keep = Solution::new(bytes("alpha"), vec![23, 10, 11, 5]);
    // Signature 7 but the first index is not 23.
    let wrong_first = Solution::new(bytes("beta"), vec![22, 10, 11, 5]);
    // First index 23 but signature 6.
    let wrong_sig = Solution::new(bytes("gamma"), vec![23, 10, 11]);
    let out = filter_solution(vec![wrong_first, keep, wrong_sig]);
    assert_eq!(out.len(), 1);
    assert_eq!(out[0].word, bytes("alpha"));
    assert_eq!(out[0].code, vec![23, 10, 11, 5]);
}

#[test]
fn filter_keeps_input_order() {
    let a = Solution::new(bytes("one"), vec![23, 10, 11, 5]);
    let b = Solution::new(bytes("two"), vec![23, 99, 10, 7]);
    let c = Solution::new(bytes("three"), vec![23, 10, 11, 5]);
    let reject = Solution::new(bytes("four"), vec![0]);
    let out = filter_solution(vec![a, reject, b, c]);
    assert_eq!(out.len(), 3);
    assert_eq!(out[0].word, bytes("one"));
    assert_eq!(out[1].word, bytes("two"));
    assert_eq!(out[2].word, bytes("three"));
}

#[test]
fn filter_of_empty_input_is_empty() {
    let out = filter_solution(Vec::new());
    assert!(out.is_empty());
}

#[test]
fn filter_rejects_everything_else() {
    let empty_code = Solution::new(bytes("w"), Vec::new());
    let short = Solution::new(bytes("w"), vec![23]);
    let out = filter_solution(vec![empty_code, short]);
    assert!(out.is_empty());
}

#[test]
fn render_code_concatenates_one_based_indices() {
    // Indices 16 and 5 render as 17 then 6: "176".
    let s = Solution::new(bytes("w"), vec![16, 5]);
    assert_eq!(s.render_code(), bytes("176"));
    let s = Solution::new(bytes("w"), vec![0, 9, 10]);
    assert_eq!(s.render_code(), bytes("11011"));
}

#[test]
fn render_word_lower_cases() {
    let s = Solution::new(bytes("CRust"), vec![0]);
    assert_eq!(s.render_word(), bytes("crust"));
}
