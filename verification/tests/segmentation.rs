use segmenter::search::look_for_dict;
use segmenter::tree::Tree;

fn bytes(s: &str) -> Vec<u8> {
    s.as_bytes().to_vec()
}

fn dict(entries: &[&str]) -> Vec<Vec<u8>> {
    entries.iter().map(|e| bytes(e)).collect()
}

/// All complete segmentations of `word` from offset 0, in search order.
fn all_solutions(word: &str, d: &[&str]) -> Vec<Vec<usize>> {
    let w = bytes(word);
    let dv = dict(d);
    let mut out: Vec<Vec<usize>> = Vec::new();
    if let Some(trees) = look_for_dict(&w, &dv, 0) {
        for t in trees.iter() {
            out.append(&mut t.flatten());
        }
    }
    out
}

/// Concatenates the dictionary tokens named by `code`.
fn concat(d: &[&str], code: &[usize]) -> String {
    let mut s = String::new();
    for &i in code {
        s.push_str(d[i]);
    }
    s
}

#[test]
fn terminal_offset_yields_one_terminal_node() {
    let w = bytes("abc");
    let d = dict(&["a", "b"]);
    let trees = look_for_dict(&w, &d, 3).expect("end of word must succeed");
    assert_eq!(trees.len(), 1);
    assert!(trees[0].end);
    assert_eq!(trees[0].level, 3);
    let flat = trees[0].flatten();
    assert_eq!(flat, vec![Vec::<usize>::new()]);
}

#[test]
fn empty_word_at_offset_zero_is_terminal() {
    let w = bytes("");
    let d = dict(&["a", "b"]);
    let trees = look_for_dict(&w, &d, 0).expect("empty word is fully consumed");
    assert_eq!(trees.len(), 1);
    assert!(trees[0].end);
}

#[test]
fn no_matching_prefix_yields_absent_result() {
    let w = bytes("xyz");
    let d = dict(&["a", "b"]);
    assert!(look_for_dict(&w, &d, 0).is_none());
}

#[test]
fn offset_past_end_yields_absent_result() {
    let w = bytes("ab");
    let d = dict(&["a", "b"]);
    assert!(look_for_dict(&w, &d, 3).is_none());
}

#[test]
fn example_h_he_li() {
    let sols = all_solutions("hhe", &["h", "he", "li"]);
    assert_eq!(sols, vec![vec![0, 1]]);
}

#[test]
fn example_a_ab() {
    let sols = all_solutions("ab", &["a", "ab"]);
    assert_eq!(sols, vec![vec![1]]);
}

#[test]
fn empty_dictionary_yields_absent_result_at_every_offset() {
    let w = bytes("abc");
    let d: Vec<Vec<u8>> = Vec::new();
    for i0 in 0..3usize {
        assert!(look_for_dict(&w, &d, i0).is_none());
    }
    assert_eq!(all_solutions("abc", &[]).len(), 0);
}

#[test]
fn round_trip_on_every_returned_segmentation() {
    let d = &["a", "aa", "b", "ab"];
    let sols = all_solutions("aab", d);
    assert!(sols.len() > 0);
    for code in sols.iter() {
        assert_eq!(concat(d, code), "aab");
    }
}

#[test]
fn completeness_on_small_ambiguous_word() {
    // "aaa" over ["a", "aa"]: exactly [0,0,0], [0,1] and [1,0], in search order.
    let sols = all_solutions("aaa", &["a", "aa"]);
    assert_eq!(sols, vec![vec![0, 0, 0], vec![0, 1], vec![1, 0]]);
}

#[test]
fn multiple_roots_in_dictionary_order() {
    // Both "a" and "ab" start a segmentation of "abab"; roots come in
    // dictionary order and each root's solutions in child order.
    let sols = all_solutions("abab", &["a", "b", "ab"]);
    assert_eq!(
        sols,
        vec![vec![0, 1, 0, 1], vec![0, 1, 2], vec![2, 0, 1], vec![2, 2]]
    );
}

#[test]
fn dead_end_branches_are_pruned() {
    // "cb" matches at the start of "cba" but "a" cannot finish; only c+b+a works
    // through the tokens that do, and every returned tree has a child.
    let w = bytes("cba");
    let d = dict(&["c", "cb", "b", "x"]);
    assert!(look_for_dict(&w, &d, 0).is_none());
    let d2 = dict(&["c", "cb", "b", "a"]);
    let trees = look_for_dict(&w, &d2, 0).expect("c+b+a and cb+a both finish");
    for t in trees.iter() {
        assert!(t.end || !t.children.is_empty());
    }
    let mut flat: Vec<Vec<usize>> = Vec::new();
    for t in trees.iter() {
        flat.append(&mut t.flatten());
    }
    assert_eq!(flat, vec![vec![0, 2, 3], vec![1, 3]]);
}

#[test]
fn tree_constructors() {
    let t = Tree::new(2, 5);
    assert_eq!(t.level, 2);
    assert_eq!(t.value, 5);
    assert!(!t.end);
    assert!(t.children.is_empty());
    let term = Tree::new_termination(4);
    assert_eq!(term.level, 4);
    assert!(term.end);
}

#[test]
fn append_children_moves_them() {
    let mut t = Tree::new(0, 1);
    let mut kids = vec![Tree::new_termination(1)];
    t.append_children(&mut kids);
    assert!(kids.is_empty());
    assert_eq!(t.children.len(), 1);
    assert!(t.children[0].end);
}
