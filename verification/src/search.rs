//! The recursive segmentation search: for a word and a starting offset, build
//! the pruned tree of every way to tile the rest of the word with dictionary
//! tokens, or report that no way exists.
use vstd::prelude::*;

use crate::model::{no_empty_tokens, segments, seq_views, token_at};
use crate::tree::{lemma_tree_sound, Tree};

verus! {

/// Some tree of the list has `code` as one of its paths.
pub open spec fn forest_has(trees: Seq<Tree>, code: Seq<usize>) -> bool {
    exists|j: int| 0 <= j < trees.len() && (#[trigger] trees[j]).tree_has(code)
}

/// Does token `tok` match `word` at offset `i0`?
fn is_prefix_at(word: &Vec<u8>, i0: usize, tok: &Vec<u8>) -> (b: bool)
    requires
        i0 <= word@.len(),
    ensures
        b == (i0 + tok@.len() <= word@.len() && word@.subrange(i0 as int, i0 + tok@.len()) == tok@),
{
    if tok.len() > word.len() - i0 {
        return false;
    }
    let mut m: usize = 0;
    while m < tok.len()
        invariant
            i0 + tok@.len() <= word@.len(),
            m <= tok@.len(),
            forall|q: int| 0 <= q < m ==> word@[i0 + q] == tok@[q],
        decreases tok@.len() - m,
    {
        if word[i0 + m] != tok[m] {
            proof {
                assert(word@.subrange(i0 as int, i0 + tok@.len())[m as int] == word@[i0 + m]);
            }
            return false;
        }
        m = m + 1;
    }
    proof {
        assert(word@.subrange(i0 as int, i0 + tok@.len()) =~= tok@);
    }
    true
}

/// The recursive search. For offset `i0` within the word it returns the list
/// of pruned search trees rooted at `i0`, one per dictionary token that starts
/// a complete segmentation there, in dictionary order; `None` when no token
/// does. At the end of the word it returns the single terminal node; past the
/// end it returns `None`. The returned forest represents exactly the
/// segmentations of the word's suffix at `i0`.
pub fn look_for_dict(word: &Vec<u8>, dict: &Vec<Vec<u8>>, i0: usize) -> (out: Option<Vec<Tree>>)
    requires
        no_empty_tokens(seq_views(dict@)),
    ensures
        match out {
            Some(trees) => {
                &&& i0 <= word@.len()
                &&& trees@.len() > 0
                &&& forall|j: int|
                    0 <= j < trees@.len() ==> (#[trigger] trees@[j]).wf(word@, seq_views(dict@))
                        && trees@[j].level == i0
                &&& forall|code: Seq<usize>|
                    #![trigger segments(word@, seq_views(dict@), i0 as int, code)]
                    #![trigger forest_has(trees@, code)]
                    segments(word@, seq_views(dict@), i0 as int, code) <==> forest_has(
                        trees@,
                        code,
                    )
                &&& forall|j1: int, j2: int|
                    #![trigger trees@[j1], trees@[j2]]
                    0 <= j1 < j2 < trees@.len() ==> trees@[j1].value < trees@[j2].value
                &&& i0 == word@.len() ==> trees@.len() == 1 && trees@[0].end
            },
            None => forall|code: Seq<usize>|
                !segments(word@, seq_views(dict@), i0 as int, code),
        },
    decreases word@.len() - i0,
{
    let ghost wordv = word@;
    let ghost dictv = seq_views(dict@);
    if i0 == word.len() {
        let mut ts: Vec<Tree> = Vec::new();
        ts.push(Tree::new_termination(i0));
        proof {
            assert forall|code: Seq<usize>|
                segments(wordv, dictv, i0 as int, code) <==> forest_has(ts@, code) by {
                if code.len() == 0 {
                    assert(ts@[0].tree_has(code));
                    assert(segments(wordv, dictv, i0 as int, code));
                } else {
                    // A token would have to fit past the end of the word.
                    assert(!segments(wordv, dictv, i0 as int, code));
                    assert(!ts@[0].tree_has(code));
                }
            }
        }
        return Some(ts);
    }
    if i0 > word.len() {
        proof {
            assert forall|code: Seq<usize>| !segments(wordv, dictv, i0 as int, code) by {
                if code.len() > 0 {
                    assert(!token_at(wordv, dictv, i0 as int, code[0] as int));
                }
            }
        }
        return None;
    }
    let mut out: Vec<Tree> = Vec::new();
    let mut i: usize = 0;
    while i < dict.len()
        invariant
            i <= dict@.len(),
            forall|j: int|
                0 <= j < out@.len() ==> (#[trigger] out@[j]).wf(wordv, dictv) && out@[j].level
                    == i0 && out@[j].value < i,
            forall|j1: int, j2: int|
                #![trigger out@[j1], out@[j2]]
                0 <= j1 < j2 < out@.len() ==> out@[j1].value < out@[j2].value,
            forall|code: Seq<usize>| #[trigger]
                forest_has(out@, code) ==> segments(wordv, dictv, i0 as int, code),
            forall|code: Seq<usize>|
                code.len() > 0 && (code[0] as int) < i && #[trigger] segments(
                    wordv,
                    dictv,
                    i0 as int,
                    code,
                ) ==> forest_has(out@, code),
        decreases dict@.len() - i,
    {
        let ghost prev = out@;
        let art = &dict[i];
        proof {
            assert(dictv[i as int] == art@);
        }
        if is_prefix_at(word, i0, art) {
            proof {
                assert(dictv[i as int].len() > 0);
            }
            match look_for_dict(word, dict, i0 + art.len()) {
                Some(mut trees) => {
                    let ghost sub = trees@;
                    let mut tree = Tree::new(i0, i);
                    tree.append_children(&mut trees);
                    proof {
                        assert(tree.children@ =~= sub);
                        assert(token_at(wordv, dictv, i0 as int, i as int));
                        assert(tree.wf(wordv, dictv));
                    }
                    out.push(tree);
                    proof {
                        assert forall|code: Seq<usize>| #[trigger]
                            forest_has(out@, code) implies segments(
                            wordv,
                            dictv,
                            i0 as int,
                            code,
                        ) by {
                            let j = choose|j: int|
                                0 <= j < out@.len() && (#[trigger] out@[j]).tree_has(code);
                            if j < prev.len() {
                                assert(forest_has(prev, code));
                            } else {
                                lemma_tree_sound(tree, wordv, dictv, code);
                            }
                        }
                        assert forall|code: Seq<usize>|
                            code.len() > 0 && (code[0] as int) < i + 1 && #[trigger] segments(
                                wordv,
                                dictv,
                                i0 as int,
                                code,
                            ) implies forest_has(out@, code) by {
                            if (code[0] as int) < i {
                                assert(forest_has(prev, code));
                                let j = choose|j: int|
                                    0 <= j < prev.len() && (#[trigger] prev[j]).tree_has(code);
                                assert(out@[j].tree_has(code));
                            } else {
                                let rest = code.subrange(1, code.len() as int);
                                assert(segments(
                                    wordv,
                                    dictv,
                                    i0 + dictv[i as int].len(),
                                    rest,
                                ));
                                assert(forest_has(sub, rest));
                                let jj = choose|jj: int|
                                    0 <= jj < sub.len() && (#[trigger] sub[jj]).tree_has(rest);
                                assert(tree.children@[jj].tree_has(rest));
                                assert(tree.tree_has(code));
                                assert(out@[prev.len() as int].tree_has(code));
                            }
                        }
                    }
                },
                None => {
                    proof {
                        assert forall|code: Seq<usize>|
                            code.len() > 0 && (code[0] as int) < i + 1 && #[trigger] segments(
                                wordv,
                                dictv,
                                i0 as int,
                                code,
                            ) implies forest_has(out@, code) by {
                            if (code[0] as int) == i {
                                let rest = code.subrange(1, code.len() as int);
                                assert(segments(
                                    wordv,
                                    dictv,
                                    i0 + dictv[i as int].len(),
                                    rest,
                                ));
                            }
                        }
                    }
                },
            }
        } else {
            proof {
                assert forall|code: Seq<usize>|
                    code.len() > 0 && (code[0] as int) < i + 1 && #[trigger] segments(
                        wordv,
                        dictv,
                        i0 as int,
                        code,
                    ) implies forest_has(out@, code) by {
                    if (code[0] as int) == i {
                        assert(!token_at(wordv, dictv, i0 as int, i as int));
                    }
                }
            }
        }
        i = i + 1;
    }
    if out.len() == 0 {
        proof {
            assert forall|code: Seq<usize>| !segments(wordv, dictv, i0 as int, code) by {
                if segments(wordv, dictv, i0 as int, code) {
                    assert(code.len() > 0);
                    assert(token_at(wordv, dictv, i0 as int, code[0] as int));
                    assert(forest_has(out@, code));
                }
            }
        }
        None
    } else {
        proof {
            assert forall|code: Seq<usize>|
                segments(wordv, dictv, i0 as int, code) <==> forest_has(out@, code) by {
                if segments(wordv, dictv, i0 as int, code) {
                    assert(code.len() > 0);
                    assert(token_at(wordv, dictv, i0 as int, code[0] as int));
                }
            }
        }
        Some(out)
    }
}

} // verus!
