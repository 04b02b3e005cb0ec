//! The pruned search tree: one node per consumed token, a terminal node where
//! the word is fully consumed, and a flattener that turns a tree into the list
//! of complete token-index sequences it represents.
use vstd::prelude::*;

use crate::model::{segments, token_at};

verus! {

/// One step of a segmentation attempt. A non-terminal node records the token
/// consumed at `level`; its children are the continuations after that token.
/// A terminal node marks the end of the word; its `value` carries no meaning.
pub struct Tree {
    pub level: usize,
    pub value: usize,
    pub children: Vec<Tree>,
    pub end: bool,
}

/// The view of an executable list of codes: each entry as a sequence.
pub open spec fn codes_of(out: Seq<Vec<usize>>) -> Seq<Seq<usize>> {
    out.map_values(|v: Vec<usize>| v@)
}

impl Tree {
    /// A well-formed node for `word` and `dict`: a terminal node sits at the
    /// end of the word with no children; any other node consumes a matching
    /// token at its level, has at least one child, and every child continues
    /// exactly where that token ends.
    pub open spec fn wf(self, word: Seq<u8>, dict: Seq<Seq<u8>>) -> bool
        decreases self,
    {
        if self.end {
            self.level == word.len() && self.children@.len() == 0
        } else {
            &&& token_at(word, dict, self.level as int, self.value as int)
            &&& self.children@.len() > 0
            &&& forall|i: int|
                0 <= i < self.children@.len() ==> (#[trigger] self.children@[i]).wf(word, dict)
                    && self.children@[i].level == self.level + dict[self.value as int].len()
        }
    }

    /// `code` names one leaf-to-root path of this tree: empty at a terminal
    /// node, and otherwise this node's token index followed by a path of one
    /// of its children.
    pub open spec fn tree_has(self, code: Seq<usize>) -> bool
        decreases self,
    {
        if self.end {
            code.len() == 0
        } else {
            &&& code.len() > 0
            &&& code[0] == self.value
            &&& exists|i: int|
                0 <= i < self.children@.len() && (#[trigger] self.children@[i]).tree_has(
                    code.subrange(1, code.len() as int),
                )
        }
    }

    /// The exact list of this tree's complete token-index sequences, one per
    /// leaf-to-root path, in child order: what `flatten` returns.
    pub open spec fn paths(self) -> Seq<Seq<usize>>
        decreases self, 1int,
    {
        if self.end {
            seq![Seq::<usize>::empty()]
        } else {
            prepend_all(self.value, forest_paths(self.children@))
        }
    }

    pub fn new(level: usize, value: usize) -> (t: Self)
        ensures
            t.level == level,
            t.value == value,
            t.children@.len() == 0,
            !t.end,
    {
        Tree { level, value, children: Vec::new(), end: false }
    }

    pub fn new_termination(level: usize) -> (t: Self)
        ensures
            t.level == level,
            t.children@.len() == 0,
            t.end,
    {
        Tree { level, value: 0, children: Vec::new(), end: true }
    }

    pub fn append_children(&mut self, new_children: &mut Vec<Tree>)
        ensures
            final(self).children@ == old(self).children@ + old(new_children)@,
            final(new_children)@.len() == 0,
            final(self).level == old(self).level,
            final(self).value == old(self).value,
            final(self).end == old(self).end,
    {
        self.children.append(new_children)
    }
}

/// Each code of `s` with `v` put in front.
pub open spec fn prepend_all(v: usize, s: Seq<Seq<usize>>) -> Seq<Seq<usize>> {
    s.map_values(|c: Seq<usize>| seq![v] + c)
}

/// The concatenation, in order, of the paths of each tree of the list.
pub open spec fn forest_paths(trees: Seq<Tree>) -> Seq<Seq<usize>>
    decreases trees, 0int,
{
    if trees.len() == 0 {
        Seq::<Seq<usize>>::empty()
    } else {
        trees[0].paths() + forest_paths(trees.drop_first())
    }
}

/// Appending a tree to a list appends its paths to the list's.
proof fn lemma_forest_paths_push(trees: Seq<Tree>, t: Tree)
    ensures
        forest_paths(trees.push(t)) == forest_paths(trees) + t.paths(),
    decreases trees.len(),
{
    if trees.len() == 0 {
        assert(trees.push(t)[0] == t);
        assert(trees.push(t).drop_first() =~= Seq::<Tree>::empty());
        assert(forest_paths(Seq::<Tree>::empty()) =~= Seq::<Seq<usize>>::empty());
        assert(forest_paths(trees.push(t)) =~= forest_paths(trees) + t.paths());
    } else {
        assert(trees.push(t)[0] == trees[0]);
        assert(trees.push(t).drop_first() =~= trees.drop_first().push(t));
        lemma_forest_paths_push(trees.drop_first(), t);
        assert(forest_paths(trees.push(t)) == trees[0].paths() + (forest_paths(
            trees.drop_first(),
        ) + t.paths()));
        vstd::seq_lib::lemma_concat_associative(
            trees[0].paths(),
            forest_paths(trees.drop_first()),
            t.paths(),
        );
        assert(forest_paths(trees) == trees[0].paths() + forest_paths(trees.drop_first()));
    }
}

/// A fresh code that starts with `v` and continues with the entries of `r`.
fn prepended(v: usize, r: &Vec<usize>) -> (out: Vec<usize>)
    ensures
        out@ == seq![v] + r@,
{
    let mut out: Vec<usize> = Vec::new();
    out.push(v);
    let mut m: usize = 0;
    while m < r.len()
        invariant
            m <= r@.len(),
            out@ == seq![v] + r@.subrange(0, m as int),
        decreases r@.len() - m,
    {
        out.push(r[m]);
        proof {
            assert(out@ =~= seq![v] + r@.subrange(0, m + 1));
        }
        m = m + 1;
    }
    proof {
        assert(r@.subrange(0, r@.len() as int) =~= r@);
    }
    out
}

impl Tree {
    /// Expands the tree into the explicit list of its complete token-index
    /// sequences, one per leaf-to-root path, in child order. A terminal node
    /// yields exactly the one empty sequence.
    pub fn flatten(&self) -> (out: Vec<Vec<usize>>)
        ensures
            self.end ==> out@.len() == 1 && out@[0]@ == Seq::<usize>::empty(),
            forall|k: int| 0 <= k < out@.len() ==> self.tree_has(#[trigger] out@[k]@),
            forall|code: Seq<usize>| #[trigger]
                self.tree_has(code) ==> codes_of(out@).contains(code),
            codes_of(out@) == self.paths(),
        decreases *self,
    {
        if self.end {
            let mut out: Vec<Vec<usize>> = Vec::new();
            out.push(Vec::new());
            proof {
                assert forall|code: Seq<usize>| #[trigger]
                    self.tree_has(code) implies codes_of(out@).contains(code) by {
                    assert(codes_of(out@)[0] == code);
                }
                assert(codes_of(out@) =~= self.paths());
            }
            return out;
        }
        let mut out: Vec<Vec<usize>> = Vec::new();
        proof {
            assert(codes_of(out@) =~= prepend_all(
                self.value,
                forest_paths(self.children@.subrange(0, 0)),
            ));
        }
        let mut j: usize = 0;
        while j < self.children.len()
            invariant
                j <= self.children@.len(),
                forall|k: int| 0 <= k < out@.len() ==> self.tree_has(#[trigger] out@[k]@),
                forall|code: Seq<usize>|
                    ({
                        &&& code.len() > 0
                        &&& code[0] == self.value
                        &&& exists|i: int|
                            0 <= i < j && (#[trigger] self.children@[i]).tree_has(
                                code.subrange(1, code.len() as int),
                            )
                    }) ==> codes_of(out@).contains(code),
                codes_of(out@) == prepend_all(
                    self.value,
                    forest_paths(self.children@.subrange(0, j as int)),
                ),
            decreases self.children@.len() - j,
        {
            let ghost prev = out@;
            let temp = self.children[j].flatten();
            let mut m: usize = 0;
            while m < temp.len()
                invariant
                    m <= temp@.len(),
                    out@.len() == prev.len() + m,
                    out@.subrange(0, prev.len() as int) == prev,
                    forall|k: int|
                        0 <= k < m ==> out@[prev.len() + k]@ == seq![self.value] + (
                        #[trigger] temp@[k])@,
                decreases temp@.len() - m,
            {
                let entry = prepended(self.value, &temp[m]);
                out.push(entry);
                proof {
                    assert(out@.subrange(0, prev.len() as int) =~= prev);
                }
                m = m + 1;
            }
            proof {
                // Every new entry is a path of this node through child j.
                assert forall|k: int|
                    prev.len() <= k < out@.len() implies self.tree_has(#[trigger] out@[k]@) by {
                    let code = out@[k]@;
                    let r = temp@[k - prev.len()]@;
                    assert(code == seq![self.value] + r);
                    assert(code.subrange(1, code.len() as int) =~= r);
                    assert(self.children@[j as int].tree_has(code.subrange(1, code.len() as int)));
                }
                assert forall|k: int|
                    0 <= k < prev.len() implies self.tree_has(#[trigger] out@[k]@) by {
                    assert(out@[k] == out@.subrange(0, prev.len() as int)[k]);
                    assert(out@[k] == prev[k]);
                }
                // Every path through a child numbered at most j is now covered.
                assert forall|code: Seq<usize>|
                    ({
                        &&& code.len() > 0
                        &&& code[0] == self.value
                        &&& exists|i: int|
                            0 <= i < j + 1 && (#[trigger] self.children@[i]).tree_has(
                                code.subrange(1, code.len() as int),
                            )
                    }) implies codes_of(out@).contains(code) by {
                    let rest = code.subrange(1, code.len() as int);
                    let i = choose|i: int|
                        0 <= i < j + 1 && (#[trigger] self.children@[i]).tree_has(rest);
                    if i < j {
                        assert(codes_of(prev).contains(code));
                        let k = choose|k: int| 0 <= k < prev.len() && codes_of(prev)[k] == code;
                        assert(codes_of(out@)[k] == code);
                    } else {
                        assert(codes_of(temp@).contains(rest));
                        let k = choose|k: int| 0 <= k < temp@.len() && codes_of(temp@)[k] == rest;
                        assert(out@[prev.len() + k]@ == seq![self.value] + temp@[k]@);
                        assert(seq![self.value] + rest =~= code);
                        assert(codes_of(out@)[prev.len() + k] == code);
                    }
                }
                // The new entries are exactly child j's paths, each with this
                // node's token index put in front.
                let sub = self.children@.subrange(0, j as int);
                let sub1 = self.children@.subrange(0, j + 1);
                assert(sub1 =~= sub.push(self.children@[j as int]));
                lemma_forest_paths_push(sub, self.children@[j as int]);
                assert(codes_of(out@) =~= prepend_all(self.value, forest_paths(sub1))) by {
                    assert(codes_of(temp@) == self.children@[j as int].paths());
                    assert forall|k: int| 0 <= k < out@.len() implies codes_of(out@)[k]
                        == prepend_all(self.value, forest_paths(sub1))[k] by {
                        assert(prev.len() == forest_paths(sub).len());
                        if k < prev.len() {
                            assert(out@[k] == out@.subrange(0, prev.len() as int)[k]);
                            assert(codes_of(out@)[k] == codes_of(prev)[k]);
                            assert(codes_of(prev)[k] == prepend_all(
                                self.value,
                                forest_paths(sub),
                            )[k]);
                            assert(forest_paths(sub1)[k] == forest_paths(sub)[k]);
                        } else {
                            assert(out@[k]@ == seq![self.value] + temp@[k - prev.len()]@);
                            assert(codes_of(temp@)[k - prev.len()] == temp@[k - prev.len()]@);
                            assert(forest_paths(sub1)[k] == self.children@[j as int].paths()[k
                                - prev.len()]);
                        }
                    }
                }
            }
            j = j + 1;
        }
        proof {
            assert(self.children@.subrange(0, self.children@.len() as int) =~= self.children@);
        }
        out
    }
}

/// The pruning invariant: a well-formed tree always holds at least one
/// complete path, so flattening it yields at least one sequence. Dead-end
/// branches never appear in a well-formed tree.
pub proof fn lemma_wf_has_code(t: Tree, word: Seq<u8>, dict: Seq<Seq<u8>>)
    requires
        t.wf(word, dict),
    ensures
        exists|code: Seq<usize>| #[trigger] t.tree_has(code),
    decreases t,
{
    if t.end {
        assert(t.tree_has(Seq::<usize>::empty()));
    } else {
        lemma_wf_has_code(t.children@[0], word, dict);
        let sub = choose|code: Seq<usize>| #[trigger] t.children@[0].tree_has(code);
        let code = seq![t.value] + sub;
        assert(code.subrange(1, code.len() as int) =~= sub);
        assert(t.tree_has(code));
    }
}

/// Every path of a well-formed tree is a segmentation of the word from the
/// tree's level onward.
pub proof fn lemma_tree_sound(t: Tree, word: Seq<u8>, dict: Seq<Seq<u8>>, code: Seq<usize>)
    requires
        t.wf(word, dict),
        t.tree_has(code),
    ensures
        segments(word, dict, t.level as int, code),
    decreases t,
{
    if !t.end {
        let rest = code.subrange(1, code.len() as int);
        let i = choose|i: int|
            0 <= i < t.children@.len() && (#[trigger] t.children@[i]).tree_has(rest);
        lemma_tree_sound(t.children@[i], word, dict, rest);
    }
}

} // verus!
