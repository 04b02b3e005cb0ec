//! Labeled solutions: a word paired with one of its token-index sequences and
//! a numeric signature, plus the filter that selects the final outputs.
use vstd::prelude::*;

verus! {

/// How many characters it takes to print `n` as a base-10 integer.
pub open spec fn num_digits(n: nat) -> nat
    decreases n,
{
    if n < 10 {
        1
    } else {
        1 + num_digits(n / 10)
    }
}

/// The signature of a code: the printed decimal lengths of its raw indices,
/// summed.
pub open spec fn signature(code: Seq<usize>) -> nat
    decreases code.len(),
{
    if code.len() == 0 {
        0
    } else {
        signature(code.drop_last()) + num_digits(code.last() as nat)
    }
}

/// Printing a number never takes more characters than its value plus one.
proof fn lemma_num_digits_le(n: nat)
    ensures
        num_digits(n) <= n + 1,
    decreases n,
{
    if n >= 10 {
        lemma_num_digits_le(n / 10);
    }
}

/// The signature of a prefix never exceeds the signature of the whole code.
proof fn lemma_signature_prefix_le(code: Seq<usize>, j: int)
    requires
        0 <= j <= code.len(),
    ensures
        signature(code.subrange(0, j)) <= signature(code),
    decreases code.len() - j,
{
    if j == code.len() {
        assert(code.subrange(0, j) =~= code);
    } else {
        assert(code.subrange(0, j + 1).drop_last() =~= code.subrange(0, j));
        assert(code.subrange(0, j + 1).last() == code[j]);
        lemma_signature_prefix_le(code, j + 1);
    }
}

/// The number of characters needed to print `n` in base 10.
pub fn digit_count(n: usize) -> (d: usize)
    ensures
        d == num_digits(n as nat),
    decreases n,
{
    if n < 10 {
        return 1;
    }
    proof {
        lemma_num_digits_le((n / 10) as nat);
    }
    let rest = digit_count(n / 10);
    rest + 1
}

/// A word paired with one of its token-index sequences; `code_length` caches
/// the code's signature.
pub struct Solution {
    pub word: Vec<u8>,
    pub code: Vec<usize>,
    pub code_length: usize,
}

impl Solution {
    /// The cached signature agrees with the code.
    pub open spec fn wf(self) -> bool {
        self.code_length == signature(self.code@)
    }

    pub fn new(word: Vec<u8>, code: Vec<usize>) -> (s: Solution)
        requires
            signature(code@) <= usize::MAX,
        ensures
            s.word@ == word@,
            s.code@ == code@,
            s.code_length == signature(code@),
            s.wf(),
    {
        let mut code_length: usize = 0;
        let mut j: usize = 0;
        while j < code.len()
            invariant
                j <= code@.len(),
                code_length == signature(code@.subrange(0, j as int)),
            decreases code@.len() - j,
        {
            let d = digit_count(code[j]);
            proof {
                assert(code@.subrange(0, j + 1).drop_last() =~= code@.subrange(0, j as int));
                assert(code@.subrange(0, j + 1).last() == code@[j as int]);
                lemma_signature_prefix_le(code@, j + 1);
            }
            code_length = code_length + d;
            j = j + 1;
        }
        proof {
            assert(code@.subrange(0, code@.len() as int) =~= code@);
        }
        Solution { word, code, code_length }
    }
}

/// The decimal digits of `n`, as ASCII bytes, most significant first.
pub open spec fn dec_digits(n: nat) -> Seq<u8>
    decreases n,
{
    if n < 10 {
        seq![(48 + n) as u8]
    } else {
        dec_digits(n / 10).push((48 + n % 10) as u8)
    }
}

/// A code rendered for display: each index shifted to 1-based and printed in
/// decimal, the digits simply concatenated with no separator.
pub open spec fn rendered_code(code: Seq<usize>) -> Seq<u8>
    decreases code.len(),
{
    if code.len() == 0 {
        Seq::<u8>::empty()
    } else {
        rendered_code(code.drop_last()) + dec_digits((code.last() + 1) as nat)
    }
}

/// Appends the decimal digits of `n` to `out`.
fn push_digits(n: usize, out: &mut Vec<u8>)
    ensures
        final(out)@ == old(out)@ + dec_digits(n as nat),
    decreases n,
{
    if n < 10 {
        out.push(48 + (n as u8));
        proof {
            assert(out@ =~= old(out)@ + dec_digits(n as nat));
        }
    } else {
        push_digits(n / 10, out);
        out.push(48 + ((n % 10) as u8));
        proof {
            assert(out@ =~= old(out)@ + dec_digits(n as nat));
        }
    }
}

impl Solution {
    /// The code rendered for display: each index shifted to 1-based, printed
    /// in decimal and concatenated.
    pub fn render_code(&self) -> (out: Vec<u8>)
        requires
            forall|i: int| 0 <= i < self.code@.len() ==> (#[trigger] self.code@[i]) < usize::MAX,
        ensures
            out@ == rendered_code(self.code@),
    {
        let mut out: Vec<u8> = Vec::new();
        let mut j: usize = 0;
        while j < self.code.len()
            invariant
                j <= self.code@.len(),
                out@ == rendered_code(self.code@.subrange(0, j as int)),
            decreases self.code@.len() - j,
        {
            push_digits(self.code[j] + 1, &mut out);
            proof {
                assert(self.code@.subrange(0, j + 1).drop_last() =~= self.code@.subrange(
                    0,
                    j as int,
                ));
                assert(self.code@.subrange(0, j + 1).last() == self.code@[j as int]);
            }
            j = j + 1;
        }
        proof {
            assert(self.code@.subrange(0, self.code@.len() as int) =~= self.code@);
        }
        out
    }

    /// The word lower-cased, byte for byte, for display.
    pub fn render_word(&self) -> (out: Vec<u8>)
        ensures
            out@ == crate::words::lowered(self.word@),
    {
        crate::words::to_lower_bytes(&self.word)
    }
}

/// The filter's acceptance predicate: signature 7 and first index 23.
pub open spec fn accepted(s: Solution) -> bool {
    s.code_length == 7 && s.code@.len() > 0 && s.code@[0] == 23
}

/// The acceptance predicate as a function value, for use with `Seq::filter`.
pub open spec fn accepted_pred() -> spec_fn(Solution) -> bool {
    |s: Solution| accepted(s)
}

/// Keeps exactly the solutions whose signature is 7 and whose first token
/// index is 23, in their input order.
pub fn filter_solution(input: Vec<Solution>) -> (out: Vec<Solution>)
    requires
        forall|j: int| 0 <= j < input@.len() ==> (#[trigger] input@[j]).wf(),
    ensures
        out@ == input@.filter(accepted_pred()),
{
    let ghost orig = input@;
    let mut rest = input;
    let mut out: Vec<Solution> = Vec::new();
    let ghost mut k: int = 0;
    while rest.len() > 0
        invariant
            0 <= k <= orig.len(),
            rest@ == orig.subrange(k, orig.len() as int),
            out@ == orig.subrange(0, k).filter(accepted_pred()),
            forall|j: int| 0 <= j < orig.len() ==> (#[trigger] orig[j]).wf(),
        decreases rest@.len(),
    {
        let ghost prev = rest@;
        let sol = rest.remove(0);
        proof {
            assert(sol == orig[k]);
            assert(rest@ =~= orig.subrange(k + 1, orig.len() as int));
            if sol.code_length == 7 {
                // A signature of 7 cannot come from an empty code.
                assert(signature(sol.code@) == 7);
                assert(sol.code@.len() > 0);
            }
            assert(orig.subrange(0, k + 1).drop_last() =~= orig.subrange(0, k));
            assert(orig.subrange(0, k + 1).last() == orig[k]);
            reveal(Seq::filter);
            assert(orig.subrange(0, k + 1).filter(accepted_pred()) == (if accepted_pred()(
                orig[k],
            ) {
                orig.subrange(0, k).filter(accepted_pred()).push(orig[k])
            } else {
                orig.subrange(0, k).filter(accepted_pred())
            }));
        }
        if sol.code_length == 7 && sol.code[0] == 23 {
            proof {
                assert(accepted_pred()(sol));
            }
            out.push(sol);
        } else {
            proof {
                assert(!accepted_pred()(sol));
            }
        }
        proof {
            k = k + 1;
        }
    }
    proof {
        assert(orig.subrange(0, orig.len() as int) =~= orig);
    }
    out
}

/// Filter selectivity: the filtered list holds only accepted solutions, and
/// every one of them comes from the input.
pub proof fn lemma_filter_selectivity(input: Seq<Solution>)
    ensures
        input.filter(accepted_pred()).len() <= input.len(),
        forall|k: int|
            0 <= k < input.filter(accepted_pred()).len() ==> accepted(
                #[trigger] input.filter(accepted_pred())[k],
            ),
        forall|k: int|
            0 <= k < input.filter(accepted_pred()).len() ==> input.contains(
                #[trigger] input.filter(accepted_pred())[k],
            ),
        forall|j: int|
            0 <= j < input.len() && accepted(#[trigger] input[j]) ==> input.filter(
                accepted_pred(),
            ).contains(input[j]),
    decreases input.len(),
{
    reveal(Seq::filter);
    if input.len() > 0 {
        lemma_filter_selectivity(input.drop_last());
        let f = input.filter(accepted_pred());
        let fd = input.drop_last().filter(accepted_pred());
        assert forall|k: int| 0 <= k < f.len() implies input.contains(#[trigger] f[k]) by {
            if k < fd.len() {
                assert(f[k] == fd[k]);
                let j = choose|j: int| 0 <= j < input.drop_last().len() && input.drop_last()[j] == fd[k];
                assert(input[j] == f[k]);
            } else {
                assert(f[k] == input.last());
                assert(input[input.len() - 1] == f[k]);
            }
        }
        assert forall|j: int|
            0 <= j < input.len() && accepted(#[trigger] input[j]) implies f.contains(input[j]) by {
            if j < input.len() - 1 {
                assert(input.drop_last()[j] == input[j]);
                assert(fd.contains(input[j]));
                let k = choose|k: int| 0 <= k < fd.len() && fd[k] == input[j];
                assert(f[k] == input[j]);
            } else {
                assert(f.last() == input[j]);
            }
        }
    }
}

} // verus!
