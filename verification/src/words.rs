//! Candidate-word handling: selecting the words worth searching and removing
//! duplicates while keeping first-seen order.
use vstd::prelude::*;

use crate::model::seq_views;

verus! {

/// ASCII lower-casing of one byte; anything outside `A`..`Z` is unchanged.
pub open spec fn to_lower(b: u8) -> u8 {
    if 65 <= b && b <= 90 {
        (b + 32) as u8
    } else {
        b
    }
}

/// A line is worth searching when it is five bytes long and starts,
/// case-insensitively, with `cr`.
pub open spec fn is_potential(line: Seq<u8>) -> bool {
    line.len() == 5 && to_lower(line[0]) == 99 && to_lower(line[1]) == 114
}

/// The selection predicate as a function value, for use with `Seq::filter`.
pub open spec fn potential_pred() -> spec_fn(Vec<u8>) -> bool {
    |l: Vec<u8>| is_potential(l@)
}

/// ASCII lower-casing of one byte.
fn ascii_lower(b: u8) -> (r: u8)
    ensures
        r == to_lower(b),
{
    if 65 <= b && b <= 90 {
        b + 32
    } else {
        b
    }
}

/// A byte string lower-cased, byte for byte.
pub open spec fn lowered(s: Seq<u8>) -> Seq<u8> {
    s.map_values(|b: u8| to_lower(b))
}

/// Lower-cases every byte of a byte string.
pub fn to_lower_bytes(s: &Vec<u8>) -> (out: Vec<u8>)
    ensures
        out@ == lowered(s@),
{
    let mut out: Vec<u8> = Vec::new();
    let mut j: usize = 0;
    while j < s.len()
        invariant
            j <= s@.len(),
            out@ == lowered(s@.subrange(0, j as int)),
        decreases s@.len() - j,
    {
        out.push(ascii_lower(s[j]));
        proof {
            assert(out@ =~= lowered(s@.subrange(0, j + 1)));
        }
        j = j + 1;
    }
    proof {
        assert(s@.subrange(0, s@.len() as int) =~= s@);
    }
    out
}

/// Keeps exactly the lines that are worth searching, in their input order.
pub fn return_potential(lines: Vec<Vec<u8>>) -> (out: Vec<Vec<u8>>)
    ensures
        out@ == lines@.filter(potential_pred()),
{
    let ghost orig = lines@;
    let mut rest = lines;
    let mut out: Vec<Vec<u8>> = Vec::new();
    let ghost mut k: int = 0;
    while rest.len() > 0
        invariant
            0 <= k <= orig.len(),
            rest@ == orig.subrange(k, orig.len() as int),
            out@ == orig.subrange(0, k).filter(potential_pred()),
        decreases rest@.len(),
    {
        let l = rest.remove(0);
        proof {
            assert(l == orig[k]);
            assert(rest@ =~= orig.subrange(k + 1, orig.len() as int));
            assert(orig.subrange(0, k + 1).drop_last() =~= orig.subrange(0, k));
            assert(orig.subrange(0, k + 1).last() == orig[k]);
            reveal(Seq::filter);
            assert(orig.subrange(0, k + 1).filter(potential_pred()) == (if potential_pred()(
                orig[k],
            ) {
                orig.subrange(0, k).filter(potential_pred()).push(orig[k])
            } else {
                orig.subrange(0, k).filter(potential_pred())
            }));
        }
        if l.len() == 5 && ascii_lower(l[0]) == 99 && ascii_lower(l[1]) == 114 {
            proof {
                assert(potential_pred()(l));
            }
            out.push(l);
        } else {
            proof {
                assert(!potential_pred()(l));
            }
        }
        proof {
            k = k + 1;
        }
    }
    proof {
        assert(orig.subrange(0, orig.len() as int) =~= orig);
    }
    out
}

/// The input with every repeated entry dropped: an entry stays exactly where
/// it first occurs.
pub open spec fn dedup_spec(s: Seq<Seq<u8>>) -> Seq<Seq<u8>>
    decreases s.len(),
{
    if s.len() == 0 {
        Seq::<Seq<u8>>::empty()
    } else {
        let rest = dedup_spec(s.drop_last());
        if s.drop_last().contains(s.last()) {
            rest
        } else {
            rest.push(s.last())
        }
    }
}

/// Deduplication keeps membership: an entry occurs in the deduplicated list
/// exactly when it occurs in the input.
pub proof fn lemma_dedup_membership(s: Seq<Seq<u8>>, x: Seq<u8>)
    ensures
        dedup_spec(s).contains(x) <==> s.contains(x),
    decreases s.len(),
{
    if s.len() > 0 {
        lemma_dedup_membership(s.drop_last(), x);
        let rest = dedup_spec(s.drop_last());
        if s.contains(x) {
            let j = choose|j: int| 0 <= j < s.len() && s[j] == x;
            if j < s.len() - 1 {
                assert(s.drop_last()[j] == x);
                assert(s.drop_last().contains(x));
                let m = choose|m: int| 0 <= m < rest.len() && rest[m] == x;
                if !s.drop_last().contains(s.last()) {
                    assert(rest.push(s.last())[m] == x);
                }
            } else {
                if s.drop_last().contains(s.last()) {
                    assert(rest.contains(x));
                } else {
                    assert(rest.push(s.last()).last() == x);
                }
            }
        }
        if dedup_spec(s).contains(x) {
            let m = choose|m: int| 0 <= m < dedup_spec(s).len() && dedup_spec(s)[m] == x;
            if s.drop_last().contains(s.last()) {
                assert(s.drop_last().contains(x));
                let j = choose|j: int| 0 <= j < s.drop_last().len() && s.drop_last()[j] == x;
                assert(s[j] == x);
            } else {
                if m < rest.len() {
                    assert(rest.contains(x));
                    let j = choose|j: int| 0 <= j < s.drop_last().len() && s.drop_last()[j] == x;
                    assert(s[j] == x);
                } else {
                    assert(x == s.last());
                    assert(s[s.len() - 1] == x);
                }
            }
        }
    }
}

/// Do two byte strings hold the same bytes?
fn bytes_eq(a: &Vec<u8>, b: &Vec<u8>) -> (r: bool)
    ensures
        r == (a@ == b@),
{
    if a.len() != b.len() {
        return false;
    }
    let mut m: usize = 0;
    while m < a.len()
        invariant
            a@.len() == b@.len(),
            m <= a@.len(),
            forall|q: int| 0 <= q < m ==> a@[q] == b@[q],
        decreases a@.len() - m,
    {
        if a[m] != b[m] {
            return false;
        }
        m = m + 1;
    }
    proof {
        assert(a@ =~= b@);
    }
    true
}

/// Does some entry of `hay` hold the same bytes as `needle`?
fn contains_bytes(hay: &Vec<Vec<u8>>, needle: &Vec<u8>) -> (r: bool)
    ensures
        r == seq_views(hay@).contains(needle@),
{
    let ghost hayv = seq_views(hay@);
    let mut m: usize = 0;
    while m < hay.len()
        invariant
            m <= hay@.len(),
            forall|q: int| 0 <= q < m ==> hayv[q] != needle@,
        decreases hay@.len() - m,
    {
        if bytes_eq(&hay[m], needle) {
            proof {
                assert(hayv[m as int] == needle@);
            }
            return true;
        }
        m = m + 1;
    }
    false
}

/// Removes duplicate entries, keeping the first occurrence of each and the
/// order of first occurrences.
pub fn remove_duplicates(src: Vec<Vec<u8>>) -> (out: Vec<Vec<u8>>)
    ensures
        seq_views(out@) == dedup_spec(seq_views(src@)),
{
    let ghost orig = seq_views(src@);
    let mut rest = src;
    let mut out: Vec<Vec<u8>> = Vec::new();
    let ghost mut k: int = 0;
    while rest.len() > 0
        invariant
            0 <= k <= orig.len(),
            seq_views(rest@) == orig.subrange(k, orig.len() as int),
            seq_views(out@) == dedup_spec(orig.subrange(0, k)),
        decreases rest@.len(),
    {
        let ghost prev = rest@;
        let e = rest.remove(0);
        proof {
            assert(seq_views(prev).len() == prev.len());
            assert(k < orig.len());
            assert(e@ == seq_views(prev)[0]);
            assert(e@ == orig[k]);
            assert forall|q: int|
                0 <= q < rest@.len() implies seq_views(rest@)[q] == orig.subrange(
                k + 1,
                orig.len() as int,
            )[q] by {
                assert(rest@[q] == prev[q + 1]);
                assert(seq_views(prev)[q + 1] == prev[q + 1]@);
                assert(seq_views(prev)[q + 1] == orig[k + 1 + q]);
            }
            assert(seq_views(rest@) =~= orig.subrange(k + 1, orig.len() as int));
            assert(orig.subrange(0, k + 1).drop_last() =~= orig.subrange(0, k));
            assert(orig.subrange(0, k + 1).last() == orig[k]);
        }
        let present = contains_bytes(&out, &e);
        proof {
            lemma_dedup_membership(orig.subrange(0, k), e@);
            assert(present == orig.subrange(0, k).contains(e@));
        }
        if !present {
            out.push(e);
            proof {
                assert(seq_views(out@) =~= dedup_spec(orig.subrange(0, k + 1)));
            }
        }
        proof {
            k = k + 1;
        }
    }
    proof {
        assert(orig.subrange(0, orig.len() as int) =~= orig);
    }
    out
}

} // verus!
