//! The mathematical model of segmentation: what it means for a sequence of
//! dictionary token indices to tile a suffix of a word.
use vstd::prelude::*;

verus! {

/// The view of an executable list of byte strings: each entry as a byte sequence.
pub open spec fn seq_views(s: Seq<Vec<u8>>) -> Seq<Seq<u8>> {
    s.map_values(|v: Vec<u8>| v@)
}

/// A dictionary is usable only when none of its tokens is empty: an empty
/// token would match at every offset without consuming anything.
pub open spec fn no_empty_tokens(dict: Seq<Seq<u8>>) -> bool {
    forall|k: int| 0 <= k < dict.len() ==> (#[trigger] dict[k]).len() > 0
}

/// Token `k` of the dictionary is a literal prefix of `word` at offset `off`.
pub open spec fn token_at(word: Seq<u8>, dict: Seq<Seq<u8>>, off: int, k: int) -> bool {
    &&& 0 <= k < dict.len()
    &&& 0 <= off
    &&& off + dict[k].len() <= word.len()
    &&& word.subrange(off, off + dict[k].len() as int) == dict[k]
}

/// `code` tiles the suffix of `word` that starts at `off`: each index in turn
/// names a token that matches where the previous one ended, and the last one
/// ends exactly at the end of the word.
pub open spec fn segments(word: Seq<u8>, dict: Seq<Seq<u8>>, off: int, code: Seq<usize>) -> bool
    decreases code.len(),
{
    if code.len() == 0 {
        off == word.len()
    } else {
        &&& token_at(word, dict, off, code[0] as int)
        &&& segments(
            word,
            dict,
            off + dict[code[0] as int].len(),
            code.subrange(1, code.len() as int),
        )
    }
}

/// Concatenation of the dictionary tokens selected by `code`, in order.
pub open spec fn cat_tokens(dict: Seq<Seq<u8>>, code: Seq<usize>) -> Seq<u8>
    decreases code.len(),
{
    if code.len() == 0 {
        Seq::<u8>::empty()
    } else {
        dict[code[0] as int] + cat_tokens(dict, code.subrange(1, code.len() as int))
    }
}

/// Every index of `code` names a dictionary entry.
pub open spec fn valid_code(dict: Seq<Seq<u8>>, code: Seq<usize>) -> bool {
    forall|i: int| 0 <= i < code.len() ==> (#[trigger] code[i]) < dict.len()
}

/// Round trip: a segmentation's tokens, concatenated in order, rebuild exactly
/// the part of the word from `off` to the end.
pub proof fn lemma_round_trip(word: Seq<u8>, dict: Seq<Seq<u8>>, off: int, code: Seq<usize>)
    requires
        segments(word, dict, off, code),
    ensures
        0 <= off <= word.len(),
        valid_code(dict, code),
        cat_tokens(dict, code) == word.subrange(off, word.len() as int),
    decreases code.len(),
{
    if code.len() == 0 {
        assert(cat_tokens(dict, code) =~= word.subrange(off, word.len() as int));
    } else {
        let k = code[0] as int;
        let rest = code.subrange(1, code.len() as int);
        lemma_round_trip(word, dict, off + dict[k].len(), rest);
        assert forall|i: int| 0 <= i < code.len() implies (#[trigger] code[i]) < dict.len() by {
            if i >= 1 {
                assert(code[i] == rest[i - 1]);
            }
        }
        assert(cat_tokens(dict, code) =~= word.subrange(off, word.len() as int));
    }
}

/// The converse of the round trip: any in-range index sequence whose tokens
/// concatenate to the suffix of `word` at `off` is a segmentation. Together
/// with `lemma_round_trip` this pins `segments` down as exactly the round-trip
/// property.
pub proof fn lemma_cat_segments(word: Seq<u8>, dict: Seq<Seq<u8>>, off: int, code: Seq<usize>)
    requires
        0 <= off <= word.len(),
        valid_code(dict, code),
        cat_tokens(dict, code) == word.subrange(off, word.len() as int),
    ensures
        segments(word, dict, off, code),
    decreases code.len(),
{
    if code.len() == 0 {
        assert(word.subrange(off, word.len() as int).len() == 0);
    } else {
        let k = code[0] as int;
        let rest = code.subrange(1, code.len() as int);
        let cat = cat_tokens(dict, code);
        assert(cat == dict[k] + cat_tokens(dict, rest));
        let tl = dict[k].len() as int;
        assert(word.subrange(off, word.len() as int).len() == word.len() - off);
        assert(off + tl <= word.len());
        assert(word.subrange(off, off + tl) =~= dict[k]) by {
            assert forall|i: int| 0 <= i < tl implies word.subrange(off, off + tl)[i] == dict[k][i] by {
                assert(word.subrange(off, word.len() as int)[i] == cat[i]);
            }
        }
        assert(token_at(word, dict, off, k));
        assert forall|i: int| 0 <= i < rest.len() implies (#[trigger] rest[i]) < dict.len() by {
            assert(rest[i] == code[i + 1]);
        }
        assert(cat_tokens(dict, rest) =~= word.subrange(off + tl, word.len() as int)) by {
            assert forall|i: int| 0 <= i < cat_tokens(dict, rest).len() implies cat_tokens(
                dict,
                rest,
            )[i] == word.subrange(off + tl, word.len() as int)[i] by {
                assert(cat[tl + i] == word.subrange(off, word.len() as int)[tl + i]);
            }
        }
        lemma_cat_segments(word, dict, off + tl, rest);
    }
}

/// The two formulations agree: a code is a segmentation exactly when every
/// index is in range and the named tokens concatenate to the suffix of the
/// word at `off`.
pub proof fn lemma_segments_iff_round_trip(
    word: Seq<u8>,
    dict: Seq<Seq<u8>>,
    off: int,
    code: Seq<usize>,
)
    requires
        0 <= off <= word.len(),
    ensures
        segments(word, dict, off, code) <==> (valid_code(dict, code) && cat_tokens(dict, code)
            == word.subrange(off, word.len() as int)),
{
    if segments(word, dict, off, code) {
        lemma_round_trip(word, dict, off, code);
    }
    if valid_code(dict, code) && cat_tokens(dict, code) == word.subrange(off, word.len() as int) {
        lemma_cat_segments(word, dict, off, code);
    }
}

/// With an empty dictionary no suffix short of the very end of the word can be
/// tiled: the only segmentation anywhere is the empty one at the end.
pub proof fn lemma_empty_dict(word: Seq<u8>, dict: Seq<Seq<u8>>, off: int, code: Seq<usize>)
    requires
        dict.len() == 0,
        off != word.len(),
    ensures
        !segments(word, dict, off, code),
{
}

} // verus!
