//! The tokenizer: split file content on runs of whitespace and record,
//! for every word, the byte offset of each of its occurrences.

use vstd::prelude::*;
use crate::index::FileIndex;

verus! {

/// Whether a byte separates words: space, tab, line feed, vertical tab,
/// form feed or carriage return.
pub open spec fn is_ws(b: u8) -> bool {
    b == 32 || b == 9 || b == 10 || b == 11 || b == 12 || b == 13
}

pub fn byte_is_ws(b: u8) -> (r: bool)
    ensures
        r == is_ws(b),
{
    b == 32 || b == 9 || b == 10 || b == 11 || b == 12 || b == 13
}

/// A token begins at `i`: a non-whitespace byte at the start of the
/// content or right after a whitespace byte.
pub open spec fn starts_token(s: Seq<u8>, i: int) -> bool {
    &&& 0 <= i < s.len()
    &&& !is_ws(s[i])
    &&& (i == 0 || is_ws(s[i - 1]))
}

/// Where the run of non-whitespace bytes from `i` on ends: the first
/// position at or after `i` holding a whitespace byte, or the length.
pub open spec fn token_end(s: Seq<u8>, i: int) -> int
    decreases s.len() - i,
{
    if i >= s.len() {
        s.len() as int
    } else if is_ws(s[i]) {
        i
    } else {
        token_end(s, i + 1)
    }
}

/// The token that begins at `i`.
pub open spec fn token_at(s: Seq<u8>, i: int) -> Seq<u8> {
    s.subrange(i, token_end(s, i))
}

/// The offsets below `n` at which `w` occurs as a token, ascending.
pub open spec fn word_offsets_upto(s: Seq<u8>, w: Seq<u8>, n: int) -> Seq<usize>
    decreases n,
{
    if n <= 0 {
        Seq::empty()
    } else if starts_token(s, n - 1) && token_at(s, n - 1) == w {
        word_offsets_upto(s, w, n - 1).push((n - 1) as usize)
    } else {
        word_offsets_upto(s, w, n - 1)
    }
}

/// All offsets at which `w` occurs as a token of `s`, ascending.
pub open spec fn word_offsets(s: Seq<u8>, w: Seq<u8>) -> Seq<usize> {
    word_offsets_upto(s, w, s.len() as int)
}

/// The index of the prefix of `s` whose tokens begin below `n`.
pub open spec fn index_upto(s: Seq<u8>, n: int) -> Map<Seq<u8>, Seq<usize>> {
    Map::new(
        |w: Seq<u8>| word_offsets_upto(s, w, n).len() > 0,
        |w: Seq<u8>| word_offsets_upto(s, w, n),
    )
}

/// The index of `s`: every word that occurs as a token mapped to the
/// ascending byte offsets of its occurrences; no other key occurs.
pub open spec fn index_of(s: Seq<u8>) -> Map<Seq<u8>, Seq<usize>> {
    index_upto(s, s.len() as int)
}

/// A range without token starts adds nothing to the index.
pub proof fn lemma_no_start_range(s: Seq<u8>, a: int, b: int)
    requires
        0 <= a <= b <= s.len(),
        forall|j: int| a <= j < b ==> !starts_token(s, j),
    ensures
        forall|w: Seq<u8>| #[trigger] word_offsets_upto(s, w, b) == word_offsets_upto(s, w, a),
        index_upto(s, b) == index_upto(s, a),
    decreases b - a,
{
    if b > a {
        lemma_no_start_range(s, a, b - 1);
        assert forall|w: Seq<u8>| #[trigger] word_offsets_upto(s, w, b) == word_offsets_upto(
            s,
            w,
            a,
        ) by {
            assert(!starts_token(s, b - 1));
            assert(word_offsets_upto(s, w, b) == word_offsets_upto(s, w, b - 1));
        }
    }
    assert(index_upto(s, b) =~= index_upto(s, a));
}

/// A maximal run of non-whitespace bytes is the token that begins at its
/// first byte.
pub proof fn lemma_token_end_scan(s: Seq<u8>, a: int, b: int)
    requires
        0 <= a <= b <= s.len(),
        forall|j: int| a <= j < b ==> !is_ws(s[j]),
        b == s.len() || is_ws(s[b]),
    ensures
        token_end(s, a) == b,
    decreases b - a,
{
    if a < b {
        lemma_token_end_scan(s, a + 1, b);
    }
}

/// Passing a token start extends the index by exactly that occurrence.
pub proof fn lemma_index_upto_start(s: Seq<u8>, i: int)
    requires
        starts_token(s, i),
    ensures
        index_upto(s, i + 1) == (if index_upto(s, i).contains_key(token_at(s, i)) {
            index_upto(s, i).insert(
                token_at(s, i),
                index_upto(s, i)[token_at(s, i)].push(i as usize),
            )
        } else {
            index_upto(s, i).insert(token_at(s, i), seq![i as usize])
        }),
{
    let w0 = token_at(s, i);
    assert forall|w: Seq<u8>| #[trigger] word_offsets_upto(s, w, i + 1) == (if w == w0 {
        word_offsets_upto(s, w, i).push(i as usize)
    } else {
        word_offsets_upto(s, w, i)
    }) by {}
    if index_upto(s, i).contains_key(w0) {
        assert(index_upto(s, i + 1) =~= index_upto(s, i).insert(
            w0,
            index_upto(s, i)[w0].push(i as usize),
        ));
    } else {
        assert(word_offsets_upto(s, w0, i).len() == 0);
        assert(word_offsets_upto(s, w0, i).push(i as usize) =~= seq![i as usize]);
        assert(index_upto(s, i + 1) =~= index_upto(s, i).insert(w0, seq![i as usize]));
    }
}

/// Splits `content` on runs of whitespace and returns, for every word,
/// the ascending byte offsets of its occurrences.
pub fn index_string(content: &Vec<u8>) -> (r: FileIndex)
    ensures
        r.wf(),
        r@ == index_of(content@),
{
    let ghost s = content@;
    let mut r = FileIndex::new();
    proof {
        assert(index_upto(s, 0) =~= Map::<Seq<u8>, Seq<usize>>::empty());
    }
    let mut i: usize = 0;
    while i < content.len()
        invariant
            content@ == s,
            i <= s.len(),
            r.wf(),
            r@ == index_upto(s, i as int),
            i == 0 || is_ws(s[i as int - 1]) || i == s.len() || is_ws(s[i as int]),
        decreases s.len() - i,
    {
        if byte_is_ws(content[i]) {
            proof {
                assert(!starts_token(s, i as int));
                lemma_no_start_range(s, i as int, i as int + 1);
            }
            i += 1;
        } else {
            let start = i;
            proof {
                assert(starts_token(s, start as int));
            }
            let mut word: Vec<u8> = Vec::new();
            proof {
                assert(word@ =~= s.subrange(start as int, i as int));
            }
            while i < content.len() && !byte_is_ws(content[i])
                invariant
                    content@ == s,
                    start <= i <= s.len(),
                    word@ == s.subrange(start as int, i as int),
                    forall|j: int| start <= j < i ==> !is_ws(s[j]),
                decreases s.len() - i,
            {
                word.push(content[i]);
                i += 1;
                proof {
                    assert(word@ =~= s.subrange(start as int, i as int));
                }
            }
            proof {
                lemma_token_end_scan(s, start as int, i as int);
                assert(token_at(s, start as int) == word@);
                lemma_index_upto_start(s, start as int);
            }
            r.push_offset(&word, start);
            proof {
                assert(forall|j: int| start as int + 1 <= j < i as int ==> !starts_token(s, j));
                lemma_no_start_range(s, start as int + 1, i as int);
            }
        }
    }
    r
}

} // verus!
