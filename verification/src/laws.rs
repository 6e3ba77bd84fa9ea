//! The laws the trie obeys, stated over its abstract model: the set of
//! words it holds.

use vstd::prelude::*;

verus! {

/// The words of `words` that `p` is a prefix of: exactly what a prefix
/// search for `p` reports (for a non-empty `p`).
pub open spec fn prefix_matches(words: Set<Seq<char>>, p: Seq<char>) -> Set<Seq<char>> {
    Set::new(|w: Seq<char>| words.contains(w) && p.is_prefix_of(w))
}

/// The word set grown by inserting the listed words in order.
pub open spec fn words_of(ws: Seq<Seq<char>>) -> Set<Seq<char>>
    decreases ws.len(),
{
    if ws.len() == 0 {
        Set::empty()
    } else {
        words_of(ws.drop_last()).insert(ws.last())
    }
}

/// Round trip: after inserting a non-empty word, the word is held, and a
/// prefix search for any of its non-empty prefixes reports it.
pub proof fn lemma_insert_round_trip(words: Set<Seq<char>>, s: Seq<char>, p: Seq<char>)
    requires
        s.len() > 0,
        p.len() > 0,
        p.is_prefix_of(s),
    ensures
        words.insert(s).contains(s),
        prefix_matches(words.insert(s), p).contains(s),
{
}

/// Idempotence: inserting the same word twice leaves the word set — and so
/// every membership or prefix-search answer — as after a single insertion.
pub proof fn lemma_insert_idempotent(words: Set<Seq<char>>, s: Seq<char>)
    ensures
        words.insert(s).insert(s) == words.insert(s),
{
    assert(words.insert(s).insert(s) =~= words.insert(s));
}

/// Negative lookup: a trie built by inserting a list of words holds nothing
/// that is not on the list.
pub proof fn lemma_never_inserted(ws: Seq<Seq<char>>, s: Seq<char>)
    requires
        !ws.contains(s),
    ensures
        !words_of(ws).contains(s),
    decreases ws.len(),
{
    if ws.len() > 0 {
        assert(!ws.drop_last().contains(s)) by {
            if ws.drop_last().contains(s) {
                let i = choose|i: int| 0 <= i < ws.drop_last().len() && ws.drop_last()[i] == s;
                assert(ws[i] == s);
            }
        }
        lemma_never_inserted(ws.drop_last(), s);
        assert(ws[ws.len() - 1] == s ==> ws.contains(s));
    }
}

/// Deleting a word removes it and it alone: every other word stays held
/// exactly as before, prefixes and extensions of the deleted word included.
pub proof fn lemma_delete_correct(words: Set<Seq<char>>, s: Seq<char>, t: Seq<char>)
    requires
        t != s,
    ensures
        !words.remove(s).contains(s),
        words.remove(s).contains(t) == words.contains(t),
{
}

/// Deleting a word and inserting it again restores it to the word set.
pub proof fn lemma_delete_reinsert(words: Set<Seq<char>>, s: Seq<char>)
    ensures
        words.remove(s).insert(s).contains(s),
{
}

} // verus!
