//! The trie itself: node layout, well-formedness, the abstract model (the
//! set of words held), and the traversals that operate on the tree.

use crate::laws::prefix_matches;
use crate::order::{lemma_lex_common_prefix, lemma_lex_proper_prefix, lex_lt, sorted_desc};
use vstd::prelude::*;
use vstd::string::StrSliceExecFns;

verus! {

/// One node of the tree. Children are kept sorted by key with no duplicate
/// keys among siblings, so a child can be found by binary search.
struct Node {
    /// Children of this node, sorted by `key`.
    children: Vec<Node>,
    /// The character on the edge from the parent; absent only for the root.
    key: Option<char>,
    /// The complete word ending here, present exactly when `terminal` holds.
    value: Option<String>,
    /// True iff an inserted word ends at this node.
    terminal: bool,
}

impl Node {
    /// Which suffixes this subtree holds: the empty suffix when the node is
    /// terminal, and `c + rest` when the child keyed `c` holds `rest`.
    spec fn holds(self, s: Seq<char>) -> bool
        decreases s.len(),
    {
        if s.len() == 0 {
            self.terminal
        } else {
            exists|i: int|
                0 <= i < self.children.len()
                    && (#[trigger] self.children[i]).key == Some(s[0])
                    && self.children[i].holds(s.skip(1))
        }
    }

    /// Sibling keys are all present, strictly increasing.
    spec fn children_sorted(children: Seq<Node>) -> bool {
        &&& forall|i: int| 0 <= i < children.len() ==> (#[trigger] children[i]).key is Some
        &&& forall|i: int, j: int|
            0 <= i < j < children.len() ==> ((#[trigger] children[i]).key->0 as int)
                < ((#[trigger] children[j]).key->0 as int)
    }

    /// Well-formedness of the subtree rooted here, for a node sitting at the
    /// end of the path `prefix`: the stored word is present iff the node is
    /// terminal and then spells out the path, and children are sorted by
    /// their keys, each well-formed one level deeper.
    spec fn wf(self, prefix: Seq<char>) -> bool
        decreases self,
    {
        &&& self.terminal <==> self.value is Some
        &&& self.terminal ==> self.value->0@ == prefix
        &&& Node::children_sorted(self.children@)
        &&& forall|i: int|
            0 <= i < self.children.len() ==> (#[trigger] self.children[i]).wf(
                prefix.push(self.children[i].key->0),
            )
    }
}

/// The words stored in the subtrees of `children[..k]`, in descending
/// lexicographic order: the words of the child with the largest key first,
/// each child's words themselves in descending order.
spec fn children_words_desc(children: Seq<Node>, k: int) -> Seq<Seq<char>>
    decreases children, k,
{
    if 0 < k <= children.len() {
        children[k - 1].words_desc() + children_words_desc(children, k - 1)
    } else {
        Seq::empty()
    }
}

impl Node {
    /// The words stored in this subtree, in descending lexicographic order:
    /// all children's words (largest key first), then the word ending here,
    /// if any — a word comes after every proper extension of it.
    spec fn words_desc(self) -> Seq<Seq<char>>
        decreases self, 0int,
    {
        children_words_desc(self.children@, self.children@.len() as int) + if self.terminal {
            seq![self.value->0@]
        } else {
            Seq::empty()
        }
    }
}

impl Node {
    /// Every child of every node below here carries a key: all a dump needs
    /// of the tree.
    spec fn keys_ok(self) -> bool
        decreases self,
    {
        forall|i: int|
            0 <= i < self.children.len() ==> ((#[trigger] self.children[i]).key is Some
                && self.children[i].keys_ok())
    }
}

/// One dumped entry: the node's key, then its terminal flag in parentheses,
/// then a space.
spec fn entry_text(c: Node) -> Seq<char> {
    seq![c.key->0, '('] + (if c.terminal {
        seq!['t', 'r', 'u', 'e']
    } else {
        seq!['f', 'a', 'l', 's', 'e']
    }) + seq![')', ' ']
}

/// The dumped entries of all children of the listed nodes, in order.
spec fn entries_text(cs: Seq<Node>) -> Seq<char>
    decreases cs.len(),
{
    if cs.len() == 0 {
        Seq::empty()
    } else {
        entries_text(cs.drop_last()) + entry_text(cs.last())
    }
}

/// One dumped line: the entries of the children of every node on the level.
spec fn level_text(q: Seq<Node>) -> Seq<char>
    decreases q.len(),
{
    if q.len() == 0 {
        Seq::empty()
    } else {
        level_text(q.drop_last()) + entries_text(q.last().children@)
    }
}

/// The listed nodes that have children — the only ones a dump carries to
/// the next level.
spec fn kept_children(cs: Seq<Node>) -> Seq<Node>
    decreases cs.len(),
{
    if cs.len() == 0 {
        Seq::empty()
    } else {
        kept_children(cs.drop_last()) + (if cs.last().children.len() > 0 {
            seq![cs.last()]
        } else {
            Seq::empty()
        })
    }
}

/// The next level of a dump: the children, across the whole level, that
/// themselves have children.
spec fn next_level(q: Seq<Node>) -> Seq<Node>
    decreases q.len(),
{
    if q.len() == 0 {
        Seq::empty()
    } else {
        next_level(q.drop_last()) + kept_children(q.last().children@)
    }
}

/// The number of nodes in the subtree rooted at `n`.
spec fn node_size(n: Node) -> nat
    decreases n, 0int,
{
    1 + nodes_size(n.children@)
}

/// The total number of nodes in the listed subtrees.
spec fn nodes_size(q: Seq<Node>) -> nat
    decreases q, 1int,
{
    if q.len() == 0 {
        0
    } else {
        nodes_size(q.drop_last()) + node_size(q.last())
    }
}

/// Sizes add up over concatenation.
proof fn lemma_nodes_size_concat(a: Seq<Node>, b: Seq<Node>)
    ensures
        nodes_size(a + b) == nodes_size(a) + nodes_size(b),
    decreases b.len(),
{
    if b.len() == 0 {
        assert(a + b =~= a);
    } else {
        assert((a + b).drop_last() =~= a + b.drop_last());
        assert((a + b).last() == b.last());
        lemma_nodes_size_concat(a, b.drop_last());
    }
}

/// The size of a single subtree, as a one-node level.
proof fn lemma_singleton_size(x: Node)
    ensures
        nodes_size(seq![x]) == node_size(x),
{
    assert(seq![x].drop_last() =~= Seq::<Node>::empty());
    assert(seq![x].last() == x);
    assert(nodes_size(Seq::<Node>::empty()) == 0);
    assert(nodes_size(seq![x]) == nodes_size(seq![x].drop_last()) + node_size(seq![x].last()));
}

/// Keeping only the children that have children cannot grow a level.
proof fn lemma_kept_size(cs: Seq<Node>)
    ensures
        nodes_size(kept_children(cs)) <= nodes_size(cs),
    decreases cs.len(),
{
    if cs.len() > 0 {
        lemma_kept_size(cs.drop_last());
        if cs.last().children.len() > 0 {
            lemma_nodes_size_concat(kept_children(cs.drop_last()), seq![cs.last()]);
            lemma_singleton_size(cs.last());
        } else {
            assert(kept_children(cs.drop_last()) + Seq::<Node>::empty() =~= kept_children(
                cs.drop_last(),
            ));
        }
    }
}

/// Each level of a dump is strictly smaller than the one before it: the next
/// level holds only nodes from inside the current level's subtrees.
proof fn lemma_next_size(q: Seq<Node>)
    ensures
        nodes_size(next_level(q)) + q.len() <= nodes_size(q),
    decreases q.len(),
{
    if q.len() > 0 {
        lemma_next_size(q.drop_last());
        lemma_nodes_size_concat(next_level(q.drop_last()), kept_children(q.last().children@));
        lemma_kept_size(q.last().children@);
        assert(next_level(q) == next_level(q.drop_last()) + kept_children(q.last().children@));
        assert(nodes_size(q) == nodes_size(q.drop_last()) + node_size(q.last()));
        assert(node_size(q.last()) == 1 + nodes_size(q.last().children@));
    }
}

/// The whole dump: one line per level, levels separated by a newline, and no
/// line for an empty next level.
spec fn render_levels(q: Seq<Node>) -> Seq<char>
    decreases nodes_size(q),
    via render_levels_decreases
{
    if q.len() == 0 {
        Seq::empty()
    } else if next_level(q).len() == 0 {
        level_text(q)
    } else {
        level_text(q) + seq!['\n'] + render_levels(next_level(q))
    }
}

#[via_fn]
proof fn render_levels_decreases(q: Seq<Node>) {
    if q.len() > 0 {
        lemma_next_size(q);
    }
}

/// The nodes a queue of references points at.
spec fn queue_view(q: Seq<&Node>) -> Seq<Node> {
    q.map_values(|m: &Node| *m)
}

/// Membership in a concatenation is membership in either part.
proof fn lemma_concat_contains<A>(a: Seq<A>, b: Seq<A>, x: A)
    ensures
        (a + b).contains(x) <==> (a.contains(x) || b.contains(x)),
{
    if a.contains(x) {
        let i = choose|i: int| 0 <= i < a.len() && a[i] == x;
        assert((a + b)[i] == x);
    }
    if b.contains(x) {
        let i = choose|i: int| 0 <= i < b.len() && b[i] == x;
        assert((a + b)[a.len() + i] == x);
    }
    if (a + b).contains(x) {
        let i = choose|i: int| 0 <= i < (a + b).len() && (a + b)[i] == x;
        if i < a.len() {
            assert(a[i] == x);
        } else {
            assert(b[i - a.len()] == x);
        }
    }
}

/// A sequence is its prefix followed by the rest.
proof fn lemma_prefix_split(p: Seq<char>, w: Seq<char>)
    requires
        p.is_prefix_of(w),
    ensures
        w == p + w.skip(p.len() as int),
{
    assert(w =~= p + w.skip(p.len() as int));
}

/// The words of the first `k` children's subtrees are exactly the words
/// that extend `p` by one of those children's keys and are held below that
/// child, and they come out in strictly descending lexicographic order.
proof fn lemma_children_words_props(children: Seq<Node>, p: Seq<char>, k: int)
    requires
        Node::children_sorted(children),
        forall|i: int|
            0 <= i < children.len() ==> (#[trigger] children[i]).wf(p.push(children[i].key->0)),
        0 <= k <= children.len(),
    ensures
        forall|w: Seq<char>|
            #[trigger] children_words_desc(children, k).contains(w) <==> (w.len() > p.len()
                && p.is_prefix_of(w) && exists|i: int|
                0 <= i < k && (#[trigger] children[i]).key == Some(w[p.len() as int])
                    && children[i].holds(w.skip(p.len() as int + 1))),
        sorted_desc(children_words_desc(children, k)),
    decreases children, k,
{
    if k > 0 {
        lemma_children_words_props(children, p, k - 1);
        let q = p.push(children[k - 1].key->0);
        lemma_words_desc_props(children[k - 1], q);
        let first = children[k - 1].words_desc();
        let rest = children_words_desc(children, k - 1);
        let whole = children_words_desc(children, k);
        assert(whole == first + rest);
        assert(q.len() == p.len() + 1);
        assert forall|w: Seq<char>| #[trigger] whole.contains(w) <==> (w.len() > p.len()
            && p.is_prefix_of(w) && exists|i: int|
            0 <= i < k && (#[trigger] children[i]).key == Some(w[p.len() as int])
                && children[i].holds(w.skip(p.len() as int + 1))) by {
            lemma_concat_contains(first, rest, w);
            if first.contains(w) {
                assert(q.is_prefix_of(w) && children[k - 1].holds(w.skip(q.len() as int)));
                assert(p.is_prefix_of(w)) by {
                    assert forall|m: int| 0 <= m < p.len() implies p[m] == w[m] by {
                        assert(q[m] == w[m]);
                    }
                    assert(p =~= w.subrange(0, p.len() as int));
                }
                assert(w[p.len() as int] == q[p.len() as int]);
                assert(children[k - 1].key == Some(w[p.len() as int]));
            }
            if w.len() > p.len() && p.is_prefix_of(w) && exists|i: int|
                0 <= i < k && (#[trigger] children[i]).key == Some(w[p.len() as int])
                    && children[i].holds(w.skip(p.len() as int + 1)) {
                let i = choose|i: int|
                    0 <= i < k && (#[trigger] children[i]).key == Some(w[p.len() as int])
                        && children[i].holds(w.skip(p.len() as int + 1));
                if i == k - 1 {
                    assert(q.is_prefix_of(w)) by {
                        assert forall|m: int| 0 <= m < q.len() implies q[m] == w[m] by {
                            if m < p.len() {
                                assert(p[m] == w.subrange(0, p.len() as int)[m]);
                            }
                        }
                        assert(q =~= w.subrange(0, q.len() as int));
                    }
                    assert(first.contains(w));
                } else {
                    assert(rest.contains(w));
                }
            }
        }
        assert forall|a: int, b: int| 0 <= a < b < whole.len() implies lex_lt(
            whole[b],
            whole[a],
        ) by {
            if b < first.len() {
                assert(whole[a] == first[a] && whole[b] == first[b]);
            } else if a >= first.len() {
                assert(whole[a] == rest[a - first.len()] && whole[b] == rest[b - first.len()]);
            } else {
                let x = whole[a];
                let y = whole[b];
                assert(x == first[a] && first.contains(x));
                assert(y == rest[b - first.len()] && rest.contains(y));
                assert(children[k - 1].words_desc().contains(x));
                assert(children_words_desc(children, k - 1).contains(y));
                let i = choose|i: int|
                    0 <= i < k - 1 && (#[trigger] children[i]).key == Some(y[p.len() as int])
                        && children[i].holds(y.skip(p.len() as int + 1));
                assert((children[i].key->0 as int) < (children[k - 1].key->0 as int));
                assert(q.is_prefix_of(x) && x.len() > p.len());
                assert(q[p.len() as int] == children[k - 1].key->0);
                assert(x.subrange(0, q.len() as int)[p.len() as int] == x[p.len() as int]);
                assert(x[p.len() as int] == children[k - 1].key->0);
                lemma_prefix_split(p, x);
                lemma_prefix_split(p, y);
                assert(y.skip(p.len() as int)[0] == y[p.len() as int]);
                assert(x.skip(p.len() as int)[0] == x[p.len() as int]);
                lemma_lex_common_prefix(p, y.skip(p.len() as int), x.skip(p.len() as int));
            }
        }
    }
}

/// The words of a well-formed subtree at the end of the path `p` are exactly
/// the extensions of `p` whose rest the subtree holds, listed in strictly
/// descending lexicographic order.
proof fn lemma_words_desc_props(n: Node, p: Seq<char>)
    requires
        n.wf(p),
    ensures
        forall|w: Seq<char>|
            #[trigger] n.words_desc().contains(w) <==> (p.is_prefix_of(w) && n.holds(
                w.skip(p.len() as int),
            )),
        sorted_desc(n.words_desc()),
    decreases n, 1int,
{
    let len = n.children@.len() as int;
    lemma_children_words_props(n.children@, p, len);
    let cw = children_words_desc(n.children@, len);
    let tail: Seq<Seq<char>> = if n.terminal {
        seq![n.value->0@]
    } else {
        Seq::empty()
    };
    assert(n.words_desc() == cw + tail);
    assert forall|w: Seq<char>| #[trigger] n.words_desc().contains(w) <==> (p.is_prefix_of(w)
        && n.holds(w.skip(p.len() as int))) by {
        lemma_concat_contains(cw, tail, w);
        assert(tail.contains(w) <==> (n.terminal && w == p)) by {
            if n.terminal && tail.contains(w) {
                assert(w == tail[0]);
            }
            if n.terminal && w == p {
                assert(tail[0] == w);
            }
        }
        if p.is_prefix_of(w) {
            let suf = w.skip(p.len() as int);
            if w.len() == p.len() {
                assert(w =~= p);
                assert(suf =~= Seq::<char>::empty());
                assert(n.holds(suf) == n.terminal);
                assert(!cw.contains(w));
            } else {
                assert(suf.len() > 0);
                assert(suf[0] == w[p.len() as int]);
                assert(suf.skip(1) =~= w.skip(p.len() as int + 1));
                assert(w != p);
                assert(n.holds(suf) <==> exists|i: int|
                    0 <= i < n.children.len() && (#[trigger] n.children[i]).key == Some(suf[0])
                        && n.children[i].holds(suf.skip(1)));
            }
        } else {
            assert(p.is_prefix_of(p));
            assert(w != p);
        }
    }
    assert forall|a: int, b: int| 0 <= a < b < n.words_desc().len() implies lex_lt(
        n.words_desc()[b],
        n.words_desc()[a],
    ) by {
        if b < cw.len() {
            assert(n.words_desc()[a] == cw[a] && n.words_desc()[b] == cw[b]);
        } else {
            assert(a < cw.len() && n.terminal && b == cw.len());
            let x = n.words_desc()[a];
            assert(x == cw[a] && cw.contains(x));
            assert(n.words_desc()[b] == tail[0] && tail[0] == p);
            lemma_lex_proper_prefix(p, x);
        }
    }
}

/// Among sorted siblings, at most one child carries a given key, so the
/// suffixes held through that key are exactly those held by that child.
proof fn lemma_child_step(n: Node, s: Seq<char>, i: int)
    requires
        Node::children_sorted(n.children@),
        s.len() > 0,
        0 <= i < n.children@.len(),
        n.children@[i].key == Some(s[0]),
    ensures
        n.holds(s) <==> n.children@[i].holds(s.skip(1)),
{
    if n.holds(s) {
        let j = choose|j: int|
            0 <= j < n.children.len() && (#[trigger] n.children[j]).key == Some(s[0])
                && n.children[j].holds(s.skip(1));
        if j < i {
            assert((n.children@[j].key->0 as int) < (n.children@[i].key->0 as int));
        } else if i < j {
            assert((n.children@[i].key->0 as int) < (n.children@[j].key->0 as int));
        }
        assert(j == i);
    }
}

/// A node with no child carrying the first character of `s` holds no suffix
/// equal to `s`.
proof fn lemma_no_child(n: Node, s: Seq<char>)
    requires
        s.len() > 0,
        forall|j: int| 0 <= j < n.children@.len() ==> (#[trigger] n.children@[j]).key != Some(s[0]),
    ensures
        !n.holds(s),
{
}

/// A node just created holds nothing: it is not terminal and has no children.
proof fn lemma_fresh_holds_nothing(n: Node, w: Seq<char>)
    requires
        !n.terminal,
        n.children@.len() == 0,
    ensures
        !n.holds(w),
{
}

/// Two nodes with the same children hold the same non-empty suffixes.
proof fn lemma_same_children(a: Node, b: Node, w: Seq<char>)
    requires
        a.children@ == b.children@,
        w.len() > 0,
    ensures
        a.holds(w) == b.holds(w),
{
    if a.holds(w) {
        let j = choose|j: int|
            0 <= j < a.children.len() && (#[trigger] a.children[j]).key == Some(w[0])
                && a.children[j].holds(w.skip(1));
        assert(b.children@[j].key == Some(w[0]) && b.children@[j].holds(w.skip(1)));
    }
    if b.holds(w) {
        let j = choose|j: int|
            0 <= j < b.children.len() && (#[trigger] b.children[j]).key == Some(w[0])
                && b.children[j].holds(w.skip(1));
        assert(a.children@[j].key == Some(w[0]) && a.children@[j].holds(w.skip(1)));
    }
}

/// Peeling one character: `w` equals the suffix of `s` from `i` exactly when
/// it starts with `s[i]` and goes on as the suffix from `i + 1`.
proof fn lemma_cons_suffix(s: Seq<char>, i: int, w: Seq<char>)
    requires
        0 <= i < s.len(),
        w.len() > 0,
    ensures
        (w[0] == s[i] && w.skip(1) == s.skip(i + 1)) <==> w == s.skip(i),
{
    if w[0] == s[i] && w.skip(1) == s.skip(i + 1) {
        assert(w.skip(1).len() == w.len() - 1);
        assert(s.skip(i + 1).len() == s.len() - i - 1);
        assert forall|k: int| 0 <= k < w.len() implies w[k] == s.skip(i)[k] by {
            if k > 0 {
                assert(w.skip(1)[k - 1] == w[k]);
                assert(s.skip(i + 1)[k - 1] == s[i + 1 + (k - 1)]);
                assert(s.skip(i)[k] == s[i + k]);
            }
        }
        assert(w =~= s.skip(i));
    }
    if w == s.skip(i) {
        assert(w.skip(1) =~= s.skip(i + 1));
    }
}

/// Binary search among sorted siblings for the child keyed `c`. Returns
/// `(true, i)` with `i` the child's position when one exists, and otherwise
/// `(false, i)` with `i` the position where such a child would have to sit.
fn find_child(children: &Vec<Node>, c: char) -> (res: (bool, usize))
    requires
        Node::children_sorted(children@),
    ensures
        res.1 <= children@.len(),
        res.0 ==> res.1 < children@.len() && children@[res.1 as int].key == Some(c),
        !res.0 ==> forall|j: int|
            0 <= j < children@.len() ==> (#[trigger] children@[j]).key != Some(c),
        !res.0 ==> forall|j: int|
            0 <= j < res.1 ==> ((#[trigger] children@[j]).key->0 as int) < (c as int),
        !res.0 ==> forall|j: int|
            res.1 <= j < children@.len() ==> ((#[trigger] children@[j]).key->0 as int) > (c as int),
{
    let mut lo: usize = 0;
    let mut hi: usize = children.len();
    while lo < hi
        invariant
            lo <= hi <= children@.len(),
            Node::children_sorted(children@),
            forall|j: int| 0 <= j < lo ==> ((#[trigger] children@[j]).key->0 as int) < (c as int),
            forall|j: int|
                hi <= j < children@.len() ==> ((#[trigger] children@[j]).key->0 as int) > (c
                    as int),
        decreases hi - lo,
    {
        let mid = lo + (hi - lo) / 2;
        let k = children[mid].key.unwrap();
        if k < c {
            lo = mid + 1;
        } else if c < k {
            hi = mid;
        } else {
            assert(k == c);
            return (true, mid);
        }
    }
    proof {
        assert forall|j: int|
            0 <= j < children@.len() implies (#[trigger] children@[j]).key != Some(c) by {
            if children@[j].key == Some(c) {
                assert((children@[j].key->0 as int) == (c as int));
            }
        }
    }
    (false, lo)
}

/// Recursive lookup: does the subtree at the end of the path `s[..i]` hold
/// the rest of `s`?
fn node_exists(n: &Node, s: &str, i: usize, len: usize) -> (r: bool)
    requires
        n.wf(s@.take(i as int)),
        len == s@.len(),
        i <= len,
    ensures
        r == n.holds(s@.skip(i as int)),
    decreases len - i,
{
    if i == len {
        proof {
            assert(s@.skip(i as int) =~= Seq::<char>::empty());
        }
        n.terminal
    } else {
        let c = s.get_char(i);
        let ghost suf = s@.skip(i as int);
        proof {
            assert(suf[0] == s@[i as int]);
        }
        let (found, idx) = find_child(&n.children, c);
        if found {
            proof {
                assert(s@.take(i as int).push(s@[i as int]) =~= s@.take(i + 1 as int));
                assert(n.children@[idx as int].wf(s@.take(i + 1 as int)));
                lemma_child_step(*n, suf, idx as int);
                assert(suf.skip(1) =~= s@.skip(i + 1 as int));
            }
            node_exists(&n.children[idx], s, i + 1, len)
        } else {
            proof {
                lemma_no_child(*n, suf);
            }
            false
        }
    }
}

impl Node {
    /// Returns a fresh node with every field at its default: no children,
    /// no key, no word.
    fn new() -> (n: Node)
        ensures
            n.children@.len() == 0,
            n.key is None,
            n.value is None,
            !n.terminal,
    {
        Node { children: Vec::new(), key: None, value: None, terminal: false }
    }

    /// Returns a fresh node sitting on the edge labelled `k`.
    fn with_key(k: char) -> (n: Node)
        ensures
            n.children@.len() == 0,
            n.key == Some(k),
            n.value is None,
            !n.terminal,
    {
        Node { children: Vec::new(), key: Some(k), value: None, terminal: false }
    }
}

/// Recursive insertion: adds the suffix of `s` from position `i` to the
/// subtree sitting at the end of the path `s[..i]`, extending the tree with
/// fresh nodes where the path falls off it.
fn node_insert(n: &mut Node, s: &str, i: usize, len: usize)
    requires
        old(n).wf(s@.take(i as int)),
        len == s@.len(),
        i <= len,
    ensures
        final(n).wf(s@.take(i as int)),
        final(n).key == old(n).key,
        forall|w: Seq<char>|
            final(n).holds(w) <==> (old(n).holds(w) || w == s@.skip(i as int)),
    decreases len - i,
{
    if i == len {
        proof {
            assert(s@.skip(i as int) =~= Seq::<char>::empty());
            assert(s@.take(i as int) =~= s@);
        }
        if n.terminal {
            let word = s.to_owned();
            let dup = match &n.value {
                Some(v) => *v == word,
                None => false,
            };
            if dup {
                // The word already ends here with the identical stored
                // value: nothing to write.
                proof {
                    assert forall|w: Seq<char>|
                        n.holds(w) <==> (old(n).holds(w) || w == s@.skip(i as int)) by {
                        if w.len() == 0 {
                            assert(w =~= s@.skip(i as int));
                            assert(n.holds(w) == n.terminal);
                        }
                    }
                }
                return ;
            }
        }
        n.terminal = true;
        n.value = Some(s.to_owned());
        proof {
            assert forall|w: Seq<char>|
                n.holds(w) <==> (old(n).holds(w) || w == s@.skip(i as int)) by {
                if w.len() == 0 {
                    assert(w =~= s@.skip(i as int));
                    assert(n.holds(w) == n.terminal);
                } else {
                    lemma_same_children(*n, *old(n), w);
                }
            }
        }
    } else {
        let c = s.get_char(i);
        proof {
            assert(s@.take(i as int).push(s@[i as int]) =~= s@.take(i + 1 as int));
            assert(s@.skip(i as int)[0] == s@[i as int]);
        }
        let (found, idx) = find_child(&n.children, c);
        if found {
            let ghost oldc = n.children@[idx as int];
            let mut child = n.children.remove(idx);
            node_insert(&mut child, s, i + 1, len);
            let ghost newc = child;
            n.children.insert(idx, child);
            proof {
                assert(n.children@ =~= old(n).children@.update(idx as int, newc));
                assert forall|j: int| 0 <= j < n.children@.len() implies (#[trigger] n.children@[
                    j]).key == old(n).children@[j].key by {}
                assert(Node::children_sorted(n.children@));
                assert forall|j: int| 0 <= j < n.children@.len() implies (#[trigger] n.children@[
                    j]).wf(s@.take(i as int).push(n.children@[j].key->0)) by {
                    if j == idx {
                        assert(n.children@[j] == newc);
                        assert(newc.key->0 == c);
                    } else {
                        assert(n.children@[j] == old(n).children@[j]);
                    }
                }
                assert(n.wf(s@.take(i as int)));
                assert forall|w: Seq<char>|
                    n.holds(w) <==> (old(n).holds(w) || w == s@.skip(i as int)) by {
                    if w.len() == 0 {
                        assert(s@.skip(i as int).len() > 0);
                    } else if w[0] == c {
                        lemma_child_step(*n, w, idx as int);
                        lemma_child_step(*old(n), w, idx as int);
                        lemma_cons_suffix(s@, i as int, w);
                        assert(newc.holds(w.skip(1)) <==> (oldc.holds(w.skip(1)) || w.skip(1)
                            == s@.skip(i + 1 as int)));
                    } else {
                        assert(w != s@.skip(i as int));
                        if old(n).holds(w) {
                            let j = choose|j: int|
                                0 <= j < old(n).children.len() && (#[trigger] old(
                                    n,
                                ).children[j]).key == Some(w[0]) && old(n).children[j].holds(
                                    w.skip(1),
                                );
                            assert(j != idx);
                            assert(n.children@[j].key == Some(w[0]) && n.children@[j].holds(
                                w.skip(1),
                            ));
                        }
                        if n.holds(w) {
                            let j = choose|j: int|
                                0 <= j < n.children.len() && (#[trigger] n.children[j]).key
                                    == Some(w[0]) && n.children[j].holds(w.skip(1));
                            assert(j != idx);
                            assert(old(n).children@[j].key == Some(w[0]) && old(
                                n,
                            ).children@[j].holds(w.skip(1)));
                        }
                    }
                }
            }
        } else {
            let mut child = Node::with_key(c);
            let ghost fresh = child;
            proof {
                assert(child.wf(s@.take(i + 1 as int)));
            }
            node_insert(&mut child, s, i + 1, len);
            let ghost newc = child;
            n.children.insert(idx, child);
            proof {
                assert(n.children@ =~= old(n).children@.insert(idx as int, newc));
                assert(n.children@.len() == old(n).children@.len() + 1);
                assert forall|j: int| 0 <= j < idx implies #[trigger] n.children@[j] == old(
                    n,
                ).children@[j] by {
                    assert(n.children@[j] == old(n).children@.subrange(0, idx as int).push(
                        newc,
                    )[j]);
                }
                assert(n.children@[idx as int] == newc);
                assert forall|j: int| idx < j < n.children@.len() implies #[trigger] n.children@[
                    j] == old(n).children@[j - 1] by {
                    assert(n.children@[j] == old(n).children@.subrange(
                        idx as int,
                        old(n).children@.len() as int,
                    )[j - idx - 1]);
                }
                assert(newc.key == Some(c));
                assert(Node::children_sorted(n.children@)) by {
                    assert forall|a: int, b: int| 0 <= a < b < n.children@.len() implies ((
                    #[trigger] n.children@[a]).key->0 as int) < ((#[trigger] n.children@[b]).key->0
                        as int) by {}
                }
                assert forall|j: int| 0 <= j < n.children@.len() implies (#[trigger] n.children@[
                    j]).wf(s@.take(i as int).push(n.children@[j].key->0)) by {
                    if j == idx {
                        assert(newc.key->0 == c);
                    }
                }
                assert(n.wf(s@.take(i as int)));
                assert forall|w: Seq<char>|
                    n.holds(w) <==> (old(n).holds(w) || w == s@.skip(i as int)) by {
                    if w.len() == 0 {
                        assert(s@.skip(i as int).len() > 0);
                    } else if w[0] == c {
                        lemma_no_child(*old(n), w);
                        lemma_child_step(*n, w, idx as int);
                        lemma_fresh_holds_nothing(fresh, w.skip(1));
                        lemma_cons_suffix(s@, i as int, w);
                        assert(newc.holds(w.skip(1)) <==> (fresh.holds(w.skip(1)) || w.skip(1)
                            == s@.skip(i + 1 as int)));
                    } else {
                        assert(w != s@.skip(i as int));
                        if old(n).holds(w) {
                            let j = choose|j: int|
                                0 <= j < old(n).children.len() && (#[trigger] old(
                                    n,
                                ).children[j]).key == Some(w[0]) && old(n).children[j].holds(
                                    w.skip(1),
                                );
                            let j2: int = if j < idx {
                                j
                            } else {
                                j + 1
                            };
                            assert(n.children@[j2].key == Some(w[0]) && n.children@[j2].holds(
                                w.skip(1),
                            ));
                        }
                        if n.holds(w) {
                            let j = choose|j: int|
                                0 <= j < n.children.len() && (#[trigger] n.children[j]).key
                                    == Some(w[0]) && n.children[j].holds(w.skip(1));
                            assert(j != idx);
                            let j2: int = if j < idx {
                                j
                            } else {
                                j - 1
                            };
                            assert(old(n).children@[j2].key == Some(w[0]) && old(
                                n,
                            ).children@[j2].holds(w.skip(1)));
                        }
                    }
                }
            }
        }
    }
}

/// Collects the words of this well-formed subtree into `out`, children with
/// larger keys first and the node's own word last, so that the appended
/// words come out in descending lexicographic order.
fn collect_desc(n: &Node, out: &mut Vec<String>, Ghost(p): Ghost<Seq<char>>)
    requires
        n.wf(p),
    ensures
        final(out).deep_view() == old(out).deep_view() + n.words_desc(),
    decreases *n,
{
    let ghost out0 = out.deep_view();
    let ghost cs = n.children@;
    let mut k: usize = n.children.len();
    while k > 0
        invariant
            k <= cs.len(),
            cs == n.children@,
            n.wf(p),
            out.deep_view() + children_words_desc(cs, k as int) == out0 + children_words_desc(
                cs,
                cs.len() as int,
            ),
        decreases k,
    {
        let k2 = k - 1;
        let ghost dv1 = out.deep_view();
        proof {
            assert(n.children@[k2 as int].wf(p.push(n.children@[k2 as int].key->0)));
        }
        collect_desc(&n.children[k2], out, Ghost(p.push(n.children@[k2 as int].key->0)));
        proof {
            assert(children_words_desc(cs, k as int) == cs[k2 as int].words_desc()
                + children_words_desc(cs, k2 as int));
            assert((dv1 + cs[k2 as int].words_desc()) + children_words_desc(cs, k2 as int) =~= dv1
                + children_words_desc(cs, k as int));
        }
        k = k2;
    }
    proof {
        assert(children_words_desc(cs, 0) == Seq::<Seq<char>>::empty());
        assert(out.deep_view() + children_words_desc(cs, 0) =~= out.deep_view());
    }
    if n.terminal {
        let ghost dv2 = out.deep_view();
        let ghost v2 = out@;
        let w = n.value.as_ref().unwrap().clone();
        proof {
            assert(w@ == n.value->0@);
        }
        out.push(w);
        proof {
            assert(out@ == v2.push(w));
            assert forall|i: int| 0 <= i < out.deep_view().len() implies out.deep_view()[i]
                == dv2.push(w@)[i] by {
                if i < v2.len() {
                    assert(out@[i] == v2[i]);
                    assert(dv2[i] == v2[i].deep_view());
                } else {
                    assert(out@[i] == w);
                }
            }
            assert(out.deep_view() =~= dv2.push(w@));
            assert(n.words_desc() == children_words_desc(cs, cs.len() as int) + seq![
                n.value->0@,
            ]);
            assert(out.deep_view() =~= out0 + n.words_desc());
        }
    } else {
        proof {
            assert(n.words_desc() =~= children_words_desc(cs, cs.len() as int));
            assert(out.deep_view() =~= out0 + n.words_desc());
        }
    }
}

/// Relies on String::push: appends exactly the given character at the end.
#[verifier::external_body]
fn push_char(s: &mut String, c: char)
    ensures
        final(s)@ == old(s)@.push(c),
{
    s.push(c);
}

/// A well-formed subtree has a key on every child below it.
proof fn lemma_wf_keys_ok(n: Node, p: Seq<char>)
    requires
        n.wf(p),
    ensures
        n.keys_ok(),
    decreases n,
{
    assert forall|i: int| 0 <= i < n.children.len() implies ((#[trigger] n.children[i]).key
        is Some && n.children[i].keys_ok()) by {
        lemma_wf_keys_ok(n.children@[i], p.push(n.children@[i].key->0));
    }
}

/// Dumps the tree level by level, starting from the given queue of nodes:
/// writes each level's line, a newline between lines, and recurses on the
/// children that have children of their own.
fn render_from(queue: Vec<&Node>, out: &mut String)
    requires
        forall|i: int| 0 <= i < queue@.len() ==> (#[trigger] queue@[i]).keys_ok(),
    ensures
        final(out)@ == old(out)@ + render_levels(queue_view(queue@)),
    decreases nodes_size(queue_view(queue@)),
{
    let ghost qv = queue_view(queue@);
    let ghost out0 = out@;
    if queue.len() == 0 {
        proof {
            assert(out0 + render_levels(qv) =~= out0);
        }
        return ;
    }
    let mut next: Vec<&Node> = Vec::new();
    let mut qi: usize = 0;
    proof {
        assert(qv.take(0) =~= Seq::<Node>::empty());
        assert(queue_view(next@) =~= Seq::<Node>::empty());
        assert(out@ =~= out0 + level_text(qv.take(0)));
    }
    while qi < queue.len()
        invariant
            qi <= queue@.len(),
            qv == queue_view(queue@),
            forall|i: int| 0 <= i < queue@.len() ==> (#[trigger] queue@[i]).keys_ok(),
            out@ == out0 + level_text(qv.take(qi as int)),
            queue_view(next@) == next_level(qv.take(qi as int)),
            forall|i: int| 0 <= i < next@.len() ==> (#[trigger] next@[i]).keys_ok(),
        decreases queue@.len() - qi,
    {
        let n: &Node = queue[qi];
        proof {
            assert(qv[qi as int] == *n);
            assert(n.keys_ok());
        }
        let ghost out_l = out@;
        let ghost next_l = queue_view(next@);
        let mut ci: usize = 0;
        proof {
            assert(n.children@.take(0) =~= Seq::<Node>::empty());
            assert(out@ =~= out_l + entries_text(n.children@.take(0)));
            assert(next_l + kept_children(n.children@.take(0)) =~= next_l);
        }
        while ci < n.children.len()
            invariant
                ci <= n.children@.len(),
                n.keys_ok(),
                out@ == out_l + entries_text(n.children@.take(ci as int)),
                queue_view(next@) == next_l + kept_children(n.children@.take(ci as int)),
                forall|i: int| 0 <= i < next@.len() ==> (#[trigger] next@[i]).keys_ok(),
            decreases n.children@.len() - ci,
        {
            let ghost next_c = queue_view(next@);
            let c: &Node = &n.children[ci];
            let k = c.key.unwrap();
            push_char(out, k);
            push_char(out, '(');
            if c.terminal {
                push_char(out, 't');
                push_char(out, 'r');
                push_char(out, 'u');
                push_char(out, 'e');
            } else {
                push_char(out, 'f');
                push_char(out, 'a');
                push_char(out, 'l');
                push_char(out, 's');
                push_char(out, 'e');
            }
            push_char(out, ')');
            push_char(out, ' ');
            if c.children.len() > 0 {
                next.push(c);
            }
            proof {
                let taken = n.children@.take(ci + 1 as int);
                assert(taken.drop_last() =~= n.children@.take(ci as int));
                assert(taken.last() == n.children@[ci as int]);
                assert(entries_text(taken) == entries_text(n.children@.take(ci as int))
                    + entry_text(*c));
                assert(out@ =~= out_l + entries_text(taken));
                if c.children.len() > 0 {
                    assert(queue_view(next@) =~= next_c.push(*c));
                    assert(kept_children(taken) == kept_children(n.children@.take(ci as int))
                        + seq![*c]);
                    assert(queue_view(next@) =~= next_l + kept_children(taken));
                } else {
                    assert(kept_children(taken) =~= kept_children(n.children@.take(ci as int)));
                }
            }
            ci += 1;
        }
        proof {
            assert(n.children@.take(n.children@.len() as int) =~= n.children@);
            let takenq = qv.take(qi + 1 as int);
            assert(takenq.drop_last() =~= qv.take(qi as int));
            assert(takenq.last() == qv[qi as int]);
            assert(level_text(takenq) == level_text(qv.take(qi as int)) + entries_text(
                n.children@,
            ));
            assert(out@ =~= out0 + level_text(takenq));
            assert(next_level(takenq) == next_level(qv.take(qi as int)) + kept_children(
                n.children@,
            ));
            assert(queue_view(next@) =~= next_level(takenq));
        }
        qi += 1;
    }
    proof {
        assert(qv.take(qv.len() as int) =~= qv);
    }
    if next.len() == 0 {
        proof {
            assert(queue_view(next@).len() == 0);
            assert(out@ == out0 + render_levels(qv));
        }
    } else {
        push_char(out, '\n');
        proof {
            assert(queue_view(next@).len() == next@.len());
            lemma_next_size(qv);
            assert(out@ =~= out0 + (level_text(qv) + seq!['\n']));
        }
        let ghost out_m = out@;
        render_from(next, out);
        proof {
            assert(out@ == out_m + render_levels(queue_view(next@)));
            assert(out@ =~= out0 + (level_text(qv) + seq!['\n'] + render_levels(next_level(qv))));
            assert(out@ == out0 + render_levels(qv));
        }
    }
}

/// Recursive prefix search: the full words, `s` among their prefixes, whose
/// rest is held by the subtree at the end of the path `s[..i]`, in
/// descending lexicographic order.
fn node_search(n: &Node, s: &str, i: usize, len: usize) -> (r: Vec<String>)
    requires
        n.wf(s@.take(i as int)),
        len == s@.len(),
        0 < len,
        i <= len,
    ensures
        forall|w: Seq<char>|
            #[trigger] r.deep_view().contains(w) <==> (s@.is_prefix_of(w) && n.holds(
                w.skip(i as int),
            )),
        sorted_desc(r.deep_view()),
    decreases len - i,
{
    if i == len {
        let mut out: Vec<String> = Vec::new();
        proof {
            assert(s@.take(i as int) =~= s@);
            assert(out.deep_view() =~= Seq::<Seq<char>>::empty());
        }
        collect_desc(n, &mut out, Ghost(s@));
        proof {
            lemma_words_desc_props(*n, s@);
            assert(out.deep_view() =~= n.words_desc());
        }
        out
    } else {
        let c = s.get_char(i);
        let (found, idx) = find_child(&n.children, c);
        if found {
            proof {
                assert(s@.take(i as int).push(s@[i as int]) =~= s@.take(i + 1 as int));
                assert(n.children@[idx as int].wf(s@.take(i + 1 as int)));
            }
            let r = node_search(&n.children[idx], s, i + 1, len);
            proof {
                assert forall|w: Seq<char>| #[trigger] r.deep_view().contains(w) <==> (
                s@.is_prefix_of(w) && n.holds(w.skip(i as int))) by {
                    if s@.is_prefix_of(w) {
                        let suf = w.skip(i as int);
                        assert(suf[0] == w[i as int]);
                        assert(w[i as int] == s@[i as int]) by {
                            assert(s@[i as int] == w.subrange(0, s@.len() as int)[i as int]);
                        }
                        lemma_child_step(*n, suf, idx as int);
                        assert(suf.skip(1) =~= w.skip(i + 1 as int));
                    }
                }
            }
            r
        } else {
            let r: Vec<String> = Vec::new();
            proof {
                assert(r.deep_view() =~= Seq::<Seq<char>>::empty());
                assert forall|w: Seq<char>| #[trigger] r.deep_view().contains(w) <==> (
                s@.is_prefix_of(w) && n.holds(w.skip(i as int))) by {
                    assert(!r.deep_view().contains(w));
                    if s@.is_prefix_of(w) {
                        let suf = w.skip(i as int);
                        assert(suf[0] == w[i as int]);
                        assert(w[i as int] == s@[i as int]) by {
                            assert(s@[i as int] == w.subrange(0, s@.len() as int)[i as int]);
                        }
                        lemma_no_child(*n, suf);
                    }
                }
            }
            r
        }
    }
}

/// Recursive deletion: removes the suffix of `s` from position `i` from the
/// subtree at the end of the path `s[..i]`, clearing the landing node's
/// terminal flag and stored word. No node is ever removed. Returns whether
/// the word was held.
fn node_delete(n: &mut Node, s: &str, i: usize, len: usize) -> (r: bool)
    requires
        old(n).wf(s@.take(i as int)),
        len == s@.len(),
        i <= len,
    ensures
        final(n).wf(s@.take(i as int)),
        final(n).key == old(n).key,
        r == old(n).holds(s@.skip(i as int)),
        forall|w: Seq<char>|
            final(n).holds(w) <==> (old(n).holds(w) && w != s@.skip(i as int)),
    decreases len - i,
{
    if i == len {
        proof {
            assert(s@.skip(i as int) =~= Seq::<char>::empty());
            assert(s@.take(i as int) =~= s@);
        }
        if n.terminal {
            let word = s.to_owned();
            let stored_matches = match &n.value {
                Some(v) => *v == word,
                None => false,
            };
            if stored_matches {
                n.terminal = false;
                n.value = None;
                proof {
                    assert forall|w: Seq<char>|
                        n.holds(w) <==> (old(n).holds(w) && w != s@.skip(i as int)) by {
                        if w.len() == 0 {
                            assert(w =~= s@.skip(i as int));
                            assert(!n.holds(w));
                        } else {
                            lemma_same_children(*n, *old(n), w);
                        }
                    }
                }
                true
            } else {
                // A terminal node stores exactly the word its path spells,
                // so a mismatch cannot arise; still fall through to `false`
                // rather than touch the tree.
                proof {
                    assert(false);
                }
                false
            }
        } else {
            proof {
                assert forall|w: Seq<char>|
                    n.holds(w) <==> (old(n).holds(w) && w != s@.skip(i as int)) by {
                    if w.len() == 0 {
                        assert(w =~= s@.skip(i as int));
                    }
                }
            }
            false
        }
    } else {
        let c = s.get_char(i);
        proof {
            assert(s@.take(i as int).push(s@[i as int]) =~= s@.take(i + 1 as int));
            assert(s@.skip(i as int)[0] == s@[i as int]);
        }
        let (found, idx) = find_child(&n.children, c);
        if found {
            let ghost oldc = n.children@[idx as int];
            let mut child = n.children.remove(idx);
            let r = node_delete(&mut child, s, i + 1, len);
            let ghost newc = child;
            n.children.insert(idx, child);
            proof {
                assert(n.children@ =~= old(n).children@.update(idx as int, newc));
                assert forall|j: int| 0 <= j < n.children@.len() implies (#[trigger] n.children@[
                    j]).key == old(n).children@[j].key by {}
                assert(Node::children_sorted(n.children@));
                assert forall|j: int| 0 <= j < n.children@.len() implies (#[trigger] n.children@[
                    j]).wf(s@.take(i as int).push(n.children@[j].key->0)) by {
                    if j == idx {
                        assert(n.children@[j] == newc);
                        assert(newc.key->0 == c);
                    } else {
                        assert(n.children@[j] == old(n).children@[j]);
                    }
                }
                assert(n.wf(s@.take(i as int)));
                lemma_child_step(*old(n), s@.skip(i as int), idx as int);
                assert(s@.skip(i as int).skip(1) =~= s@.skip(i + 1 as int));
                assert(r == old(n).holds(s@.skip(i as int)));
                assert forall|w: Seq<char>|
                    n.holds(w) <==> (old(n).holds(w) && w != s@.skip(i as int)) by {
                    if w.len() == 0 {
                        assert(s@.skip(i as int).len() > 0);
                    } else if w[0] == c {
                        lemma_child_step(*n, w, idx as int);
                        lemma_child_step(*old(n), w, idx as int);
                        lemma_cons_suffix(s@, i as int, w);
                        assert(newc.holds(w.skip(1)) <==> (oldc.holds(w.skip(1)) && w.skip(1)
                            != s@.skip(i + 1 as int)));
                    } else {
                        assert(w != s@.skip(i as int));
                        if old(n).holds(w) {
                            let j = choose|j: int|
                                0 <= j < old(n).children.len() && (#[trigger] old(
                                    n,
                                ).children[j]).key == Some(w[0]) && old(n).children[j].holds(
                                    w.skip(1),
                                );
                            assert(j != idx);
                            assert(n.children@[j].key == Some(w[0]) && n.children@[j].holds(
                                w.skip(1),
                            ));
                        }
                        if n.holds(w) {
                            let j = choose|j: int|
                                0 <= j < n.children.len() && (#[trigger] n.children[j]).key
                                    == Some(w[0]) && n.children[j].holds(w.skip(1));
                            assert(j != idx);
                            assert(old(n).children@[j].key == Some(w[0]) && old(
                                n,
                            ).children@[j].holds(w.skip(1)));
                        }
                    }
                }
            }
            r
        } else {
            proof {
                lemma_no_child(*n, s@.skip(i as int));
            }
            false
        }
    }
}

/// A prefix tree over sequences of characters. Its abstract model (the view)
/// is the set of words it holds.
pub struct Trie {
    root: Node,
}

impl View for Trie {
    type V = Set<Seq<char>>;

    /// The set of words held by the trie.
    closed spec fn view(&self) -> Set<Seq<char>> {
        Set::new(|w: Seq<char>| self.root.holds(w))
    }
}

impl Trie {
    /// The structural invariant: the root carries no key, and every node's
    /// stored word spells out its path from the root.
    pub closed spec fn wf(&self) -> bool {
        &&& self.root.key is None
        &&& self.root.wf(Seq::empty())
    }

    /// Returns an empty trie: a lone root holding no words.
    pub fn new() -> (t: Self)
        ensures
            t.wf(),
            t@ == Set::<Seq<char>>::empty(),
    {
        let t = Trie { root: Node::new() };
        proof {
            assert forall|w: Seq<char>| !t.root.holds(w) by {
                if w.len() > 0 {
                    assert(t.root.children.len() == 0);
                }
            }
            assert(t@ =~= Set::<Seq<char>>::empty());
        }
        t
    }

    /// Inserts `s` into the trie: afterwards the trie holds exactly the
    /// words it held before, plus `s`. Inserting a word the trie already
    /// holds leaves it unchanged.
    pub fn insert(&mut self, s: &str)
        requires
            old(self).wf(),
        ensures
            final(self).wf(),
            final(self)@ == old(self)@.insert(s@),
    {
        let len = s.unicode_len();
        proof {
            assert(s@.take(0) =~= Seq::<char>::empty());
        }
        node_insert(&mut self.root, s, 0, len);
        proof {
            assert(s@.skip(0) =~= s@);
            assert(self@ =~= old(self)@.insert(s@));
        }
    }

    /// Returns every word the trie holds that is equal to, or extends, `s`,
    /// in descending lexicographic order. An empty `s` yields an empty
    /// result regardless of the trie's contents, and so does a prefix no
    /// held word starts with.
    pub fn search(&self, s: &str) -> (r: Vec<String>)
        requires
            self.wf(),
        ensures
            forall|w: Seq<char>|
                #[trigger] r.deep_view().contains(w) <==> (s@.len() > 0 && prefix_matches(
                    self@,
                    s@,
                ).contains(w)),
            sorted_desc(r.deep_view()),
            s@.len() == 0 ==> r@.len() == 0,
    {
        let len = s.unicode_len();
        if len == 0 {
            let r: Vec<String> = Vec::new();
            proof {
                assert(r.deep_view() =~= Seq::<Seq<char>>::empty());
                assert(forall|w: Seq<char>| !(#[trigger] r.deep_view().contains(w)));
            }
            return r;
        }
        proof {
            assert(s@.take(0) =~= Seq::<char>::empty());
        }
        let r = node_search(&self.root, s, 0, len);
        proof {
            assert forall|w: Seq<char>| #[trigger] r.deep_view().contains(w) <==> (s@.len() > 0
                && prefix_matches(self@, s@).contains(w)) by {
                assert(w.skip(0) =~= w);
            }
        }
        r
    }

    /// The level-order dump of the trie: one line per tree level, each
    /// child's key and terminal flag in order, lines separated by newlines.
    pub closed spec fn display_spec(&self) -> Seq<char> {
        render_levels(seq![self.root])
    }

    /// Renders the trie in level order, for diagnostics: for every node,
    /// breadth first, each child's key and terminal flag as `k(flag) `, one
    /// tree level per line. Nodes without children are shown but contribute
    /// no further line.
    pub fn to_display_string(&self) -> (r: String)
        requires
            self.wf(),
        ensures
            r@ == self.display_spec(),
    {
        proof {
            lemma_wf_keys_ok(self.root, Seq::empty());
        }
        let mut out = String::new();
        let mut queue: Vec<&Node> = Vec::new();
        queue.push(&self.root);
        proof {
            assert(queue_view(queue@) =~= seq![self.root]);
            assert(out@ =~= Seq::<char>::empty());
        }
        render_from(queue, &mut out);
        proof {
            assert(Seq::<char>::empty() + render_levels(seq![self.root]) =~= render_levels(
                seq![self.root],
            ));
        }
        out
    }

    /// Deletes `s` from the trie, returning true iff the trie held it.
    /// Afterwards the trie holds exactly the words it held before, minus
    /// `s`: deletion only clears the landing node's terminal flag and stored
    /// word, and never removes nodes or touches other words.
    pub fn delete(&mut self, s: &str) -> (r: bool)
        requires
            old(self).wf(),
        ensures
            final(self).wf(),
            final(self)@ == old(self)@.remove(s@),
            r == old(self)@.contains(s@),
    {
        let len = s.unicode_len();
        proof {
            assert(s@.take(0) =~= Seq::<char>::empty());
        }
        let r = node_delete(&mut self.root, s, 0, len);
        proof {
            assert(s@.skip(0) =~= s@);
            assert(self@ =~= old(self)@.remove(s@));
        }
        r
    }

    /// Returns true iff `s` was inserted (and not deleted since): membership
    /// in the word set, decided by walking the path of `s` and reading the
    /// landing node's terminal flag.
    pub fn contains(&self, s: &str) -> (r: bool)
        requires
            self.wf(),
        ensures
            r == self@.contains(s@),
    {
        let len = s.unicode_len();
        proof {
            assert(s@.take(0) =~= Seq::<char>::empty());
        }
        let r = node_exists(&self.root, s, 0, len);
        proof {
            assert(s@.skip(0) =~= s@);
        }
        r
    }
}

} // verus!
