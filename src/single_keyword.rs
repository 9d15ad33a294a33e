//! With one keyword, whole-text matching finds exactly its occurrences.
use vstd::prelude::*;

use crate::model::{empty_searcher, locate, suffix_node, Event, NodeView, SearcherView};
use crate::registry::{built, inserted_all, KeywordSpec};

verus! {

/// The text ends with `w`.
pub open spec fn ends_with(t: Seq<char>, w: Seq<char>) -> bool {
    w.len() <= t.len() && t.subrange(t.len() - w.len(), t.len() as int) == w
}

/// One event `(k, i, i + k.len())` for each occurrence of `k` in `t` at offset `i`,
/// in order.
pub open spec fn occurrences(k: Seq<char>, t: Seq<char>) -> Seq<Event>
    decreases t.len(),
{
    if t.len() == 0 {
        seq![]
    } else {
        occurrences(k, t.drop_last()) + if ends_with(t, k) {
            seq![(k, t.len() - k.len(), t.len() as int)]
        } else {
            Seq::<Event>::empty()
        }
    }
}

/// The black arrows of the trie of `k`: prefix `j` (node `j + 1`) goes on `k[j]` to
/// prefix `j + 1`, for the first `i` characters.
pub open spec fn chain_blacks(k: Seq<char>, i: nat) -> Map<(usize, char), usize> {
    Map::new(
        |key: (usize, char)| 1 <= key.0 <= i && key.1 == k[key.0 - 1],
        |key: (usize, char)| (key.0 + 1) as usize,
    )
}

/// The trie of the first `i` characters of `k`, before the keyword is marked.
pub open spec fn chain(k: Seq<char>, i: nat) -> SearcherView {
    SearcherView {
        nodes: Seq::new(i + 1, |j: int| NodeView { letters: k.take(j), length: j as nat, name: seq![], is_blue: false }),
        blacks: chain_blacks(k, i),
        blues: Map::empty(),
    }
}

proof fn lemma_grow_chain(k: Seq<char>, i: nat)
    requires
        i <= k.len(),
        k.len() + 2 < usize::MAX,
    ensures
        chain(k, i).grow(k, i, (i + 1) as usize) == (chain(k, k.len()), (k.len() + 1) as usize),
    decreases k.len() - i,
{
    if i < k.len() {
        let c = chain(k, i);
        assert(!c.blacks.contains_key(((i + 1) as usize, k[i as int])));
        let id = (c.nodes.len() + 1) as usize;
        assert(id == i + 2);
        let node = NodeView { letters: k.take(i + 1 as int), length: i + 1, name: seq![], is_blue: false };
        let next = SearcherView {
            nodes: c.nodes.push(node),
            blacks: c.blacks.insert(((i + 1) as usize, k[i as int]), id),
            blues: c.blues,
        };
        assert(next.nodes =~= chain(k, i + 1).nodes);
        assert(next.blacks =~= chain(k, i + 1).blacks);
        assert(next == chain(k, i + 1));
        lemma_grow_chain(k, i + 1);
    }
}

/// The finished searcher of the single keyword `k`.
pub open spec fn single(k: Seq<char>) -> SearcherView {
    SearcherView {
        nodes: Seq::new(
            k.len() + 1,
            |j: int| NodeView {
                letters: seq![],
                length: j as nat,
                name: if j == k.len() { k } else { seq![] },
                is_blue: j == k.len(),
            },
        ),
        blacks: chain_blacks(k, k.len()),
        blues: Map::new(
            |u: usize| 1 <= u <= k.len() + 1 && suffix_node(chain_blacks(k, k.len()), k.take(u - 1), 1) != 0,
            |u: usize| suffix_node(chain_blacks(k, k.len()), k.take(u - 1), 1),
        ),
    }
}

proof fn lemma_built_single(k: Seq<char>)
    requires
        k.len() + 2 < usize::MAX,
    ensures
        built(seq![(k, None::<Seq<char>>)]) == single(k),
{
    let kws: Seq<KeywordSpec> = seq![(k, None::<Seq<char>>)];
    assert(kws.drop_last() =~= Seq::<KeywordSpec>::empty());
    assert(inserted_all(empty_searcher(), kws.drop_last()) == empty_searcher());
    assert(kws.last() == (k, None::<Seq<char>>));
    assert(inserted_all(empty_searcher(), kws) == empty_searcher().inserted(k, k));
    assert(k.take(0) =~= Seq::<char>::empty());
    assert(chain(k, 0).nodes[0] == NodeView { letters: seq![], length: 0, name: seq![], is_blue: false });
    assert(empty_searcher().nodes =~= chain(k, 0).nodes);
    assert(empty_searcher().blacks =~= chain(k, 0).blacks);
    assert(empty_searcher() == chain(k, 0));
    lemma_grow_chain(k, 0);
    let g = chain(k, k.len());
    let ins = empty_searcher().inserted(k, k);
    assert(ins.nodes == g.nodes.update(k.len() as int, NodeView { name: k, is_blue: true, ..g.nodes[k.len() as int] }));
    assert(ins.blacks == g.blacks);
    let l = ins.linked();
    assert(l.nodes =~= single(k).nodes);
    assert forall|u: usize| ins.valid(u) implies #[trigger] ins.link(u) == suffix_node(chain_blacks(k, k.len()), k.take(u - 1), 1) by {
        assert(ins.nodes[u - 1].letters == k.take(u - 1));
    }
    assert(l.blues =~= single(k).blues);
}

proof fn lemma_locate_chain(k: Seq<char>, w: Seq<char>)
    requires
        k.len() + 2 < usize::MAX,
    ensures
        locate(chain_blacks(k, k.len()), w) == (if w.len() <= k.len() && w == k.take(w.len() as int) {
            (w.len() + 1) as usize
        } else {
            0usize
        }),
    decreases w.len(),
{
    let b = chain_blacks(k, k.len());
    if w.len() == 0 {
        assert(w =~= k.take(0));
    } else {
        let p = w.drop_last();
        lemma_locate_chain(k, p);
        if p.len() <= k.len() && p == k.take(p.len() as int) {
            let u = (p.len() + 1) as usize;
            if p.len() < k.len() && w.last() == k[p.len() as int] {
                assert(b.contains_key((u, w.last())));
                assert(w =~= k.take(w.len() as int));
            } else {
                assert(!b.contains_key((u, w.last())));
                if w.len() <= k.len() && w == k.take(w.len() as int) {
                    assert(w.last() == k[p.len() as int]);
                }
            }
        } else {
            if w.len() <= k.len() && w == k.take(w.len() as int) {
                assert(p =~= k.take(p.len() as int));
            }
        }
    }
}

/// `k.take(b)` is a suffix of `w`.
pub open spec fn border(k: Seq<char>, w: Seq<char>, b: nat) -> bool {
    b <= k.len() && ends_with(w, k.take(b as int))
}

proof fn lemma_suffix_node_chain(k: Seq<char>, w: Seq<char>, s: int)
    requires
        k.len() + 2 < usize::MAX,
        w.len() <= k.len(),
        0 <= s,
    ensures
        suffix_node(chain_blacks(k, k.len()), w, s) != 0 ==> {
            let b = suffix_node(chain_blacks(k, k.len()), w, s) - 1;
            &&& 1 <= b <= w.len() - s
            &&& border(k, w, b as nat)
            &&& forall|b2: nat| b < b2 <= w.len() - s ==> !#[trigger] border(k, w, b2)
        },
        suffix_node(chain_blacks(k, k.len()), w, s) == 0 ==> forall|b2: nat|
            1 <= b2 <= w.len() - s ==> !#[trigger] border(k, w, b2),
    decreases w.len() - s,
{
    let bl = chain_blacks(k, k.len());
    if s < w.len() {
        let x = w.subrange(s, w.len() as int);
        lemma_locate_chain(k, x);
        let top = (w.len() - s) as nat;
        assert(border(k, w, top) <==> x == k.take(top as int));
        lemma_suffix_node_chain(k, w, s + 1);
        if locate(bl, x) == 0 {
            assert(!border(k, w, top));
            if suffix_node(bl, w, s + 1) == 0 {
                assert forall|b2: nat| 1 <= b2 <= w.len() - s implies !#[trigger] border(k, w, b2) by {
                    if b2 < top {
                        assert(1 <= b2 <= w.len() - (s + 1));
                    }
                }
            } else {
                let b = suffix_node(bl, w, s + 1) - 1;
                assert forall|b2: nat| b < b2 <= w.len() - s implies !#[trigger] border(k, w, b2) by {
                    if b2 < top {
                        assert(b < b2 <= w.len() - (s + 1));
                    }
                }
            }
        }
    }
}

/// `k.take(j)` is the longest prefix of `k` that ends the text.
pub open spec fn longest_end(k: Seq<char>, t: Seq<char>, j: nat) -> bool {
    &&& j <= k.len()
    &&& ends_with(t, k.take(j as int))
    &&& forall|q: nat| j < q <= k.len() ==> !#[trigger] ends_with(t, k.take(q as int))
}

proof fn lemma_ends_with_push(t: Seq<char>, c: char, k: Seq<char>, q: nat)
    requires
        1 <= q <= k.len(),
    ensures
        ends_with(t.push(c), k.take(q as int)) <==> (ends_with(t, k.take(q - 1)) && k[q - 1] == c),
{
    let tc = t.push(c);
    let x = k.take(q as int);
    if ends_with(tc, x) {
        assert(t.subrange(t.len() - (q - 1), t.len() as int) =~= tc.subrange(tc.len() - q, tc.len() - 1));
        assert(tc.subrange(tc.len() - q, tc.len() - 1) =~= x.take(q - 1));
        assert(x.take(q - 1) =~= k.take(q - 1));
        assert(tc[tc.len() - 1] == x[q - 1]);
    }
    if ends_with(t, k.take(q - 1)) && k[q - 1] == c {
        assert(tc.subrange(tc.len() - q, tc.len() as int) =~= x);
    }
}

proof fn lemma_ends_with_shorter(t: Seq<char>, a: Seq<char>, b: Seq<char>)
    requires
        ends_with(t, a),
        b.len() <= a.len(),
    ensures
        ends_with(t, b) <==> ends_with(a, b),
{
    assert(t.subrange(t.len() - b.len(), t.len() as int) =~= a.subrange(a.len() - b.len(), a.len() as int));
}

proof fn lemma_single_wf(k: Seq<char>)
    requires
        k.len() > 0,
        k.len() + 2 < usize::MAX,
    ensures
        single(k).wf(),
{
    let v = single(k);
    let bl = chain_blacks(k, k.len());
    assert forall|u: usize| #[trigger] v.blues.contains_key(u) implies {
        &&& v.valid(u)
        &&& v.valid(v.blues[u])
        &&& v.len_of(v.blues[u]) < v.len_of(u)
    } by {
        lemma_suffix_node_chain(k, k.take(u - 1), 1);
    }
}

proof fn lemma_feed_single(k: Seq<char>, t: Seq<char>, c: char, j: nat)
    requires
        k.len() > 0,
        k.len() + 2 < usize::MAX,
        j <= k.len(),
        ends_with(t, k.take(j as int)),
        forall|q: nat| j < q < k.len() ==> !(#[trigger] ends_with(t, k.take(q as int)) && k[q as int] == c),
    ensures
        ({
            let (v, ev) = single(k).feed((j + 1) as usize, c, t.len() + 1 as int);
            &&& 1 <= v
            &&& longest_end(k, t.push(c), (v - 1) as nat)
            &&& ev == (if v - 1 == k.len() {
                seq![(k, t.len() + 1 - k.len(), t.len() + 1 as int)]
            } else {
                Seq::<Event>::empty()
            })
        }),
    decreases j,
{
    let sv = single(k);
    let bl = chain_blacks(k, k.len());
    let u = (j + 1) as usize;
    let tc = t.push(c);
    lemma_single_wf(k);
    lemma_suffix_node_chain(k, k.take(j as int), 1);
    let (v, used) = sv.step(u, c);
    if bl.contains_key((u, c)) {
        assert(j < k.len() && c == k[j as int]);
        assert(v == j + 2 && used);
        lemma_ends_with_push(t, c, k, j + 1);
        assert forall|q: nat| j + 1 < q <= k.len() implies !#[trigger] ends_with(tc, k.take(q as int)) by {
            lemma_ends_with_push(t, c, k, q);
        }
        if v - 1 == k.len() {
            assert(sv.nodes[v - 1].name == k);
        }
    } else {
        assert(!(j < k.len() && c == k[j as int]));
        let w = k.take(j as int);
        if sv.blues.contains_key(u) {
            let b = (sv.blues[u] - 1) as nat;
            assert(1 <= b < j && border(k, w, b));
            assert(ends_with(t, k.take(b as int))) by {
                lemma_ends_with_shorter(t, w, k.take(b as int));
            }
            assert forall|q: nat| b < q < k.len() implies !(#[trigger] ends_with(t, k.take(q as int)) && k[q as int] == c) by {
                if q < j {
                    lemma_ends_with_shorter(t, w, k.take(q as int));
                    assert(!border(k, w, q));
                }
            }
            lemma_feed_single(k, t, c, b);
            assert(sv.feed(u, c, t.len() + 1 as int) == sv.feed(sv.blues[u], c, t.len() + 1 as int));
        } else if j != 0 {
            assert(ends_with(t, k.take(0))) by {
                assert(t.subrange(t.len() as int, t.len() as int) =~= k.take(0));
            }
            assert forall|q: nat| 0 < q < k.len() implies !(#[trigger] ends_with(t, k.take(q as int)) && k[q as int] == c) by {
                if q < j {
                    lemma_ends_with_shorter(t, w, k.take(q as int));
                    assert(!border(k, w, q));
                }
            }
            lemma_feed_single(k, t, c, 0);
            assert(sv.feed(u, c, t.len() + 1 as int) == sv.feed(1, c, t.len() + 1 as int));
        } else {
            assert(v == 1 && used);
            assert(ends_with(tc, k.take(0))) by {
                assert(tc.subrange(tc.len() as int, tc.len() as int) =~= k.take(0));
            }
            assert forall|q: nat| 0 < q <= k.len() implies !#[trigger] ends_with(tc, k.take(q as int)) by {
                lemma_ends_with_push(t, c, k, q);
                if q == 1 {
                    assert(!bl.contains_key((1usize, c)));
                }
            }
        }
    }
}

proof fn lemma_scan_single(k: Seq<char>, t: Seq<char>)
    requires
        k.len() > 0,
        k.len() + 2 < usize::MAX,
    ensures
        single(k).scan(t).0 >= 1,
        longest_end(k, t, (single(k).scan(t).0 - 1) as nat),
        single(k).scan(t).1 == occurrences(k, t),
    decreases t.len(),
{
    let sv = single(k);
    if t.len() == 0 {
        assert(t.subrange(0, 0) =~= k.take(0));
    } else {
        let p = t.drop_last();
        let c = t.last();
        assert(p.push(c) =~= t);
        lemma_scan_single(k, p);
        let (u, evs) = sv.scan(p);
        let j = (u - 1) as nat;
        lemma_feed_single(k, p, c, j);
        let (v, ev) = sv.feed(u, c, t.len() as int);
        assert(k.take(k.len() as int) =~= k);
        if ends_with(t, k) {
            assert(v - 1 == k.len());
        }
    }
}

/// With the single keyword `k` (not empty), whole-text matching reports
/// `(k, i, i + k.len())` for each occurrence of `k` in the text at offset `i`, in
/// order, and nothing else.
pub proof fn lemma_single_keyword(k: Seq<char>, t: Seq<char>)
    requires
        k.len() > 0,
        k.len() + 2 < usize::MAX,
    ensures
        built(seq![(k, None::<Seq<char>>)]).matches(t) == occurrences(k, t),
{
    lemma_built_single(k);
    lemma_scan_single(k, t);
}

} // verus!
