//! The portable record of a searcher: its nodes and its two arrow tables as lists.
use vstd::prelude::*;
use vstd::slice::slice_to_vec;

use crate::maps::{
    black_arrows, black_entries, black_get, blue_arrows, black_insert, blue_entries, blue_get, blue_insert, new_black_table,
    new_blue_table,
};
use crate::model::{NodeView, SearcherView};
use crate::text_searcher::{KeywordNode, TextSearcher};

verus! {

/// Why a record is not a searcher.
pub enum RecordFault {
    /// There is no root, or the root is not empty.
    Root,
    /// The black arrow at this index repeats a key, leaves the nodes, or does not
    /// add one character.
    Black(usize),
    /// The blue arrow at this index repeats a key, leaves the nodes, or does not
    /// lead to a shorter node.
    Blue(usize),
}

/// The errors of the searcher's boundary.
pub enum SearchError {
    /// The handle is unknown, freed, or checked out by another call.
    InvalidHandle(i32),
    /// The record handed in does not describe a searcher.
    Malformed(RecordFault),
    /// The lock that guards the registry is unavailable.
    LockFailure,
}

/// The map that a list of pairs describes; a later pair wins over an earlier one.
pub open spec fn pairs_to_map<K, V>(s: Seq<(K, V)>) -> Map<K, V>
    decreases s.len(),
{
    if s.len() == 0 {
        Map::empty()
    } else {
        pairs_to_map(s.drop_last()).insert(s.last().0, s.last().1)
    }
}

/// No two pairs share a key.
pub open spec fn keys_unique<K, V>(s: Seq<(K, V)>) -> bool {
    forall|i: int, j: int| 0 <= i < j < s.len() ==> #[trigger] s[i].0 != #[trigger] s[j].0
}

/// What a record holds.
pub struct RecordView {
    pub nodes: Seq<NodeView>,
    pub blacks: Seq<((usize, char), usize)>,
    pub blues: Seq<(usize, usize)>,
}

impl RecordView {
    /// The searcher that the record describes.
    pub open spec fn searcher(self) -> SearcherView {
        SearcherView {
            nodes: self.nodes,
            blacks: pairs_to_map(self.blacks),
            blues: pairs_to_map(self.blues),
        }
    }

    /// The record describes a well-formed searcher, each key once.
    pub open spec fn consistent(self) -> bool {
        &&& keys_unique(self.blacks)
        &&& keys_unique(self.blues)
        &&& self.searcher().wf()
    }

    /// There is a root, and it is empty.
    pub open spec fn root_ok(self) -> bool {
        self.nodes.len() >= 1 && self.nodes[0].length == 0
    }

    /// Black arrow `i` joins two nodes, adds one character, and has a key of its own.
    pub open spec fn black_entry_ok(self, i: int) -> bool {
        &&& self.searcher().black_ok(self.blacks[i])
        &&& forall|j: int| 0 <= j < i ==> self.blacks[j].0 != self.blacks[i].0
    }

    /// Blue arrow `i` joins two nodes, leads to a shorter one, and has a key of its own.
    pub open spec fn blue_entry_ok(self, i: int) -> bool {
        &&& self.searcher().blue_ok(self.blues[i])
        &&& forall|j: int| 0 <= j < i ==> self.blues[j].0 != self.blues[i].0
    }

    /// Black arrow `i` is the first one that is not in order.
    pub open spec fn first_bad_black(self, i: int) -> bool {
        &&& 0 <= i < self.blacks.len()
        &&& !self.black_entry_ok(i)
        &&& forall|j: int| 0 <= j < i ==> #[trigger] self.black_entry_ok(j)
    }

    /// Blue arrow `i` is the first one that is not in order.
    pub open spec fn first_bad_blue(self, i: int) -> bool {
        &&& 0 <= i < self.blues.len()
        &&& !self.blue_entry_ok(i)
        &&& forall|j: int| 0 <= j < i ==> #[trigger] self.blue_entry_ok(j)
    }

    /// What is wrong with the record, checked in this order: the root, the black
    /// arrows, the blue arrows; `None` when nothing is.
    pub open spec fn fault(self) -> Option<RecordFault> {
        if !self.root_ok() {
            Some(RecordFault::Root)
        } else if exists|i: int| self.first_bad_black(i) {
            Some(RecordFault::Black((choose|i: int| self.first_bad_black(i)) as usize))
        } else if exists|i: int| self.first_bad_blue(i) {
            Some(RecordFault::Blue((choose|i: int| self.first_bad_blue(i)) as usize))
        } else {
            None
        }
    }

    /// The record is an export of `a`: the same nodes, and each arrow once, in any order.
    pub open spec fn exports(self, a: SearcherView) -> bool {
        &&& self.nodes == a.nodes
        &&& keys_unique(self.blacks)
        &&& keys_unique(self.blues)
        &&& pairs_to_map(self.blacks) == a.blacks
        &&& pairs_to_map(self.blues) == a.blues
    }
}

/// The portable form of a searcher.
pub struct TextSearcherForSerde {
    pub nodes: Vec<KeywordNode>,
    pub blacks: Vec<((usize, char), usize)>,
    pub blues: Vec<(usize, usize)>,
}

impl View for TextSearcherForSerde {
    type V = RecordView;

    open spec fn view(&self) -> RecordView {
        RecordView {
            nodes: self.nodes@.map_values(|n: KeywordNode| n@),
            blacks: self.blacks@,
            blues: self.blues@,
        }
    }
}

/// With each key once, the map holds exactly the pairs of the list.
proof fn lemma_pairs_to_map<K, V>(s: Seq<(K, V)>)
    requires
        keys_unique(s),
    ensures
        forall|i: int| 0 <= i < s.len() ==> #[trigger] pairs_to_map(s).contains_key(s[i].0)
            && pairs_to_map(s)[s[i].0] == s[i].1,
        forall|k: K| #[trigger] pairs_to_map(s).contains_key(k) ==> exists|i: int| 0 <= i < s.len() && s[i].0 == k,
    decreases s.len(),
{
    if s.len() > 0 {
        let t = s.drop_last();
        assert(keys_unique(t)) by {
            assert forall|i: int, j: int| 0 <= i < j < t.len() implies #[trigger] t[i].0 != #[trigger] t[j].0 by {
                assert(s[i].0 != s[j].0);
            }
        }
        lemma_pairs_to_map(t);
        assert forall|i: int| 0 <= i < s.len() implies #[trigger] pairs_to_map(s).contains_key(s[i].0)
            && pairs_to_map(s)[s[i].0] == s[i].1 by {
            assert(pairs_to_map(s) == pairs_to_map(t).insert(s.last().0, s.last().1));
            if i < s.len() - 1 {
                assert(t[i] == s[i]);
                assert(pairs_to_map(t).contains_key(t[i].0));
                assert(s[i].0 != s[s.len() - 1].0);
            }
        }
        assert forall|k: K| #[trigger] pairs_to_map(s).contains_key(k) implies exists|i: int|
            0 <= i < s.len() && s[i].0 == k by {
            assert(pairs_to_map(s) == pairs_to_map(t).insert(s.last().0, s.last().1));
            if k != s.last().0 {
                assert(pairs_to_map(t).contains_key(k));
                let i = choose|i: int| 0 <= i < t.len() && t[i].0 == k;
                assert(s[i] == t[i]);
            } else {
                assert(s[s.len() - 1].0 == k);
            }
        }
    }
}

/// Two lists that hold the same pairs, each key once, describe the same map.
proof fn lemma_same_pairs_same_map<K, V>(s: Seq<(K, V)>, m: Map<K, V>)
    requires
        keys_unique(s),
        forall|i: int| 0 <= i < s.len() ==> m.contains_key(#[trigger] s[i].0) && m[s[i].0] == s[i].1,
        forall|k: K| m.contains_key(k) ==> exists|i: int| 0 <= i < s.len() && #[trigger] s[i].0 == k,
    ensures
        pairs_to_map(s) == m,
{
    lemma_pairs_to_map(s);
    assert forall|k: K| #[trigger] pairs_to_map(s).contains_key(k) <==> m.contains_key(k) by {
        if m.contains_key(k) {
            let i = choose|i: int| 0 <= i < s.len() && #[trigger] s[i].0 == k;
            assert(pairs_to_map(s).contains_key(s[i].0));
        }
        if pairs_to_map(s).contains_key(k) {
            let i = choose|i: int| 0 <= i < s.len() && s[i].0 == k;
            assert(m.contains_key(s[i].0));
        }
    }
    assert forall|k: K| #[trigger] pairs_to_map(s).contains_key(k) implies pairs_to_map(s)[k] == m[k] by {
        let i = choose|i: int| 0 <= i < s.len() && s[i].0 == k;
        assert(pairs_to_map(s).contains_key(s[i].0));
        assert(m.contains_key(s[i].0));
    }
    assert(pairs_to_map(s) =~= m);
}

impl KeywordNode {
    /// A node with the same contents.
    fn duplicate(&self) -> (r: KeywordNode)
        ensures
            r@ == self@,
    {
        KeywordNode {
            letters: slice_to_vec(self.letters.as_slice()),
            length: self.length,
            name: self.name.clone(),
            is_blue: self.is_blue,
        }
    }
}

impl TextSearcherForSerde {
    /// The record of a searcher: its nodes, then its arrows in the order in which
    /// the tables hand them out.
    pub fn from(ts: &TextSearcher) -> (r: Self)
        ensures
            r@.exports(ts@),
    {
        let mut nodes: Vec<KeywordNode> = Vec::new();
        let mut i: usize = 0;
        while i < ts.nodes.len()
            invariant
                i <= ts.nodes@.len(),
                nodes@.len() == i,
                forall|j: int| 0 <= j < i ==> (#[trigger] nodes@[j])@ == ts.nodes@[j]@,
            decreases ts.nodes@.len() - i,
        {
            nodes.push(ts.nodes[i].duplicate());
            i += 1;
        }
        let blacks = black_entries(&ts.blacks);
        let blues = blue_entries(&ts.blues);
        let r = TextSearcherForSerde { nodes, blacks, blues };
        proof {
            assert(r@.nodes =~= ts@.nodes);
            lemma_same_pairs_same_map(r@.blacks, ts@.blacks);
            lemma_same_pairs_same_map(r@.blues, ts@.blues);
        }
        r
    }

    /// Rebuilds the searcher that the record describes; the order of the arrow lists
    /// does not matter. Fails, naming the first fault, when the record is not
    /// consistent.
    pub fn to(self) -> (r: Result<TextSearcher, SearchError>)
        ensures
            self@.consistent() <==> r is Ok,
            self@.fault() is None <==> self@.consistent(),
            match self@.fault() {
                Some(f) => r == Err::<TextSearcher, SearchError>(SearchError::Malformed(f)),
                None => r matches Ok(ts) && ts@ == self@.searcher(),
            },
    {
        let ghost rec = self@;
        let ghost sv = rec.searcher();
        let n = self.nodes.len();
        if n == 0 || self.nodes[0].length != 0 {
            return Err(SearchError::Malformed(RecordFault::Root));
        }
        let mut blacks = new_black_table();
        let mut i: usize = 0;
        while i < self.blacks.len()
            invariant
                rec == self@,
                sv == rec.searcher(),
                n == self.nodes@.len(),
                n >= 1,
                i <= self.blacks@.len(),
                black_arrows(blacks) == pairs_to_map(self.blacks@.take(i as int)),
                keys_unique(self.blacks@.take(i as int)),
                forall|j: int| 0 <= j < i ==> sv.black_ok(#[trigger] self.blacks@[j]),
                forall|j: int| 0 <= j < i ==> #[trigger] rec.black_entry_ok(j),
                rec.root_ok(),
            decreases self.blacks@.len() - i,
        {
            let entry = self.blacks[i];
            let (key, target) = entry;
            let (from, _letter) = key;
            proof {
                assert(self.blacks@.take(i + 1).drop_last() =~= self.blacks@.take(i as int));
                lemma_pairs_to_map(self.blacks@.take(i as int));
            }
            let fresh = black_get(&blacks, key.0, key.1).is_none();
            if !fresh || from < 1 || from > n || target < 1 || target > n
                || self.nodes[target - 1].length == 0
                || self.nodes[target - 1].length - 1 != self.nodes[from - 1].length {
                proof {
                    if !fresh {
                        let j = choose|j: int| 0 <= j < i && self.blacks@.take(i as int)[j].0 == key;
                        assert(self.blacks@[j].0 == self.blacks@[i as int].0);
                    } else if keys_unique(self.blacks@) {
                        lemma_pairs_to_map(self.blacks@);
                        assert(sv.blacks.contains_key(key));
                    }
                    assert(!rec.black_entry_ok(i as int));
                    assert(rec.first_bad_black(i as int));
                    let c = choose|c: int| rec.first_bad_black(c);
                    if c < i {
                        assert(rec.black_entry_ok(c));
                    }
                    if c > i {
                        assert(rec.black_entry_ok(i as int));
                    }
                }
                return Err(SearchError::Malformed(RecordFault::Black(i)));
            }
            black_insert(&mut blacks, key.0, key.1, target);
            proof {
                assert forall|j: int| 0 <= j < i implies self.blacks@[j].0 != self.blacks@[i as int].0 by {
                    assert(self.blacks@.take(i as int)[j] == self.blacks@[j]);
                }
                assert(rec.black_entry_ok(i as int));
                assert(keys_unique(self.blacks@.take(i + 1))) by {
                    let t = self.blacks@.take(i + 1);
                    assert forall|a: int, b: int| 0 <= a < b < t.len() implies #[trigger] t[a].0 != #[trigger] t[b].0 by {
                        if b == i {
                            assert(pairs_to_map(self.blacks@.take(i as int)).contains_key(t[a].0));
                        } else {
                            assert(self.blacks@.take(i as int)[a] == t[a]);
                            assert(self.blacks@.take(i as int)[b] == t[b]);
                        }
                    }
                }
            }
            i += 1;
        }
        proof {
            assert(self.blacks@.take(self.blacks@.len() as int) =~= self.blacks@);
        }
        let mut blues = new_blue_table();
        let mut i: usize = 0;
        while i < self.blues.len()
            invariant
                rec == self@,
                sv == rec.searcher(),
                n == self.nodes@.len(),
                n >= 1,
                i <= self.blues@.len(),
                blue_arrows(blues) == pairs_to_map(self.blues@.take(i as int)),
                keys_unique(self.blues@.take(i as int)),
                forall|j: int| 0 <= j < i ==> sv.blue_ok(#[trigger] self.blues@[j]),
                forall|j: int| 0 <= j < i ==> #[trigger] rec.blue_entry_ok(j),
                forall|j: int| 0 <= j < self.blacks@.len() ==> #[trigger] rec.black_entry_ok(j),
                rec.root_ok(),
            decreases self.blues@.len() - i,
        {
            let entry = self.blues[i];
            let (from, target) = entry;
            proof {
                assert(self.blues@.take(i + 1).drop_last() =~= self.blues@.take(i as int));
                lemma_pairs_to_map(self.blues@.take(i as int));
            }
            let fresh = blue_get(&blues, from).is_none();
            if !fresh || from < 1 || from > n || target < 1 || target > n
                || self.nodes[target - 1].length >= self.nodes[from - 1].length {
                proof {
                    if !fresh {
                        let j = choose|j: int| 0 <= j < i && self.blues@.take(i as int)[j].0 == from;
                        assert(self.blues@[j].0 == self.blues@[i as int].0);
                    } else if keys_unique(self.blues@) {
                        lemma_pairs_to_map(self.blues@);
                        assert(sv.blues.contains_key(from));
                    }
                    assert(!rec.blue_entry_ok(i as int));
                    assert(rec.first_bad_blue(i as int));
                    let c = choose|c: int| rec.first_bad_blue(c);
                    if c < i {
                        assert(rec.blue_entry_ok(c));
                    }
                    if c > i {
                        assert(rec.blue_entry_ok(i as int));
                    }
                    assert(!exists|d: int| rec.first_bad_black(d));
                }
                return Err(SearchError::Malformed(RecordFault::Blue(i)));
            }
            blue_insert(&mut blues, from, target);
            proof {
                assert forall|j: int| 0 <= j < i implies self.blues@[j].0 != self.blues@[i as int].0 by {
                    assert(self.blues@.take(i as int)[j] == self.blues@[j]);
                }
                assert(rec.blue_entry_ok(i as int));
                assert(keys_unique(self.blues@.take(i + 1))) by {
                    let t = self.blues@.take(i + 1);
                    assert forall|a: int, b: int| 0 <= a < b < t.len() implies #[trigger] t[a].0 != #[trigger] t[b].0 by {
                        if b == i {
                            assert(pairs_to_map(self.blues@.take(i as int)).contains_key(t[a].0));
                        } else {
                            assert(self.blues@.take(i as int)[a] == t[a]);
                            assert(self.blues@.take(i as int)[b] == t[b]);
                        }
                    }
                }
            }
            i += 1;
        }
        proof {
            assert(!exists|d: int| rec.first_bad_black(d));
            assert(!exists|d: int| rec.first_bad_blue(d));
            assert(self.blues@.take(self.blues@.len() as int) =~= self.blues@);
            lemma_pairs_to_map(self.blacks@);
            lemma_pairs_to_map(self.blues@);
            assert forall|k: (usize, char)| #[trigger] sv.blacks.contains_key(k) implies {
                &&& sv.valid(k.0)
                &&& sv.valid(sv.blacks[k])
                &&& sv.len_of(sv.blacks[k]) == sv.len_of(k.0) + 1
            } by {
                let j = choose|j: int| 0 <= j < self.blacks@.len() && self.blacks@[j].0 == k;
                assert(sv.black_ok(self.blacks@[j]));
            }
            assert forall|u: usize| #[trigger] sv.blues.contains_key(u) implies {
                &&& sv.valid(u)
                &&& sv.valid(sv.blues[u])
                &&& sv.len_of(sv.blues[u]) < sv.len_of(u)
            } by {
                let j = choose|j: int| 0 <= j < self.blues@.len() && self.blues@[j].0 == u;
                assert(sv.blue_ok(self.blues@[j]));
            }
        }
        let ts = TextSearcher { nodes: self.nodes, blacks, blues };
        proof {
            assert(ts@.nodes =~= sv.nodes);
        }
        Ok(ts)
    }
}

} // verus!
