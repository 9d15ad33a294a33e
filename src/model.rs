//! The mathematical model of a searcher: its nodes, its two arrow maps, and
//! what each query mode returns on a text.
use vstd::prelude::*;

use crate::maps::{BlackMap, BlueMap};

verus! {

/// A match event: output name, first character position, end position (exclusive).
pub type Event = (Seq<char>, int, int);

/// What a trie node holds.
pub struct NodeView {
    pub letters: Seq<char>,
    pub length: nat,
    pub name: Seq<char>,
    pub is_blue: bool,
}

/// What a searcher holds. Node ids start at 1 (the root); `nodes[id - 1]` is node `id`.
pub struct SearcherView {
    pub nodes: Seq<NodeView>,
    pub blacks: BlackMap,
    pub blues: BlueMap,
}

/// Walks the black arrows from the root along `w`: the node reached, or 0.
pub open spec fn locate(blacks: BlackMap, w: Seq<char>) -> usize
    decreases w.len(),
{
    if w.len() == 0 {
        1
    } else {
        let u = locate(blacks, w.drop_last());
        if u != 0 && blacks.contains_key((u, w.last())) {
            blacks[(u, w.last())]
        } else {
            0
        }
    }
}

/// The node of the longest suffix `w[s..]`, `w[s+1..]`, ... (each shorter than `w`
/// when `s >= 1`) that is a trie path, or 0 when none is.
pub open spec fn suffix_node(blacks: BlackMap, w: Seq<char>, s: int) -> usize
    decreases w.len() - s,
{
    if s >= w.len() || s < 0 {
        0
    } else if locate(blacks, w.subrange(s, w.len() as int)) != 0 {
        locate(blacks, w.subrange(s, w.len() as int))
    } else {
        suffix_node(blacks, w, s + 1)
    }
}

/// A carriage return or a line feed ends a line.
pub open spec fn is_line_break(c: char) -> bool {
    c == '\r' || c == '\n'
}

/// Splits a text into its finished lines and the line still open at its end.
pub open spec fn split_lines(text: Seq<char>) -> (Seq<Seq<char>>, Seq<char>)
    decreases text.len(),
{
    if text.len() == 0 {
        (seq![], seq![])
    } else {
        let (done, cur) = split_lines(text.drop_last());
        if is_line_break(text.last()) {
            (done.push(cur), seq![])
        } else {
            (done, cur.push(text.last()))
        }
    }
}

/// Commits a pending candidate unless it starts before the cursor: the text between
/// the cursor and the candidate is copied, then the candidate's name.
pub open spec fn commit(text: Seq<char>, out: Seq<char>, cursor: int, cand: Event) -> (Seq<char>, int) {
    if cand.1 >= cursor {
        (out + text.subrange(cursor, cand.1) + cand.0, cand.2)
    } else {
        (out, cursor)
    }
}

/// Folds match events into `(output so far, cursor, pending candidate)`: a candidate
/// is committed when an event with another start arrives.
pub open spec fn absorb(text: Seq<char>, evs: Seq<Event>) -> (Seq<char>, int, Event)
    decreases evs.len(),
{
    if evs.len() == 0 {
        (seq![], 0, (seq![], 0, 0))
    } else {
        let (out, cursor, last) = absorb(text, evs.drop_last());
        let e = evs.last();
        if e.1 != last.1 {
            let (o2, c2) = commit(text, out, cursor, last);
            (o2, c2, e)
        } else {
            (out, cursor, e)
        }
    }
}

/// A searcher with the root alone.
pub open spec fn empty_searcher() -> SearcherView {
    SearcherView {
        nodes: seq![NodeView { letters: seq![], length: 0, name: seq![], is_blue: false }],
        blacks: Map::empty(),
        blues: Map::empty(),
    }
}

impl SearcherView {
    pub open spec fn valid(self, u: usize) -> bool {
        1 <= u <= self.nodes.len()
    }

    pub open spec fn len_of(self, u: usize) -> int {
        self.nodes[u - 1].length as int
    }

    /// The structure that every query relies on: a root of length 0, black arrows
    /// that add one character, blue arrows that lead to a shorter node.
    pub open spec fn wf(self) -> bool {
        &&& self.nodes.len() >= 1
        &&& self.nodes[0].length == 0
        &&& forall|k: (usize, char)|
            #![trigger self.blacks.contains_key(k)]
            self.blacks.contains_key(k) ==> {
                &&& self.valid(k.0)
                &&& self.valid(self.blacks[k])
                &&& self.len_of(self.blacks[k]) == self.len_of(k.0) + 1
            }
        &&& forall|u: usize|
            #![trigger self.blues.contains_key(u)]
            self.blues.contains_key(u) ==> {
                &&& self.valid(u)
                &&& self.valid(self.blues[u])
                &&& self.len_of(self.blues[u]) < self.len_of(u)
            }
    }

    /// A black arrow that joins two nodes and adds one character.
    pub open spec fn black_ok(self, e: ((usize, char), usize)) -> bool {
        self.valid(e.0.0) && self.valid(e.1) && self.len_of(e.1) == self.len_of(e.0.0) + 1
    }

    /// A blue arrow that joins two nodes and leads to a shorter one.
    pub open spec fn blue_ok(self, e: (usize, usize)) -> bool {
        self.valid(e.0) && self.valid(e.1) && self.len_of(e.1) < self.len_of(e.0)
    }

    /// Before the blue arrows are made, each node keeps the characters of its path.
    pub open spec fn letters_kept(self) -> bool {
        forall|i: int| 0 <= i < self.nodes.len() ==> #[trigger] self.nodes[i].letters.len()
            == self.nodes[i].length
    }

    /// One step of the matcher: the node reached and whether the character was consumed.
    pub open spec fn step(self, u: usize, c: char) -> (usize, bool) {
        if self.blacks.contains_key((u, c)) {
            (self.blacks[(u, c)], true)
        } else if self.blues.contains_key(u) {
            (self.blues[u], false)
        } else {
            (1, u == 1)
        }
    }

    pub open spec fn rank(self, u: usize) -> nat {
        (2 * self.len_of(u) + if u == 1 { 0int } else { 1int }) as nat
    }

    /// Steps on `c` (the character at 1-based position `pos`) from `u` until it is
    /// consumed: the node reached and the events emitted on the way.
    pub open spec fn feed(self, u: usize, c: char, pos: int) -> (usize, Seq<Event>)
        decreases self.rank(u),
        when self.wf() && self.valid(u)
    {
        let (v, used) = self.step(u, c);
        let end = if used { pos } else { pos - 1 };
        let ev = if self.nodes[v - 1].is_blue {
            seq![(self.nodes[v - 1].name, end - self.len_of(v), end)]
        } else {
            Seq::<Event>::empty()
        };
        if used {
            (v, ev)
        } else {
            let (w, rest) = self.feed(v, c, pos);
            (w, ev + rest)
        }
    }

    /// Runs the matcher over a text from the root: the node reached and every event.
    pub open spec fn scan(self, text: Seq<char>) -> (usize, Seq<Event>)
        decreases text.len(),
    {
        if text.len() == 0 {
            (1, seq![])
        } else {
            let (u, evs) = self.scan(text.drop_last());
            let (v, ev) = self.feed(u, text.last(), text.len() as int);
            (v, evs + ev)
        }
    }

    /// Whole-text mode: every event of the scan.
    pub open spec fn matches(self, text: Seq<char>) -> Seq<Event> {
        self.scan(text).1
    }

    /// The report of one line: the line with the span of its last event, if any.
    pub open spec fn line_report(self, line: Seq<char>) -> Seq<Event> {
        let evs = self.scan(line).1;
        if evs.len() > 0 {
            seq![(line, evs.last().1, evs.last().2)]
        } else {
            seq![]
        }
    }

    pub open spec fn line_reports(self, lines: Seq<Seq<char>>) -> Seq<Event>
        decreases lines.len(),
    {
        if lines.len() == 0 {
            seq![]
        } else {
            self.line_reports(lines.drop_last()) + self.line_report(lines.last())
        }
    }

    /// Line mode: one report for each line, in order.
    pub open spec fn line_matches(self, text: Seq<char>) -> Seq<Event> {
        let (done, cur) = split_lines(text);
        self.line_reports(done) + self.line_report(cur)
    }

    /// Substitution mode: matched spans replaced by their names, the first of two
    /// overlapping candidates kept, unmatched text copied.
    pub open spec fn substituted(self, text: Seq<char>) -> Seq<char> {
        let (out, cursor, last) = absorb(text, self.scan(text).1);
        let (o2, c2) = if last.2 >= last.1 && last.1 >= cursor {
            commit(text, out, cursor, last)
        } else {
            (out, cursor)
        };
        o2 + text.subrange(c2, text.len() as int)
    }

    /// The searcher after `kw[i..]` is walked from node `at`, creating what is missing;
    /// also the node reached.
    pub open spec fn grow(self, kw: Seq<char>, i: nat, at: usize) -> (SearcherView, usize)
        decreases kw.len() - i,
    {
        if i >= kw.len() {
            (self, at)
        } else if self.blacks.contains_key((at, kw[i as int])) {
            self.grow(kw, i + 1, self.blacks[(at, kw[i as int])])
        } else {
            let id = (self.nodes.len() + 1) as usize;
            let node = NodeView { letters: kw.take(i + 1 as int), length: i + 1, name: seq![], is_blue: false };
            let next = SearcherView {
                nodes: self.nodes.push(node),
                blacks: self.blacks.insert((at, kw[i as int]), id),
                blues: self.blues,
            };
            next.grow(kw, i + 1, id)
        }
    }

    /// The searcher after the keyword is inserted under the given output name.
    pub open spec fn inserted(self, kw: Seq<char>, name: Seq<char>) -> SearcherView {
        let (g, t) = self.grow(kw, 0, 1);
        SearcherView {
            nodes: g.nodes.update(t - 1, NodeView { name: name, is_blue: true, ..g.nodes[t - 1] }),
            ..g
        }
    }

    /// The blue arrow of node `u`: its longest proper suffix that is a trie path.
    pub open spec fn link(self, u: usize) -> usize {
        suffix_node(self.blacks, self.nodes[u - 1].letters, 1)
    }

    /// The searcher after the blue arrows are made and the letters dropped.
    pub open spec fn linked(self) -> SearcherView {
        SearcherView {
            nodes: self.nodes.map_values(|n: NodeView| NodeView { letters: seq![], ..n }),
            blacks: self.blacks,
            blues: Map::new(
                |u: usize| self.blues.contains_key(u) || (self.valid(u) && self.link(u) != 0),
                |u: usize|
                    if self.valid(u) && self.link(u) != 0 {
                        self.link(u)
                    } else {
                        self.blues[u]
                    },
            ),
        }
    }
}

} // verus!
