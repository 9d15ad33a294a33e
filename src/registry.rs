//! The handle registry: built searchers stored under increasing integer handles,
//! checked out for the length of one query and handed back afterwards.
use std::collections::HashMap;
use vstd::prelude::*;

use crate::model::{empty_searcher, SearcherView};
use crate::record::SearchError;
use crate::text_searcher::{events_of, TextSearcher};

verus! {

broadcast use vstd::std_specs::hash::group_hash_axioms;

/// A keyword with an optional output name, as a model.
pub type KeywordSpec = (Seq<char>, Option<Seq<char>>);

/// The model of a keyword list.
pub open spec fn keywords_view(v: Seq<(String, Option<String>)>) -> Seq<KeywordSpec> {
    v.map_values(|p: (String, Option<String>)| (p.0@, match p.1 {
        Some(n) => Some(n@),
        None => None,
    }))
}

/// The output name of a keyword: its own name, or the keyword itself.
pub open spec fn output_name(k: KeywordSpec) -> Seq<char> {
    match k.1 {
        Some(n) => n,
        None => k.0,
    }
}

/// The searcher after each keyword of the list is inserted, in order.
pub open spec fn inserted_all(v: SearcherView, kws: Seq<KeywordSpec>) -> SearcherView
    decreases kws.len(),
{
    if kws.len() == 0 {
        v
    } else {
        inserted_all(v, kws.drop_last()).inserted(kws.last().0, output_name(kws.last()))
    }
}

/// The total number of characters of the keywords.
pub open spec fn total_len(kws: Seq<KeywordSpec>) -> nat
    decreases kws.len(),
{
    if kws.len() == 0 {
        0
    } else {
        total_len(kws.drop_last()) + kws.last().0.len()
    }
}

/// The finished searcher of a keyword list.
pub open spec fn built(kws: Seq<KeywordSpec>) -> SearcherView {
    inserted_all(empty_searcher(), kws).linked()
}

/// What a registry holds: the last handle given out and the searchers in store.
pub struct RegistryView {
    pub count: int,
    pub entries: Map<i32, SearcherView>,
}

impl RegistryView {
    /// Every stored handle was given out, and every stored searcher is well formed.
    pub open spec fn wf(self) -> bool {
        &&& 0 <= self.count <= i32::MAX
        &&& forall|h: i32| #[trigger] self.entries.contains_key(h) ==> 1 <= h <= self.count && self.entries[h].wf()
    }

    /// After a finished searcher is stored under a new handle: the registry and the handle.
    pub open spec fn adopted(self, a: SearcherView) -> (RegistryView, i32) {
        let h = (self.count + 1) as i32;
        (RegistryView { count: self.count + 1, entries: self.entries.insert(h, a) }, h)
    }

    /// After `create`: the registry and the new handle.
    pub open spec fn created(self, kws: Seq<KeywordSpec>) -> (RegistryView, i32) {
        let h = (self.count + 1) as i32;
        (RegistryView { count: self.count + 1, entries: self.entries.insert(h, built(kws)) }, h)
    }

    /// After a checkout: the registry without the searcher and the searcher, or
    /// `None` when the handle is not in store.
    pub open spec fn checked_out(self, h: i32) -> Option<(RegistryView, SearcherView)> {
        if self.entries.contains_key(h) {
            Some((RegistryView { count: self.count, entries: self.entries.remove(h) }, self.entries[h]))
        } else {
            None
        }
    }

    /// After a searcher is stored (back) under a handle.
    pub open spec fn stored(self, h: i32, a: SearcherView) -> RegistryView {
        RegistryView { count: self.count, entries: self.entries.insert(h, a) }
    }

    /// After `free`.
    pub open spec fn freed(self, h: i32) -> RegistryView {
        RegistryView { count: self.count, entries: self.entries.remove(h) }
    }
}

/// The registry of searchers.
pub struct TextSearcherManager {
    count: i32,
    tss: HashMap<i32, TextSearcher>,
}

impl View for TextSearcherManager {
    type V = RegistryView;

    closed spec fn view(&self) -> RegistryView {
        RegistryView {
            count: self.count as int,
            entries: self.tss@.map_values(|t: TextSearcher| t@),
        }
    }
}

impl TextSearcherManager {
    /// An empty registry.
    pub fn new() -> (r: Self)
        ensures
            r@.count == 0,
            r@.entries.is_empty(),
            r@.wf(),
    {
        let r = TextSearcherManager { count: 0, tss: HashMap::new() };
        assert(r@.entries =~= Map::empty());
        r
    }

    /// The last handle given out.
    pub fn count(&self) -> (r: i32)
        ensures
            r as int == self@.count,
    {
        self.count
    }

    /// Builds a searcher from the keywords and stores it under a new handle, one
    /// above the last.
    pub fn new_text_searcher(&mut self, keywords: Vec<(String, Option<String>)>) -> (r: i32)
        requires
            old(self)@.wf(),
            old(self)@.count < i32::MAX,
            1 + total_len(keywords_view(keywords@)) < usize::MAX,
        ensures
            (final(self)@, r) == old(self)@.created(keywords_view(keywords@)),
            final(self)@.wf(),
    {
        let ts = build_searcher(&keywords);
        let ghost before = self@;
        self.count = self.count + 1;
        self.tss.insert(self.count, ts);
        proof {
            assert(self@.entries =~= before.entries.insert(self.count, built(keywords_view(keywords@))));
        }
        self.count
    }

    /// Stores a finished searcher (a loaded one) under a new handle, one above the last.
    pub fn adopt_text_searcher(&mut self, ts: TextSearcher) -> (r: i32)
        requires
            old(self)@.wf(),
            old(self)@.count < i32::MAX,
            ts@.wf(),
        ensures
            (final(self)@, r) == old(self)@.adopted(ts@),
            final(self)@.wf(),
    {
        let ghost before = self@;
        let ghost a = ts@;
        self.count = self.count + 1;
        self.tss.insert(self.count, ts);
        proof {
            assert(self@.entries =~= before.entries.insert(self.count, a));
        }
        self.count
    }

    /// Takes the searcher out of the store for the length of one query.
    pub fn get_text_searcher(&mut self, tsid: i32) -> (r: Result<TextSearcher, SearchError>)
        ensures
            match old(self)@.checked_out(tsid) {
                Some((rest, a)) => final(self)@ == rest && (r matches Ok(ts) && ts@ == a),
                None => final(self)@ == old(self)@ && r == Err::<TextSearcher, SearchError>(SearchError::InvalidHandle(tsid)),
            },
            old(self)@.wf() ==> final(self)@.wf(),
            old(self)@.wf() ==> (r matches Ok(ts) ==> ts@.wf()),
    {
        let ghost before = self@;
        match self.tss.remove(&tsid) {
            Some(ts) => {
                proof {
                    assert(self@.entries =~= before.entries.remove(tsid));
                }
                Ok(ts)
            },
            None => {
                proof {
                    assert(self@.entries =~= before.entries);
                }
                Err(SearchError::InvalidHandle(tsid))
            },
        }
    }

    /// Stores a searcher (back) under a handle.
    pub fn add_text_searcher(&mut self, tsid: i32, ts: TextSearcher)
        ensures
            final(self)@ == old(self)@.stored(tsid, ts@),
            old(self)@.wf() && 1 <= tsid <= old(self)@.count && ts@.wf() ==> final(self)@.wf(),
    {
        let ghost before = self@;
        self.tss.insert(tsid, ts);
        proof {
            assert(self@.entries =~= before.entries.insert(tsid, ts@));
        }
    }

    /// Drops the searcher stored under a handle, if any.
    pub fn remove_text_searcher(&mut self, tsid: i32)
        ensures
            final(self)@ == old(self)@.freed(tsid),
            old(self)@.wf() ==> final(self)@.wf(),
    {
        let ghost before = self@;
        let _ = self.tss.remove(&tsid);
        proof {
            assert(self@.entries =~= before.entries.remove(tsid));
        }
    }
}

/// Builds the finished searcher of a keyword list.
pub fn build_searcher(keywords: &Vec<(String, Option<String>)>) -> (r: TextSearcher)
    requires
        1 + total_len(keywords_view(keywords@)) < usize::MAX,
    ensures
        r@ == built(keywords_view(keywords@)),
        r@.wf(),
{
        let ghost kws = keywords_view(keywords@);
        let mut ts = TextSearcher::new();
        proof {
            assert(ts@ =~= empty_searcher());
            assert(kws.take(0) =~= seq![]);
        }
        let mut i: usize = 0;
        while i < keywords.len()
            invariant
                kws == keywords_view(keywords@),
                i <= keywords@.len(),
                1 + total_len(kws) < usize::MAX,
                ts@ == inserted_all(empty_searcher(), kws.take(i as int)),
                ts@.wf(),
                ts@.letters_kept(),
                ts@.nodes.len() <= 1 + total_len(kws.take(i as int)),
            decreases keywords@.len() - i,
        {
            let keyword = keywords[i].0.clone();
            let name = match &keywords[i].1 {
                Some(n) => Some(n.clone()),
                None => None,
            };
            proof {
                assert(kws.take(i + 1).drop_last() =~= kws.take(i as int));
                lemma_total_len_prefix(kws, i + 1);
            }
            ts.add_keyword(keyword, name);
            i += 1;
        }
        proof {
            assert(kws.take(i as int) =~= kws);
        }
    ts.create_blues();
    ts
}

/// One-off search: builds a searcher from the keywords (each its own output name)
/// and matches the whole text.
pub fn text_search_match(keywords: Vec<String>, text: &str) -> (r: Vec<(String, usize, usize)>)
    requires
        1 + total_len(keywords@.map_values(|k: String| (k@, None::<Seq<char>>))) < usize::MAX,
    ensures
        events_of(r@) == built(keywords@.map_values(|k: String| (k@, None::<Seq<char>>))).matches(text@),
{
    let mut pairs: Vec<(String, Option<String>)> = Vec::new();
    let mut i: usize = 0;
    while i < keywords.len()
        invariant
            i <= keywords@.len(),
            keywords_view(pairs@) == keywords@.map_values(|k: String| (k@, None::<Seq<char>>)).take(i as int),
        decreases keywords@.len() - i,
    {
        let ghost before = pairs@;
        pairs.push((keywords[i].clone(), None));
        proof {
            assert(pairs@ == before.push(pairs@.last()));
            assert(keywords_view(pairs@) =~= keywords_view(before).push((keywords@[i as int]@, None::<Seq<char>>)));
            assert(keywords_view(pairs@) =~= keywords@.map_values(|k: String| (k@, None::<Seq<char>>)).take(i + 1));
        }
        i += 1;
    }
    proof {
        assert(keywords_view(pairs@) =~= keywords@.map_values(|k: String| (k@, None::<Seq<char>>)));
    }
    let ts = build_searcher(&pairs);
    ts.match_(text)
}

/// One-off substitution: builds a searcher from `(keyword, replacement)` pairs and
/// substitutes the text.
pub fn text_search_subst(keywords: Vec<(String, String)>, text: &str) -> (r: String)
    requires
        1 + total_len(keywords@.map_values(|k: (String, String)| (k.0@, Some(k.1@)))) < usize::MAX,
    ensures
        r@ == built(keywords@.map_values(|k: (String, String)| (k.0@, Some(k.1@)))).substituted(text@),
{
    let mut pairs: Vec<(String, Option<String>)> = Vec::new();
    let mut i: usize = 0;
    while i < keywords.len()
        invariant
            i <= keywords@.len(),
            keywords_view(pairs@) == keywords@.map_values(|k: (String, String)| (k.0@, Some(k.1@))).take(i as int),
        decreases keywords@.len() - i,
    {
        let ghost before = pairs@;
        pairs.push((keywords[i].0.clone(), Some(keywords[i].1.clone())));
        proof {
            assert(pairs@ == before.push(pairs@.last()));
            assert(keywords_view(pairs@) =~= keywords_view(before).push((keywords@[i as int].0@, Some(keywords@[i as int].1@))));
            assert(keywords_view(pairs@) =~= keywords@.map_values(|k: (String, String)| (k.0@, Some(k.1@))).take(i + 1));
        }
        i += 1;
    }
    proof {
        assert(keywords_view(pairs@) =~= keywords@.map_values(|k: (String, String)| (k.0@, Some(k.1@))));
    }
    let ts = build_searcher(&pairs);
    ts.subst(text)
}

/// A prefix of a keyword list has no more characters than the list.
proof fn lemma_total_len_prefix(kws: Seq<KeywordSpec>, i: int)
    requires
        0 <= i <= kws.len(),
    ensures
        total_len(kws.take(i)) <= total_len(kws),
    decreases kws.len() - i,
{
    if i == kws.len() {
        assert(kws.take(i) =~= kws);
    } else {
        assert(kws.take(i + 1).drop_last() =~= kws.take(i));
        lemma_total_len_prefix(kws, i + 1);
    }
}

} // verus!
