//! Properties that relate several operations of the library.
use vstd::prelude::*;

use crate::model::SearcherView;
use crate::record::RecordView;
use crate::registry::{built, KeywordSpec, RegistryView};

verus! {

/// Importing an export of a well-formed searcher succeeds and gives back the same
/// searcher, so every whole-text, line and substitution query is answered as
/// before, whatever order the export listed the arrows in.
pub proof fn lemma_round_trip(a: SearcherView, rec: RecordView)
    requires
        a.wf(),
        rec.exports(a),
    ensures
        rec.consistent(),
        rec.searcher() == a,
        forall|text: Seq<char>| #[trigger] rec.searcher().matches(text) == a.matches(text),
        forall|text: Seq<char>| #[trigger] rec.searcher().line_matches(text) == a.line_matches(text),
        forall|text: Seq<char>| #[trigger] rec.searcher().substituted(text) == a.substituted(text),
{
    assert(rec.searcher() =~= a);
}

/// Two consecutive `create`s give increasing handles, each holding its own
/// searcher; once the first is freed, a checkout of it fails while the second is
/// still there, unchanged.
pub proof fn lemma_registry_create_free(r: RegistryView, k1: Seq<KeywordSpec>, k2: Seq<KeywordSpec>)
    requires
        r.wf(),
        r.count + 2 <= i32::MAX,
    ensures
        ({
            let (r1, h1) = r.created(k1);
            let (r2, h2) = r1.created(k2);
            &&& h1 < h2
            &&& forall|h: i32| #[trigger] r.entries.contains_key(h) ==> h < h1
            &&& !r.entries.contains_key(h1) && !r1.entries.contains_key(h2)
            &&& r2.checked_out(h1) == Some((r2.freed(h1), built(k1)))
            &&& r2.checked_out(h2) == Some((r2.freed(h2), built(k2)))
            &&& r2.freed(h1).checked_out(h1) is None
            &&& r2.freed(h1).checked_out(h2) == Some((r2.freed(h1).freed(h2), built(k2)))
        }),
{
    let (r1, h1) = r.created(k1);
    let (r2, h2) = r1.created(k2);
    assert(!r.entries.contains_key(h1));
    assert(!r1.entries.contains_key(h2));
}

/// Freeing, checking out (which takes the entry out as freeing does) or storing
/// under one handle leaves what is stored under any other handle as it was.
pub proof fn lemma_registry_isolation(r: RegistryView, h: i32, g: i32, a: SearcherView)
    requires
        h != g,
    ensures
        r.freed(h).checked_out(g) == (match r.checked_out(g) {
            Some((rest, b)) => Some((rest.freed(h), b)),
            None => None,
        }),
        r.stored(h, a).checked_out(g) == (match r.checked_out(g) {
            Some((rest, b)) => Some((rest.stored(h, a), b)),
            None => None,
        }),
{
    if r.entries.contains_key(g) {
        assert(r.freed(h).entries.remove(g) =~= r.entries.remove(g).remove(h));
        assert(r.stored(h, a).entries.remove(g) =~= r.entries.remove(g).insert(h, a));
    }
}

} // verus!
