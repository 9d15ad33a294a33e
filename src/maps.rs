//! The two arrow tables of a searcher are `ahash::AHashMap`s. Verus sees them
//! through the names `black_arrows` and `blue_arrows` and the wrappers below.
use vstd::prelude::*;

verus! {

/// `ahash::RandomState`, the hasher of an `AHashMap`, as an opaque type.
#[verifier::external_type_specification]
#[verifier::external_body]
pub struct ExRandomState(ahash::RandomState);

/// `ahash::AHashMap`, as an opaque type; its contents are seen through the names below.
#[verifier::external_type_specification]
#[verifier::external_body]
#[verifier::reject_recursive_types(K)]
#[verifier::reject_recursive_types(V)]
#[verifier::reject_recursive_types(S)]
pub struct ExAHashMap<K, V, S>(ahash::AHashMap<K, V, S>);

/// The trie edges held by a black arrow table: `(node, letter) -> node`.
pub type BlackTable = ahash::AHashMap<(usize, char), usize>;

/// The failure links held by a blue arrow table: `node -> node`.
pub type BlueTable = ahash::AHashMap<usize, usize>;

/// The contents of a black arrow table.
pub type BlackMap = Map<(usize, char), usize>;

/// The contents of a blue arrow table.
pub type BlueMap = Map<usize, usize>;

/// What a black arrow table holds.
pub uninterp spec fn black_arrows(m: BlackTable) -> BlackMap;

/// What a blue arrow table holds.
pub uninterp spec fn blue_arrows(m: BlueTable) -> BlueMap;

/// Relies on `AHashMap::new`: a new map holds nothing.
#[verifier::external_body]
pub(crate) fn new_black_table() -> (r: BlackTable)
    ensures
        black_arrows(r) == BlackMap::empty(),
{
    ahash::AHashMap::new()
}

/// Relies on `AHashMap::get`: the value stored under the key, if any.
#[verifier::external_body]
pub(crate) fn black_get(m: &BlackTable, node: usize, letter: char) -> (r: Option<usize>)
    ensures
        r == (if black_arrows(*m).contains_key((node, letter)) {
            Some(black_arrows(*m)[(node, letter)])
        } else {
            None::<usize>
        }),
{
    m.get(&(node, letter)).copied()
}

/// Relies on `AHashMap::insert`: the key now maps to the value, the rest is kept.
#[verifier::external_body]
pub(crate) fn black_insert(m: &mut BlackTable, node: usize, letter: char, target: usize)
    ensures
        black_arrows(*final(m)) == black_arrows(*old(m)).insert((node, letter), target),
{
    m.insert((node, letter), target);
}

/// Relies on `AHashMap::iter` (through `Deref` to `HashMap`): every entry once,
/// in an order that the map does not fix.
#[verifier::external_body]
pub(crate) fn black_entries(m: &BlackTable) -> (r: Vec<((usize, char), usize)>)
    ensures
        forall|i: int|
            0 <= i < r@.len() ==> black_arrows(*m).contains_key(#[trigger] r@[i].0)
                && black_arrows(*m)[r@[i].0] == r@[i].1,
        forall|k: (usize, char)|
            black_arrows(*m).contains_key(k) ==> exists|i: int|
                0 <= i < r@.len() && #[trigger] r@[i].0 == k,
        forall|i: int, j: int| 0 <= i < j < r@.len() ==> r@[i].0 != r@[j].0,
{
    m.iter().map(|(&k, &v)| (k, v)).collect()
}

/// Relies on `AHashMap::new`: a new map holds nothing.
#[verifier::external_body]
pub(crate) fn new_blue_table() -> (r: BlueTable)
    ensures
        blue_arrows(r) == BlueMap::empty(),
{
    ahash::AHashMap::new()
}

/// Relies on `AHashMap::get`: the value stored under the key, if any.
#[verifier::external_body]
pub(crate) fn blue_get(m: &BlueTable, node: usize) -> (r: Option<usize>)
    ensures
        r == (if blue_arrows(*m).contains_key(node) {
            Some(blue_arrows(*m)[node])
        } else {
            None::<usize>
        }),
{
    m.get(&node).copied()
}

/// Relies on `AHashMap::insert`: the key now maps to the value, the rest is kept.
#[verifier::external_body]
pub(crate) fn blue_insert(m: &mut BlueTable, node: usize, target: usize)
    ensures
        blue_arrows(*final(m)) == blue_arrows(*old(m)).insert(node, target),
{
    m.insert(node, target);
}

/// Relies on `AHashMap::iter` (through `Deref` to `HashMap`): every entry once,
/// in an order that the map does not fix.
#[verifier::external_body]
pub(crate) fn blue_entries(m: &BlueTable) -> (r: Vec<(usize, usize)>)
    ensures
        forall|i: int|
            0 <= i < r@.len() ==> blue_arrows(*m).contains_key(#[trigger] r@[i].0)
                && blue_arrows(*m)[r@[i].0] == r@[i].1,
        forall|k: usize|
            blue_arrows(*m).contains_key(k) ==> exists|i: int|
                0 <= i < r@.len() && #[trigger] r@[i].0 == k,
        forall|i: int, j: int| 0 <= i < j < r@.len() ==> r@[i].0 != r@[j].0,
{
    m.iter().map(|(&k, &v)| (k, v)).collect()
}

} // verus!
