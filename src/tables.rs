//! The outside collections the library keeps its tables in: ahash's hash maps
//! and sets, and bktree's metric tree. Each is declared opaque, its contents get
//! a name, and each method the logic calls gets a wrapper whose contract speaks
//! over that name.

use ahash::{AHashMap, AHashSet, RandomState};
use bktree::BkTree;
use vstd::prelude::*;

use crate::distance::{dist, edit_distance, MAX_SEQ_LEN};

verus! {

#[verifier::external_type_specification]
#[verifier::external_body]
pub struct ExRandomState(RandomState);

#[verifier::external_type_specification]
#[verifier::external_body]
#[verifier::reject_recursive_types(K)]
#[verifier::reject_recursive_types(V)]
#[verifier::reject_recursive_types(S)]
pub struct ExAHashMap<K, V, S>(AHashMap<K, V, S>);

#[verifier::external_type_specification]
#[verifier::external_body]
#[verifier::reject_recursive_types(T)]
#[verifier::reject_recursive_types(S)]
pub struct ExAHashSet<T, S>(AHashSet<T, S>);

#[verifier::external_type_specification]
#[verifier::external_body]
#[verifier::reject_recursive_types(T)]
pub struct ExBkTree<T>(BkTree<T>);

// ---------------------------------------------------------------------------
// Exact-match table: reference barcode -> record position.

/// What a barcode-to-position table holds.
pub uninterp spec fn position_table(m: AHashMap<Vec<u8>, usize>) -> Map<Seq<u8>, usize>;

/// Relies on AHashMap::new: the new map is empty.
#[verifier::external_body]
pub(crate) fn positions_new() -> (r: AHashMap<Vec<u8>, usize>)
    ensures
        position_table(r).dom() == Set::<Seq<u8>>::empty(),
{
    AHashMap::new()
}

/// Relies on AHashMap::get: the value stored under the key, if any.
#[verifier::external_body]
pub(crate) fn positions_get(m: &AHashMap<Vec<u8>, usize>, k: &Vec<u8>) -> (r: Option<usize>)
    ensures
        r == (if position_table(*m).contains_key(k@) {
            Some(position_table(*m)[k@])
        } else {
            None::<usize>
        }),
{
    m.get(k).copied()
}

/// Relies on AHashMap::insert: the key now maps to the value, and a value
/// stored before under the same key is replaced.
#[verifier::external_body]
pub(crate) fn positions_insert(m: &mut AHashMap<Vec<u8>, usize>, k: Vec<u8>, v: usize)
    ensures
        position_table(*final(m)) == position_table(*old(m)).insert(k@, v),
{
    m.insert(k, v);
}

// ---------------------------------------------------------------------------
// Hit table: (cell code, record position) -> read count.

/// What a (cell code, record position) counter table holds.
pub uninterp spec fn hit_table(m: AHashMap<(Vec<u8>, usize), usize>) -> Map<(Seq<u8>, usize), usize>;

/// Relies on AHashMap::new: the new map is empty.
#[verifier::external_body]
pub(crate) fn hits_new() -> (r: AHashMap<(Vec<u8>, usize), usize>)
    ensures
        hit_table(r).dom() == Set::<(Seq<u8>, usize)>::empty(),
{
    AHashMap::new()
}

/// Relies on AHashMap::get: the value stored under the key, if any.
#[verifier::external_body]
pub(crate) fn hits_get(m: &AHashMap<(Vec<u8>, usize), usize>, k: &(Vec<u8>, usize)) -> (r: Option<usize>)
    ensures
        r == (if hit_table(*m).contains_key((k.0@, k.1)) {
            Some(hit_table(*m)[(k.0@, k.1)])
        } else {
            None::<usize>
        }),
{
    m.get(k).copied()
}

/// Relies on AHashMap::insert: the key now maps to the value, and a value
/// stored before under the same key is replaced.
#[verifier::external_body]
pub(crate) fn hits_insert(m: &mut AHashMap<(Vec<u8>, usize), usize>, k: (Vec<u8>, usize), v: usize)
    ensures
        hit_table(*final(m)) == hit_table(*old(m)).insert((k.0@, k.1), v),
{
    m.insert(k, v);
}

/// Relies on AHashMap::iter: each entry of the map is visited exactly once,
/// in an order that is left open.
#[verifier::external_body]
pub(crate) fn hits_entries(m: &AHashMap<(Vec<u8>, usize), usize>) -> (r: Vec<((Vec<u8>, usize), usize)>)
    ensures
        forall|i: int|
            0 <= i < r@.len() ==> {
                &&& #[trigger] hit_table(*m).contains_key((r@[i].0.0@, r@[i].0.1))
                &&& hit_table(*m)[(r@[i].0.0@, r@[i].0.1)] == r@[i].1
            },
        forall|i: int, j: int|
            0 <= i < j < r@.len() ==> (#[trigger] r@[i].0.0@, r@[i].0.1) != (
                #[trigger] r@[j].0.0@,
                r@[j].0.1,
            ),
        forall|k: (Seq<u8>, usize)|
            #[trigger] hit_table(*m).contains_key(k) ==> exists|i: int|
                0 <= i < r@.len() && (r@[i].0.0@, r@[i].0.1) == k,
{
    m.iter().map(|(k, v)| (k.clone(), *v)).collect()
}

// ---------------------------------------------------------------------------
// Unknown table: (cell code, observed barcode) -> read count.

/// What a (cell code, observed barcode) counter table holds.
pub uninterp spec fn unknown_table(m: AHashMap<(Vec<u8>, Vec<u8>), usize>) -> Map<(Seq<u8>, Seq<u8>), usize>;

/// Relies on AHashMap::new: the new map is empty.
#[verifier::external_body]
pub(crate) fn unknown_new() -> (r: AHashMap<(Vec<u8>, Vec<u8>), usize>)
    ensures
        unknown_table(r).dom() == Set::<(Seq<u8>, Seq<u8>)>::empty(),
{
    AHashMap::new()
}

/// Relies on AHashMap::get: the value stored under the key, if any.
#[verifier::external_body]
pub(crate) fn unknown_get(m: &AHashMap<(Vec<u8>, Vec<u8>), usize>, k: &(Vec<u8>, Vec<u8>)) -> (r: Option<usize>)
    ensures
        r == (if unknown_table(*m).contains_key((k.0@, k.1@)) {
            Some(unknown_table(*m)[(k.0@, k.1@)])
        } else {
            None::<usize>
        }),
{
    m.get(k).copied()
}

/// Relies on AHashMap::insert: the key now maps to the value, and a value
/// stored before under the same key is replaced.
#[verifier::external_body]
pub(crate) fn unknown_insert(m: &mut AHashMap<(Vec<u8>, Vec<u8>), usize>, k: (Vec<u8>, Vec<u8>), v: usize)
    ensures
        unknown_table(*final(m)) == unknown_table(*old(m)).insert((k.0@, k.1@), v),
{
    m.insert(k, v);
}

/// Relies on AHashMap::iter: each entry of the map is visited exactly once,
/// in an order that is left open.
#[verifier::external_body]
pub(crate) fn unknown_entries(m: &AHashMap<(Vec<u8>, Vec<u8>), usize>) -> (r: Vec<((Vec<u8>, Vec<u8>), usize)>)
    ensures
        forall|i: int|
            0 <= i < r@.len() ==> {
                &&& #[trigger] unknown_table(*m).contains_key((r@[i].0.0@, r@[i].0.1@))
                &&& unknown_table(*m)[(r@[i].0.0@, r@[i].0.1@)] == r@[i].1
            },
        forall|i: int, j: int|
            0 <= i < j < r@.len() ==> (#[trigger] r@[i].0.0@, r@[i].0.1@) != (
                #[trigger] r@[j].0.0@,
                r@[j].0.1@,
            ),
        forall|k: (Seq<u8>, Seq<u8>)|
            #[trigger] unknown_table(*m).contains_key(k) ==> exists|i: int|
                0 <= i < r@.len() && (r@[i].0.0@, r@[i].0.1@) == k,
{
    m.iter().map(|(k, v)| (k.clone(), *v)).collect()
}

// ---------------------------------------------------------------------------
// Code sets: whitelist and ignore list.

/// What a set of byte codes holds.
pub uninterp spec fn code_set(s: AHashSet<Vec<u8>>) -> Set<Seq<u8>>;

/// Relies on AHashSet::new: the new set is empty.
#[verifier::external_body]
pub(crate) fn codes_new() -> (r: AHashSet<Vec<u8>>)
    ensures
        code_set(r) == Set::<Seq<u8>>::empty(),
{
    AHashSet::new()
}

/// Relies on AHashSet::insert: the value is a member afterwards.
#[verifier::external_body]
pub(crate) fn codes_insert(s: &mut AHashSet<Vec<u8>>, v: Vec<u8>)
    ensures
        code_set(*final(s)) == code_set(*old(s)).insert(v@),
{
    s.insert(v);
}

/// Relies on AHashSet::contains: membership of the value.
#[verifier::external_body]
pub(crate) fn codes_contains(s: &AHashSet<Vec<u8>>, v: &[u8]) -> (r: bool)
    ensures
        r == code_set(*s).contains(v@),
{
    s.contains(v)
}

// ---------------------------------------------------------------------------
// Metric tree over reference barcodes.

/// The distinct words a tree holds.
pub uninterp spec fn tree_words(t: BkTree<Vec<u8>>) -> Set<Seq<u8>>;

/// Whether the tree was built with the edit distance `dist` as its metric.
pub uninterp spec fn tree_by_edit_distance(t: BkTree<Vec<u8>>) -> bool;

/// Relies on BkTree::new: an empty tree whose metric is `dist`.
#[verifier::external_body]
pub(crate) fn tree_new() -> (r: BkTree<Vec<u8>>)
    ensures
        tree_words(r) == Set::<Seq<u8>>::empty(),
        tree_by_edit_distance(r),
{
    BkTree::new(dist)
}

/// Relies on BkTree::insert: the word is held afterwards; a word at distance 0
/// from one already held (for the edit distance: the same word) is not added
/// twice. The metric is kept.
#[verifier::external_body]
pub(crate) fn tree_insert(t: &mut BkTree<Vec<u8>>, w: Vec<u8>)
    requires
        tree_by_edit_distance(*old(t)),
        w@.len() <= MAX_SEQ_LEN,
        forall|x: Seq<u8>| #[trigger] tree_words(*old(t)).contains(x) ==> x.len() <= MAX_SEQ_LEN,
    ensures
        tree_words(*final(t)) == tree_words(*old(t)).insert(w@),
        tree_by_edit_distance(*final(t)),
{
    t.insert(w);
}

/// Relies on BkTree::find: every held word within `max_dist` of the query,
/// each once, with its distance `dist(word, query)`. The search prunes by the
/// triangle inequality, which the edit distance obeys, so none is missed.
#[verifier::external_body]
pub(crate) fn tree_find(t: &BkTree<Vec<u8>>, q: &Vec<u8>, max_dist: isize) -> (r: Vec<(Vec<u8>, isize)>)
    requires
        tree_by_edit_distance(*t),
        0 <= max_dist,
        q@.len() <= MAX_SEQ_LEN,
        forall|x: Seq<u8>| #[trigger] tree_words(*t).contains(x) ==> x.len() <= MAX_SEQ_LEN,
    ensures
        forall|i: int|
            0 <= i < r@.len() ==> {
                &&& #[trigger] tree_words(*t).contains(r@[i].0@)
                &&& r@[i].1 as int == edit_distance(r@[i].0@, q@)
                &&& r@[i].1 <= max_dist
            },
        forall|i: int, j: int| 0 <= i < j < r@.len() ==> #[trigger] r@[i].0@ != #[trigger] r@[j].0@,
        forall|w: Seq<u8>|
            #[trigger] tree_words(*t).contains(w) && edit_distance(w, q@) <= max_dist ==> exists|i: int|
                0 <= i < r@.len() && r@[i].0@ == w,
{
    t.find(q.clone(), max_dist).into_iter().map(|(w, d)| (w.clone(), d)).collect()
}

} // verus!
