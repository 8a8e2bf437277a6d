//! Per-cell tallies of resolved and unresolved barcodes, their threshold
//! summaries, and the filter that decides which reference barcodes are kept.

use ahash::AHashMap;
use vstd::prelude::*;
use vstd::set::fold::{is_fun_commutative, lemma_fold_insert, lemma_fold_empty};
use vstd::seq_lib::{commutative_foldl, lemma_fold_left_permutation};

use crate::barcodes::{bytes_equal, Barcodes};
use crate::tables::{
    hit_table, hits_entries, hits_get, hits_insert, hits_new, unknown_entries, unknown_get,
    unknown_insert, unknown_new, unknown_table,
};

verus! {

// ---------------------------------------------------------------------------
// Mathematical model.

/// A counter after one more read: it stops at the largest value rather than
/// wrap.
pub open spec fn bumped_count(c: usize) -> usize {
    if c < usize::MAX {
        (c + 1) as usize
    } else {
        c
    }
}

/// A counter table after one more read under key `k`.
pub open spec fn bumped<K>(m: Map<K, usize>, k: K) -> Map<K, usize> {
    m.insert(k, if m.contains_key(k) { bumped_count(m[k]) } else { 1usize })
}

/// The step that records one read.
pub open spec fn bump_step<K>() -> spec_fn(Map<K, usize>, K) -> Map<K, usize> {
    |acc: Map<K, usize>, k: K| bumped(acc, k)
}

/// A counter table after recording the reads `s`, in order.
pub open spec fn replay<K>(m: Map<K, usize>, s: Seq<K>) -> Map<K, usize> {
    s.fold_left(m, bump_step())
}

/// The (cell, key) entries for key `x` whose count exceeds `min_reads`.
pub open spec fn passing_cells<K>(m: Map<(Seq<u8>, K), usize>, x: K, min_reads: usize) -> Set<(Seq<u8>, K)> {
    m.dom().filter(|k: (Seq<u8>, K)| k.1 == x && m[k] > min_reads)
}

/// The step that adds one entry's count to a running total.
pub open spec fn adder<K>(m: Map<K, usize>) -> spec_fn(int, K) -> int {
    |acc: int, k: K| acc + m[k] as int
}

/// The sum of the counts of the entries `s`.
pub open spec fn sum_counts<K>(m: Map<K, usize>, s: Set<K>) -> int {
    s.fold(0int, adder(m))
}

/// Reads of key `x` over the cells in which it has more than `min_reads`.
pub open spec fn total_reads<K>(m: Map<(Seq<u8>, K), usize>, x: K, min_reads: usize) -> int {
    sum_counts(m, passing_cells(m, x, min_reads))
}

/// Number of cells in which key `x` has more than `min_reads`.
pub open spec fn cell_count<K>(m: Map<(Seq<u8>, K), usize>, x: K, min_reads: usize) -> nat {
    passing_cells(m, x, min_reads).len()
}

/// Whether a summary row is kept: more than `min_reads` reads, at least
/// `min_cells` cells, and, with a floor given, more than that many reads per
/// cell (truncating division).
pub open spec fn passes_spec(count: int, cells: int, min_reads: usize, min_cells: usize, reads_per_cell: Option<usize>) -> bool {
    &&& count > min_reads
    &&& cells >= min_cells
    &&& match reads_per_cell {
        None => true,
        Some(r) => cells > 0 && count / cells > r,
    }
}

// ---------------------------------------------------------------------------
// Counter tables.

/// Read counts per (cell code, reference record position).
pub struct CellCounts {
    table: AHashMap<(Vec<u8>, usize), usize>,
}

/// Read counts per (cell code, observed barcode) for reads matching no
/// reference.
pub struct UnknownCounts {
    table: AHashMap<(Vec<u8>, Vec<u8>), usize>,
}

impl CellCounts {
    pub closed spec fn view(&self) -> Map<(Seq<u8>, usize), usize> {
        hit_table(self.table)
    }

    pub fn new() -> (r: CellCounts)
        ensures
            r.view() == Map::<(Seq<u8>, usize), usize>::empty(),
    {
        let table = hits_new();
        let r = CellCounts { table };
        assert(r.view() =~= Map::<(Seq<u8>, usize), usize>::empty());
        r
    }

    /// Adds one read of record `pos` in cell `cellcode`.
    pub fn count(&mut self, cellcode: Vec<u8>, pos: usize)
        ensures
            final(self).view() == bumped(old(self).view(), (cellcode@, pos)),
    {
        let key = (cellcode, pos);
        let next = match hits_get(&self.table, &key) {
            Some(c) => if c < usize::MAX { c + 1 } else { c },
            None => 1,
        };
        hits_insert(&mut self.table, key, next);
    }

    /// Per record position below `n`: the reads over the cells in which it
    /// has more than `min_reads`, and the number of such cells.
    pub fn summary(&self, min_reads: usize, n: usize) -> (r: Vec<(u128, usize)>)
        ensures
            r@.len() == n,
            forall|x: int|
                0 <= x < n ==> {
                    &&& (#[trigger] r@[x]).0 as int == total_reads(self.view(), x as usize, min_reads)
                    &&& r@[x].1 as nat == cell_count(self.view(), x as usize, min_reads)
                },
    {
        let entries = hits_entries(&self.table);
        let ghost m = self.view();
        let ghost keys = entries@.map_values(|e: ((Vec<u8>, usize), usize)| (e.0.0@, e.0.1));
        let mut r: Vec<(u128, usize)> = Vec::new();
        let mut x: usize = 0;
        while x < n
            invariant
                x <= n,
                r@.len() == x,
                forall|y: int| 0 <= y < x ==> #[trigger] r@[y] == (0u128, 0usize),
            decreases n - x,
        {
            r.push((0u128, 0usize));
            x += 1;
        }
        proof {
            assert forall|y: int| 0 <= y < n implies {
                &&& #[trigger] r@[y].0 as int == sum_counts(m, seen_passing(m, keys, 0, y as usize, min_reads))
                &&& r@[y].1 as nat == seen_passing(m, keys, 0, y as usize, min_reads).len()
            } by {
                let s = seen_passing(m, keys, 0, y as usize, min_reads);
                assert(s =~= Set::<(Seq<u8>, usize)>::empty());
                lemma_fold_empty(0int, adder(m));
            }
        }
        let mut i: usize = 0;
        while i < entries.len()
            invariant
                i <= entries@.len(),
                r@.len() == n,
                keys.len() == entries@.len(),
                forall|j: int| 0 <= j < keys.len() ==> #[trigger] keys[j] == (entries@[j].0.0@, entries@[j].0.1),
                forall|j: int| 0 <= j < keys.len() ==> m.contains_key(#[trigger] keys[j]) && m[keys[j]] == entries@[j].1,
                keys.no_duplicates(),
                forall|y: int|
                    0 <= y < n ==> {
                        &&& #[trigger] r@[y].0 as int == sum_counts(m, seen_passing(m, keys, i as int, y as usize, min_reads))
                        &&& r@[y].1 as nat == seen_passing(m, keys, i as int, y as usize, min_reads).len()
                        &&& r@[y].1 <= i
                        &&& r@[y].0 <= r@[y].1 as int * usize::MAX as int
                    },
            decreases entries@.len() - i,
        {
            let pos = entries[i].0.1;
            let c = entries[i].1;
            proof {
                lemma_seen_step(keys, i as int);
            }
            if c > min_reads && pos < n {
                let (t, k) = r[pos];
                proof {
                    assert(r@[pos as int].0 <= r@[pos as int].1 as int * usize::MAX as int);
                    assert(k <= i);
                    assert((k as int + 1) * usize::MAX as int == k as int * usize::MAX as int + usize::MAX as int) by (nonlinear_arith);
                    assert(k as int * usize::MAX as int <= usize::MAX as int * usize::MAX as int) by (nonlinear_arith)
                        requires k <= usize::MAX;
                }
                let ghost before = r@;
                r.set(pos, (t + c as u128, k + 1));
                proof {
                    assert forall|y: int| 0 <= y < n implies {
                        &&& #[trigger] r@[y].0 as int == sum_counts(m, seen_passing(m, keys, i + 1, y as usize, min_reads))
                        &&& r@[y].1 as nat == seen_passing(m, keys, i + 1, y as usize, min_reads).len()
                        &&& r@[y].1 <= i + 1
                        &&& r@[y].0 <= r@[y].1 as int * usize::MAX as int
                    } by {
                        let s0 = seen_passing(m, keys, i as int, y as usize, min_reads);
                        lemma_seen_passing_step(m, keys, i as int, y as usize, min_reads);
                        if y == pos {
                            lemma_sum_insert(m, s0, keys[i as int]);
                            assert(r@[y].0 == t + c && r@[y].1 == k + 1);
                            assert(keys[i as int].1 == pos && m[keys[i as int]] == c);
                            assert(r@[y].0 as int == sum_counts(m, seen_passing(m, keys, i + 1, y as usize, min_reads)));
                            assert(r@[y].1 as nat == seen_passing(m, keys, i + 1, y as usize, min_reads).len());
                            assert(r@[y].0 <= r@[y].1 as int * usize::MAX as int);
                        } else {
                            assert(r@[y] == before[y]);
                            assert(before[y].0 as int == sum_counts(m, seen_passing(m, keys, i as int, y as usize, min_reads)));
                            assert(keys[i as int].1 != y as usize);
                        }
                    }
                }
            } else {
                proof {
                    assert forall|y: int| 0 <= y < n implies {
                        &&& #[trigger] r@[y].0 as int == sum_counts(m, seen_passing(m, keys, i + 1, y as usize, min_reads))
                        &&& r@[y].1 as nat == seen_passing(m, keys, i + 1, y as usize, min_reads).len()
                        &&& r@[y].1 <= i + 1
                        &&& r@[y].0 <= r@[y].1 as int * usize::MAX as int
                    } by {
                        assert(keys[i as int].1 == pos && m[keys[i as int]] == c);
                        lemma_seen_passing_step(m, keys, i as int, y as usize, min_reads);
                        assert(r@[y].0 as int == sum_counts(m, seen_passing(m, keys, i as int, y as usize, min_reads)));
                        assert(seen_passing(m, keys, i + 1, y as usize, min_reads) == seen_passing(m, keys, i as int, y as usize, min_reads));
                    }
                }
            }
            i += 1;
        }
        proof {
            assert(seen(keys, keys.len() as int) =~= m.dom()) by {
                assert forall|k: (Seq<u8>, usize)| m.contains_key(k) implies seen(keys, keys.len() as int).contains(k) by {
                    let j = choose|j: int| 0 <= j < entries@.len() && (entries@[j].0.0@, entries@[j].0.1) == k;
                    assert(keys.subrange(0, keys.len() as int)[j] == k);
                }
                assert forall|k: (Seq<u8>, usize)| seen(keys, keys.len() as int).contains(k) implies m.contains_key(k) by {
                    let j = choose|j: int| 0 <= j < keys.len() && keys.subrange(0, keys.len() as int)[j] == k;
                    assert(keys[j] == k);
                }
            }
            assert forall|x: int| 0 <= x < n implies {
                &&& (#[trigger] r@[x]).0 as int == total_reads(m, x as usize, min_reads)
                &&& r@[x].1 as nat == cell_count(m, x as usize, min_reads)
            } by {
                assert(i == keys.len());
                assert(r@[x].0 as int == sum_counts(m, seen_passing(m, keys, i as int, x as usize, min_reads)));
                assert(seen_passing(m, keys, keys.len() as int, x as usize, min_reads)
                    =~= passing_cells(m, x as usize, min_reads));
            }
        }
        r
    }
}

impl UnknownCounts {
    pub closed spec fn view(&self) -> Map<(Seq<u8>, Seq<u8>), usize> {
        unknown_table(self.table)
    }

    pub fn new() -> (r: UnknownCounts)
        ensures
            r.view() == Map::<(Seq<u8>, Seq<u8>), usize>::empty(),
    {
        let table = unknown_new();
        let r = UnknownCounts { table };
        assert(r.view() =~= Map::<(Seq<u8>, Seq<u8>), usize>::empty());
        r
    }

    /// Adds one read of the unmatched `barcode` in cell `cellcode`.
    pub fn count(&mut self, cellcode: Vec<u8>, barcode: Vec<u8>)
        ensures
            final(self).view() == bumped(old(self).view(), (cellcode@, barcode@)),
    {
        let key = (cellcode, barcode);
        let next = match unknown_get(&self.table, &key) {
            Some(c) => if c < usize::MAX { c + 1 } else { c },
            None => 1,
        };
        unknown_insert(&mut self.table, key, next);
    }
}

impl UnknownCounts {
    /// Per observed barcode with at least one cell above `min_reads`: the
    /// barcode, its reads over those cells, and the number of such cells.
    pub fn summary(&self, min_reads: usize) -> (r: Vec<(Vec<u8>, u128, usize)>)
        ensures
            forall|a: int, b: int| 0 <= a < b < r@.len() ==> (#[trigger] r@[a]).0@ != (#[trigger] r@[b]).0@,
            forall|j: int|
                0 <= j < r@.len() ==> {
                    &&& (#[trigger] r@[j]).2 >= 1
                    &&& r@[j].1 as int == total_reads(self.view(), r@[j].0@, min_reads)
                    &&& r@[j].2 as nat == cell_count(self.view(), r@[j].0@, min_reads)
                },
            forall|x: Seq<u8>| #[trigger] cell_count(self.view(), x, min_reads) > 0 ==> exists|j: int|
                0 <= j < r@.len() && r@[j].0@ == x,
    {
        let entries = unknown_entries(&self.table);
        let ghost m = self.view();
        let ghost keys = entries@.map_values(|e: ((Vec<u8>, Vec<u8>), usize)| (e.0.0@, e.0.1@));
        let mut r: Vec<(Vec<u8>, u128, usize)> = Vec::new();
        let mut i: usize = 0;
        while i < entries.len()
            invariant
                i <= entries@.len(),
                keys.len() == entries@.len(),
                forall|j: int| 0 <= j < keys.len() ==> #[trigger] keys[j] == (entries@[j].0.0@, entries@[j].0.1@),
                forall|j: int| 0 <= j < keys.len() ==> m.contains_key(#[trigger] keys[j]) && m[keys[j]] == entries@[j].1,
                keys.no_duplicates(),
                forall|a: int, b: int| 0 <= a < b < r@.len() ==> (#[trigger] r@[a]).0@ != (#[trigger] r@[b]).0@,
                forall|j: int|
                    0 <= j < r@.len() ==> {
                        &&& (#[trigger] r@[j]).1 as int == sum_counts(m, seen_passing(m, keys, i as int, r@[j].0@, min_reads))
                        &&& r@[j].2 as nat == seen_passing(m, keys, i as int, r@[j].0@, min_reads).len()
                        &&& 1 <= r@[j].2 <= i
                        &&& r@[j].1 <= r@[j].2 as int * usize::MAX as int
                    },
                forall|k: (Seq<u8>, Seq<u8>)|
                    #[trigger] seen(keys, i as int).contains(k) && m[k] > min_reads ==> exists|j: int|
                        0 <= j < r@.len() && r@[j].0@ == k.1,
            decreases entries@.len() - i,
        {
            let c = entries[i].1;
            proof {
                lemma_seen_step(keys, i as int);
                assert(keys[i as int] == (entries@[i as int].0.0@, entries@[i as int].0.1@));
            }
            let ghost before = r@;
            if c > min_reads {
                let bc = &entries[i].0.1;
                match find_row(&r, bc) {
                    Some(j) => {
                        let (key, t, k) = (r[j].0.clone(), r[j].1, r[j].2);
                        proof {
                            assert(key@ =~= r@[j as int].0@);
                            assert((k as int + 1) * usize::MAX as int == k as int * usize::MAX as int + usize::MAX as int) by (nonlinear_arith);
                            assert(k as int * usize::MAX as int <= usize::MAX as int * usize::MAX as int) by (nonlinear_arith)
                                requires k <= usize::MAX;
                        }
                        r.set(j, (key, t + c as u128, k + 1));
                        proof {
                            assert forall|y: int| 0 <= y < r@.len() implies {
                                &&& (#[trigger] r@[y]).1 as int == sum_counts(m, seen_passing(m, keys, i + 1, r@[y].0@, min_reads))
                                &&& r@[y].2 as nat == seen_passing(m, keys, i + 1, r@[y].0@, min_reads).len()
                                &&& 1 <= r@[y].2 <= i + 1
                                &&& r@[y].1 <= r@[y].2 as int * usize::MAX as int
                            } by {
                                let x = before[y].0@;
                                assert(r@[y].0@ == x);
                                assert(before[y].1 as int == sum_counts(m, seen_passing(m, keys, i as int, x, min_reads)));
                                lemma_seen_passing_step(m, keys, i as int, x, min_reads);
                                if y == j {
                                    lemma_sum_insert(m, seen_passing(m, keys, i as int, x, min_reads), keys[i as int]);
                                } else {
                                    assert(before[y].0@ != before[j as int].0@);
                                }
                            }
                            assert forall|a: int, b: int| 0 <= a < b < r@.len() implies (#[trigger] r@[a]).0@ != (#[trigger] r@[b]).0@ by {
                                assert(before[a].0@ != before[b].0@);
                            }
                            assert forall|q: (Seq<u8>, Seq<u8>)|
                                #[trigger] seen(keys, i + 1).contains(q) && m[q] > min_reads implies exists|j2: int|
                                    0 <= j2 < r@.len() && r@[j2].0@ == q.1 by {
                                if q == keys[i as int] {
                                    assert(r@[j as int].0@ == q.1);
                                } else {
                                    assert(seen(keys, i as int).contains(q));
                                    let j2 = choose|j2: int| 0 <= j2 < before.len() && before[j2].0@ == q.1;
                                    assert(r@[j2].0@ == q.1);
                                }
                            }
                        }
                    },
                    None => {
                        let key = bc.clone();
                        proof {
                            assert(key@ =~= keys[i as int].1);
                        }
                        r.push((key, c as u128, 1));
                        proof {
                            let x = keys[i as int].1;
                            assert forall|y: int| 0 <= y < r@.len() implies {
                                &&& (#[trigger] r@[y]).1 as int == sum_counts(m, seen_passing(m, keys, i + 1, r@[y].0@, min_reads))
                                &&& r@[y].2 as nat == seen_passing(m, keys, i + 1, r@[y].0@, min_reads).len()
                                &&& 1 <= r@[y].2 <= i + 1
                                &&& r@[y].1 <= r@[y].2 as int * usize::MAX as int
                            } by {
                                lemma_seen_passing_step(m, keys, i as int, r@[y].0@, min_reads);
                                if y == before.len() {
                                    let s0 = seen_passing(m, keys, i as int, x, min_reads);
                                    assert forall|q: (Seq<u8>, Seq<u8>)| !s0.contains(q) by {
                                        if s0.contains(q) {
                                            assert(seen(keys, i as int).contains(q) && m[q] > min_reads);
                                            let j2 = choose|j2: int| 0 <= j2 < before.len() && before[j2].0@ == q.1;
                                        }
                                    }
                                    assert(s0 =~= Set::<(Seq<u8>, Seq<u8>)>::empty());
                                    lemma_fold_empty(0int, adder(m));
                                    lemma_sum_insert(m, s0, keys[i as int]);
                                    assert(s0.insert(keys[i as int]).len() == 1);
                                } else {
                                    assert(r@[y] == before[y]);
                                    assert(before[y].1 as int == sum_counts(m, seen_passing(m, keys, i as int, before[y].0@, min_reads)));
                                }
                            }
                            assert forall|a: int, b: int| 0 <= a < b < r@.len() implies (#[trigger] r@[a]).0@ != (#[trigger] r@[b]).0@ by {
                                if b < before.len() {
                                    assert(before[a].0@ != before[b].0@);
                                }
                            }
                            assert forall|q: (Seq<u8>, Seq<u8>)|
                                #[trigger] seen(keys, i + 1).contains(q) && m[q] > min_reads implies exists|j2: int|
                                    0 <= j2 < r@.len() && r@[j2].0@ == q.1 by {
                                if q == keys[i as int] {
                                    assert(r@[before.len() as int].0@ == q.1);
                                } else {
                                    assert(seen(keys, i as int).contains(q));
                                    let j2 = choose|j2: int| 0 <= j2 < before.len() && before[j2].0@ == q.1;
                                    assert(r@[j2].0@ == q.1);
                                }
                            }
                        }
                    },
                }
            } else {
                proof {
                    assert forall|y: int| 0 <= y < r@.len() implies {
                        &&& (#[trigger] r@[y]).1 as int == sum_counts(m, seen_passing(m, keys, i + 1, r@[y].0@, min_reads))
                        &&& r@[y].2 as nat == seen_passing(m, keys, i + 1, r@[y].0@, min_reads).len()
                        &&& 1 <= r@[y].2 <= i + 1
                        &&& r@[y].1 <= r@[y].2 as int * usize::MAX as int
                    } by {
                        lemma_seen_passing_step(m, keys, i as int, r@[y].0@, min_reads);
                        assert(r@[y].1 as int == sum_counts(m, seen_passing(m, keys, i as int, r@[y].0@, min_reads)));
                    }
                    assert forall|q: (Seq<u8>, Seq<u8>)|
                        #[trigger] seen(keys, i + 1).contains(q) && m[q] > min_reads implies exists|j2: int|
                            0 <= j2 < r@.len() && r@[j2].0@ == q.1 by {
                        assert(seen(keys, i as int).contains(q));
                    }
                }
            }
            i += 1;
        }
        proof {
            assert(seen(keys, keys.len() as int) =~= m.dom()) by {
                assert forall|k: (Seq<u8>, Seq<u8>)| m.contains_key(k) implies seen(keys, keys.len() as int).contains(k) by {
                    let j = choose|j: int| 0 <= j < entries@.len() && (entries@[j].0.0@, entries@[j].0.1@) == k;
                    assert(keys.subrange(0, keys.len() as int)[j] == k);
                }
                assert forall|k: (Seq<u8>, Seq<u8>)| seen(keys, keys.len() as int).contains(k) implies m.contains_key(k) by {
                    let j = choose|j: int| 0 <= j < keys.len() && #[trigger] keys.subrange(0, keys.len() as int)[j] == k;
                    assert(keys[j] == k);
                }
            }
            assert forall|j: int| 0 <= j < r@.len() implies {
                &&& (#[trigger] r@[j]).2 >= 1
                &&& r@[j].1 as int == total_reads(m, r@[j].0@, min_reads)
                &&& r@[j].2 as nat == cell_count(m, r@[j].0@, min_reads)
            } by {
                assert(seen_passing(m, keys, i as int, r@[j].0@, min_reads) =~= passing_cells(m, r@[j].0@, min_reads));
            }
            assert forall|x: Seq<u8>| #[trigger] cell_count(m, x, min_reads) > 0 implies exists|j: int|
                0 <= j < r@.len() && r@[j].0@ == x by {
                let p = passing_cells(m, x, min_reads);
                assert(p.len() > 0);
                assert(p.finite()) by {
                    vstd::set_lib::lemma_len_subset(p, seen(keys, keys.len() as int));
                }
                let q = p.choose();
                assert(p.contains(q));
                assert(seen(keys, i as int).contains(q));
            }
        }
        r
    }
}

/// The position of the row whose barcode is `bc`, if any.
fn find_row(rows: &Vec<(Vec<u8>, u128, usize)>, bc: &Vec<u8>) -> (r: Option<usize>)
    ensures
        r matches Some(j) ==> j < rows@.len() && rows@[j as int].0@ == bc@,
        r is None ==> forall|j: int| 0 <= j < rows@.len() ==> (#[trigger] rows@[j]).0@ != bc@,
{
    let mut j: usize = 0;
    while j < rows.len()
        invariant
            j <= rows@.len(),
            forall|a: int| 0 <= a < j ==> (#[trigger] rows@[a]).0@ != bc@,
        decreases rows@.len() - j,
    {
        if bytes_equal(rows[j].0.as_slice(), bc.as_slice()) {
            return Some(j);
        }
        j += 1;
    }
    None
}

/// The state of all counters, as values.
pub struct CountsView {
    pub hits: Map<(Seq<u8>, usize), usize>,
    pub unknown: Map<(Seq<u8>, Seq<u8>), usize>,
    pub ignored: usize,
    pub multiple: usize,
    pub nohit: usize,
    pub not_whitelisted: usize,
}

/// All counters of one run.
pub struct Counts {
    cells: CellCounts,
    ignored: usize,
    multiple: usize,
    nohit: usize,
    not_whitelisted: usize,
    unknown: UnknownCounts,
}

impl Counts {
    pub closed spec fn view(&self) -> CountsView {
        CountsView {
            hits: self.cells.view(),
            unknown: self.unknown.view(),
            ignored: self.ignored,
            multiple: self.multiple,
            nohit: self.nohit,
            not_whitelisted: self.not_whitelisted,
        }
    }

    /// Empty counters.
    pub fn new() -> (r: Counts)
        ensures
            r.view().hits == Map::<(Seq<u8>, usize), usize>::empty(),
            r.view().unknown == Map::<(Seq<u8>, Seq<u8>), usize>::empty(),
            r.view().ignored == 0,
            r.view().multiple == 0,
            r.view().nohit == 0,
            r.view().not_whitelisted == 0,
    {
        Counts {
            cells: CellCounts::new(),
            ignored: 0,
            multiple: 0,
            nohit: 0,
            not_whitelisted: 0,
            unknown: UnknownCounts::new(),
        }
    }

    /// Records one read of record `pos` in cell `cellcode`.
    pub fn count_barcode(&mut self, cellcode: Vec<u8>, pos: usize)
        ensures
            final(self).view() == (CountsView { hits: bumped(old(self).view().hits, (cellcode@, pos)), ..old(self).view() }),
    {
        self.cells.count(cellcode, pos);
    }

    /// Records one read of the unmatched `barcode` in cell `cellcode`.
    pub fn count_unknown(&mut self, cellcode: Vec<u8>, barcode: Vec<u8>)
        ensures
            final(self).view() == (CountsView { unknown: bumped(old(self).view().unknown, (cellcode@, barcode@)), ..old(self).view() }),
    {
        self.unknown.count(cellcode, barcode);
    }

    /// Records a read whose barcode is on the ignore list.
    pub fn ignored(&mut self)
        ensures
            final(self).view() == (CountsView { ignored: bumped_count(old(self).view().ignored), ..old(self).view() }),
    {
        if self.ignored < usize::MAX {
            self.ignored += 1;
        }
    }

    /// Records a read that matched no reference.
    pub fn nohit(&mut self)
        ensures
            final(self).view() == (CountsView { nohit: bumped_count(old(self).view().nohit), ..old(self).view() }),
    {
        if self.nohit < usize::MAX {
            self.nohit += 1;
        }
    }

    /// Records a read that matched several references.
    pub fn multiple(&mut self)
        ensures
            final(self).view() == (CountsView { multiple: bumped_count(old(self).view().multiple), ..old(self).view() }),
    {
        if self.multiple < usize::MAX {
            self.multiple += 1;
        }
    }

    /// Records a read whose cell code is not whitelisted.
    pub fn not_whitelisted(&mut self)
        ensures
            final(self).view() == (CountsView { not_whitelisted: bumped_count(old(self).view().not_whitelisted), ..old(self).view() }),
    {
        if self.not_whitelisted < usize::MAX {
            self.not_whitelisted += 1;
        }
    }

    /// The unknown-barcode summary: see `UnknownCounts::summary`.
    pub fn unknown_summary(&self, min_reads: usize) -> (r: Vec<(Vec<u8>, u128, usize)>)
        ensures
            forall|a: int, b: int| 0 <= a < b < r@.len() ==> (#[trigger] r@[a]).0@ != (#[trigger] r@[b]).0@,
            forall|j: int|
                0 <= j < r@.len() ==> {
                    &&& (#[trigger] r@[j]).2 >= 1
                    &&& r@[j].1 as int == total_reads(self.view().unknown, r@[j].0@, min_reads)
                    &&& r@[j].2 as nat == cell_count(self.view().unknown, r@[j].0@, min_reads)
                },
            forall|x: Seq<u8>| #[trigger] cell_count(self.view().unknown, x, min_reads) > 0 ==> exists|j: int|
                0 <= j < r@.len() && r@[j].0@ == x,
    {
        self.unknown.summary(min_reads)
    }

    pub fn n_ignored(&self) -> (r: usize)
        ensures
            r == self.view().ignored,
    {
        self.ignored
    }

    pub fn n_multiple(&self) -> (r: usize)
        ensures
            r == self.view().multiple,
    {
        self.multiple
    }

    pub fn n_nohit(&self) -> (r: usize)
        ensures
            r == self.view().nohit,
    {
        self.nohit
    }

    pub fn n_not_whitelisted(&self) -> (r: usize)
        ensures
            r == self.view().not_whitelisted,
    {
        self.not_whitelisted
    }
}

/// Per reference record: reads over the cells that pass the per-cell
/// threshold, and the number of such cells.
pub struct Summary {
    rows: Vec<(u128, usize)>,
}

impl Summary {
    pub closed spec fn view(&self) -> Seq<(u128, usize)> {
        self.rows@
    }

    /// Summarises the hit counters for every panel record, counting only the
    /// (cell, record) counts above `min_reads`.
    pub fn new(barcodes: &Barcodes, counts: &Counts, min_reads: usize) -> (r: Summary)
        ensures
            r.view().len() == barcodes.panel().len(),
            forall|x: int|
                0 <= x < r.view().len() ==> {
                    &&& (#[trigger] r.view()[x]).0 as int == total_reads(counts.view().hits, x as usize, min_reads)
                    &&& r.view()[x].1 as nat == cell_count(counts.view().hits, x as usize, min_reads)
                },
    {
        let rows = counts.cells.summary(min_reads, barcodes.len());
        Summary { rows }
    }

    /// Number of rows (one per panel record).
    pub fn len(&self) -> (r: usize)
        ensures
            r == self.view().len(),
    {
        self.rows.len()
    }

    /// The (total reads, cells) row of record `x`.
    pub fn row(&self, x: usize) -> (r: (u128, usize))
        requires
            x < self.view().len(),
        ensures
            r == self.view()[x as int],
    {
        self.rows[x]
    }

    /// The records whose rows pass the thresholds, in increasing order.
    pub fn passing(&self, min_reads: usize, min_cells: usize, reads_per_cell: Option<usize>) -> (r: Vec<usize>)
        ensures
            forall|a: int, b: int| 0 <= a < b < r@.len() ==> r@[a] < r@[b],
            forall|x: usize|
                r@.contains(x) <==> x < self.view().len() && passes_spec(
                    self.view()[x as int].0 as int,
                    self.view()[x as int].1 as int,
                    min_reads,
                    min_cells,
                    reads_per_cell,
                ),
    {
        let mut r: Vec<usize> = Vec::new();
        let mut x: usize = 0;
        while x < self.rows.len()
            invariant
                x <= self.rows@.len(),
                forall|a: int, b: int| 0 <= a < b < r@.len() ==> r@[a] < r@[b],
                forall|a: int| 0 <= a < r@.len() ==> r@[a] < x,
                forall|y: usize|
                    r@.contains(y) <==> y < x && passes_spec(
                        self.rows@[y as int].0 as int,
                        self.rows@[y as int].1 as int,
                        min_reads,
                        min_cells,
                        reads_per_cell,
                    ),
            decreases self.rows@.len() - x,
        {
            let (count, cells) = self.rows[x];
            let ghost before = r@;
            if passes(count, cells, min_reads, min_cells, reads_per_cell) {
                r.push(x);
                proof {
                    assert forall|y: usize| r@.contains(y) <==> before.contains(y) || y == x by {
                        if r@.contains(y) {
                            let j = choose|j: int| 0 <= j < r@.len() && r@[j] == y;
                            if j < before.len() {
                                assert(before[j] == y);
                            }
                        }
                        if before.contains(y) {
                            let j = choose|j: int| 0 <= j < before.len() && before[j] == y;
                            assert(r@[j] == y);
                        }
                        if y == x {
                            assert(r@[before.len() as int] == y);
                        }
                    }
                }
            } else {
                assert(!passes_spec(self.rows@[x as int].0 as int, self.rows@[x as int].1 as int, min_reads, min_cells, reads_per_cell));
            }
            assert forall|y: usize|
                r@.contains(y) <==> y < x + 1 && passes_spec(
                    self.rows@[y as int].0 as int,
                    self.rows@[y as int].1 as int,
                    min_reads,
                    min_cells,
                    reads_per_cell,
                ) by {
                assert(before.contains(y) <==> y < x && passes_spec(
                    self.rows@[y as int].0 as int,
                    self.rows@[y as int].1 as int,
                    min_reads,
                    min_cells,
                    reads_per_cell,
                ));
                if y == x && before.contains(y) {
                    let j = choose|j: int| 0 <= j < before.len() && before[j] == y;
                    assert(before[j] < x);
                }
            }
            x += 1;
        }
        r
    }
}

/// Whether a summary row passes the thresholds: more than `min_reads` reads,
/// at least `min_cells` cells, and, with a floor given, more than that many
/// reads per cell.
pub fn passes(count: u128, cells: usize, min_reads: usize, min_cells: usize, reads_per_cell: Option<usize>) -> (r: bool)
    ensures
        r == passes_spec(count as int, cells as int, min_reads, min_cells, reads_per_cell),
{
    if count <= min_reads as u128 || cells < min_cells {
        return false;
    }
    match reads_per_cell {
        None => true,
        Some(floor) => cells > 0 && count / (cells as u128) > floor as u128,
    }
}

// ---------------------------------------------------------------------------
// Laws.

/// A (cell, key) count at or below the per-cell threshold adds nothing to its
/// key's total or cell count; one above it adds its count to the total and
/// one to the cell count.
pub proof fn lemma_threshold<K>(m: Map<(Seq<u8>, K), usize>, c: Seq<u8>, x: K, min_reads: usize)
    requires
        m.dom().finite(),
        m.contains_key((c, x)),
    ensures
        m[(c, x)] > min_reads ==> total_reads(m, x, min_reads) == total_reads(m.remove((c, x)), x, min_reads) + m[(c, x)]
            && cell_count(m, x, min_reads) == cell_count(m.remove((c, x)), x, min_reads) + 1,
        m[(c, x)] <= min_reads ==> total_reads(m, x, min_reads) == total_reads(m.remove((c, x)), x, min_reads)
            && cell_count(m, x, min_reads) == cell_count(m.remove((c, x)), x, min_reads),
{
    let k = (c, x);
    let rest = m.remove(k);
    let s = passing_cells(rest, x, min_reads);
    vstd::set_lib::lemma_len_subset(s, m.dom());
    lemma_sum_agree(m, rest, s);
    if m[k] > min_reads {
        assert(passing_cells(m, x, min_reads) =~= s.insert(k));
        lemma_sum_insert(m, s, k);
    } else {
        assert(passing_cells(m, x, min_reads) =~= s);
    }
}

/// Sums over a set depend only on the counts of its members.
pub proof fn lemma_sum_agree<K>(m1: Map<K, usize>, m2: Map<K, usize>, s: Set<K>)
    requires
        s.finite(),
        forall|k: K| #[trigger] s.contains(k) ==> m1[k] == m2[k],
    ensures
        sum_counts(m1, s) == sum_counts(m2, s),
    decreases s.len(),
{
    if s.len() == 0 {
        assert(s =~= Set::<K>::empty());
        lemma_fold_empty(0int, adder(m1));
        lemma_fold_empty(0int, adder(m2));
    } else {
        let a = s.choose();
        let t = s.remove(a);
        lemma_sum_agree(m1, m2, t);
        assert(t.insert(a) =~= s);
        lemma_sum_insert(m1, t, a);
        lemma_sum_insert(m2, t, a);
    }
}

/// A key with one cell fewer than `min_cells` never passes, whatever its
/// reads; with `min_cells` at 1, any key with a cell and more than
/// `min_reads` reads passes when no per-cell floor is set.
pub proof fn lemma_filter_conjunction(count: int, cells: int, min_reads: usize, min_cells: usize, reads_per_cell: Option<usize>)
    ensures
        cells == min_cells - 1 ==> !passes_spec(count, cells, min_reads, min_cells, reads_per_cell),
        min_cells == 1 && cells >= 1 && count > min_reads && reads_per_cell is None ==> passes_spec(
            count,
            cells,
            min_reads,
            min_cells,
            reads_per_cell,
        ),
{
}

/// Recording a read is order-insensitive: two reads in either order give the
/// same counters.
pub proof fn lemma_bump_commutes<K>()
    ensures
        commutative_foldl(bump_step::<K>()),
{
    assert forall|x: K, y: K, v: Map<K, usize>| #[trigger] bump_step::<K>()(bump_step::<K>()(v, x), y) == bump_step::<K>()(bump_step::<K>()(v, y), x) by {
        if x != y {
            assert(bumped(bumped(v, x), y) =~= bumped(bumped(v, y), x));
        }
    }
}

/// Recording the same reads in any order gives the same counters, and so the
/// same summary.
pub proof fn lemma_order_independent(m: Map<(Seq<u8>, usize), usize>, s1: Seq<(Seq<u8>, usize)>, s2: Seq<(Seq<u8>, usize)>, min_reads: usize)
    requires
        s1.to_multiset() == s2.to_multiset(),
    ensures
        replay(m, s1) == replay(m, s2),
        forall|x: usize|
            total_reads(#[trigger] replay(m, s1), x, min_reads) == total_reads(replay(m, s2), x, min_reads)
                && cell_count(replay(m, s1), x, min_reads) == cell_count(replay(m, s2), x, min_reads),
{
    lemma_bump_commutes::<(Seq<u8>, usize)>();
    lemma_fold_left_permutation(s1, s2, bump_step(), m);
}

/// The keys among the first `i` entries.
pub open spec fn seen<K>(keys: Seq<K>, i: int) -> Set<K> {
    keys.subrange(0, i).to_set()
}

/// The keys among the first `i` entries that belong to `x` and exceed
/// `min_reads`.
pub open spec fn seen_passing<K>(m: Map<(Seq<u8>, K), usize>, keys: Seq<(Seq<u8>, K)>, i: int, x: K, min_reads: usize) -> Set<(Seq<u8>, K)> {
    seen(keys, i).filter(|k: (Seq<u8>, K)| k.1 == x && m[k] > min_reads)
}

proof fn lemma_seen_passing_step<K>(m: Map<(Seq<u8>, K), usize>, keys: Seq<(Seq<u8>, K)>, i: int, x: K, min_reads: usize)
    requires
        0 <= i < keys.len(),
        keys.no_duplicates(),
    ensures
        seen_passing(m, keys, i, x, min_reads).finite(),
        !seen_passing(m, keys, i, x, min_reads).contains(keys[i]),
        keys[i].1 == x && m[keys[i]] > min_reads ==> seen_passing(m, keys, i + 1, x, min_reads)
            == seen_passing(m, keys, i, x, min_reads).insert(keys[i]),
        !(keys[i].1 == x && m[keys[i]] > min_reads) ==> seen_passing(m, keys, i + 1, x, min_reads)
            == seen_passing(m, keys, i, x, min_reads),
{
    lemma_seen_step(keys, i);
    vstd::set_lib::lemma_len_subset(seen_passing(m, keys, i, x, min_reads), seen(keys, i));
    if keys[i].1 == x && m[keys[i]] > min_reads {
        assert(seen_passing(m, keys, i + 1, x, min_reads) =~= seen_passing(m, keys, i, x, min_reads).insert(keys[i]));
    } else {
        assert(seen_passing(m, keys, i + 1, x, min_reads) =~= seen_passing(m, keys, i, x, min_reads));
    }
}

/// One more entry adds its key, which was not among those before it.
proof fn lemma_seen_step<K>(keys: Seq<K>, i: int)
    requires
        0 <= i < keys.len(),
        keys.no_duplicates(),
    ensures
        seen(keys, i + 1) == seen(keys, i).insert(keys[i]),
        !seen(keys, i).contains(keys[i]),
        seen(keys, i).finite(),
{
    assert(keys.subrange(0, i + 1) =~= keys.subrange(0, i).push(keys[i]));
    assert(seen(keys, i + 1) =~= seen(keys, i).insert(keys[i])) by {
        assert forall|k: K| seen(keys, i + 1).contains(k) <==> seen(keys, i).insert(keys[i]).contains(k) by {
            if seen(keys, i + 1).contains(k) {
                let j = choose|j: int| 0 <= j < i + 1 && #[trigger] keys.subrange(0, i + 1)[j] == k;
                if j < i {
                    assert(keys.subrange(0, i)[j] == k);
                }
            }
            if seen(keys, i).contains(k) {
                let j = choose|j: int| 0 <= j < i && #[trigger] keys.subrange(0, i)[j] == k;
                assert(keys.subrange(0, i + 1)[j] == k);
            }
            if k == keys[i] {
                assert(keys.subrange(0, i + 1)[i] == k);
            }
        }
    }
    if seen(keys, i).contains(keys[i]) {
        let j = choose|j: int| 0 <= j < i && #[trigger] keys.subrange(0, i)[j] == keys[i];
        assert(keys[j] == keys[i]);
    }
    keys.subrange(0, i).lemma_cardinality_of_set();
}

/// Adding an entry to a finite set adds its count to the sum.
pub proof fn lemma_sum_insert<K>(m: Map<K, usize>, s: Set<K>, k: K)
    requires
        s.finite(),
        !s.contains(k),
    ensures
        sum_counts(m, s.insert(k)) == sum_counts(m, s) + m[k],
{
    assert(is_fun_commutative(adder(m)));
    lemma_fold_insert(s, 0int, adder(m), k);
}

} // verus!
