//! The reference panel and its barcode resolution index.

use ahash::AHashMap;
use bktree::BkTree;
use vstd::prelude::*;

use crate::distance::{edit_distance, lemma_edit_distance_bound, MAX_SEQ_LEN};
use crate::tables::{
    position_table, positions_get, positions_insert, positions_new, tree_by_edit_distance,
    tree_find, tree_insert, tree_new, tree_words,
};

verus! {

/// Largest edit distance at which an approximate match is accepted.
pub const MAX_EDITS: isize = 2;

/// Column of a panel row that holds the barcode.
pub const BARCODE_COLUMN: usize = 4;

/// Outcome of resolving one observed barcode against the panel.
#[derive(Debug, Clone, Copy, PartialEq, Eq)]
pub enum MatchResult {
    /// No reference barcode matches.
    NoHit,
    /// Several reference barcodes lie within the error tolerance.
    Multiple,
    /// The barcode equals the reference barcode of this record.
    Unique(usize),
    /// One reference barcode lies within the tolerance: its record and distance.
    Dist(usize, isize),
}

/// Why a reference panel was refused.
#[derive(Debug, Clone, Copy, PartialEq, Eq)]
pub enum PanelError {
    /// The header is not `id,name,read,pattern,sequence,feature_type`.
    Header,
    /// This row (counted from 0 after the header) has no barcode column.
    MissingBarcode(usize),
    /// This row's barcode does not have the configured length.
    BarcodeLength(usize),
}

/// The six column names a panel header must have, in order.
pub open spec fn schema_field(i: int) -> Seq<u8> {
    if i == 0 {
        seq![105u8, 100]
    } else if i == 1 {
        seq![110u8, 97, 109, 101]
    } else if i == 2 {
        seq![114u8, 101, 97, 100]
    } else if i == 3 {
        seq![112u8, 97, 116, 116, 101, 114, 110]
    } else if i == 4 {
        seq![115u8, 101, 113, 117, 101, 110, 99, 101]
    } else {
        seq![102u8, 101, 97, 116, 117, 114, 101, 95, 116, 121, 112, 101]
    }
}

pub open spec fn header_ok(header: Seq<Vec<u8>>) -> bool {
    &&& header.len() == 6
    &&& forall|i: int| 0 <= i < 6 ==> #[trigger] header[i]@ == schema_field(i)
}

pub open spec fn row_ok(row: Vec<Vec<u8>>, bclength: usize) -> bool {
    &&& row@.len() > BARCODE_COLUMN
    &&& row@[BARCODE_COLUMN as int]@.len() == bclength
}

/// The barcode column of each row.
pub open spec fn barcode_column(rows: Seq<Vec<Vec<u8>>>) -> Seq<Seq<u8>> {
    rows.map_values(|row: Vec<Vec<u8>>| row@[BARCODE_COLUMN as int]@)
}

/// The exact-match table of a panel: each barcode maps to the last position
/// that holds it (a later duplicate replaces an earlier one).
pub open spec fn exact_index(panel: Seq<Seq<u8>>) -> Map<Seq<u8>, usize>
    decreases panel.len(),
{
    if panel.len() == 0 {
        Map::empty()
    } else {
        exact_index(panel.drop_last()).insert(panel.last(), (panel.len() - 1) as usize)
    }
}

/// The reference barcodes within the tolerance of a query.
pub open spec fn near(index: Map<Seq<u8>, usize>, q: Seq<u8>) -> Set<Seq<u8>> {
    index.dom().filter(|k: Seq<u8>| edit_distance(k, q) <= MAX_EDITS)
}

/// What resolving `q` against an exact-match table gives.
pub open spec fn resolution(index: Map<Seq<u8>, usize>, q: Seq<u8>, approximate: bool) -> MatchResult {
    if index.contains_key(q) {
        MatchResult::Unique(index[q])
    } else if !approximate || near(index, q).len() == 0 {
        MatchResult::NoHit
    } else if near(index, q).len() == 1 {
        let k = near(index, q).choose();
        MatchResult::Dist(index[k], edit_distance(k, q) as isize)
    } else {
        MatchResult::Multiple
    }
}

/// The reference panel: its rows, and the index built over their barcodes.
pub struct Barcodes {
    records: Vec<Vec<Vec<u8>>>,
    header: Vec<Vec<u8>>,
    barcodes: AHashMap<Vec<u8>, usize>,
    bktree: BkTree<Vec<u8>>,
    bclength: usize,
}

impl Barcodes {
    /// The barcode of each panel row, in panel order.
    pub closed spec fn panel(&self) -> Seq<Seq<u8>> {
        barcode_column(self.records@)
    }

    /// The configured barcode length.
    pub closed spec fn barcode_len(&self) -> nat {
        self.bclength as nat
    }

    /// The rows of the panel, each a list of fields.
    pub closed spec fn rows(&self) -> Seq<Vec<Vec<u8>>> {
        self.records@
    }

    /// The header fields of the panel.
    pub closed spec fn header_fields(&self) -> Seq<Vec<u8>> {
        self.header@
    }

    /// The exact-match table.
    pub open spec fn index(&self) -> Map<Seq<u8>, usize> {
        exact_index(self.panel())
    }

    pub closed spec fn wf(&self) -> bool {
        &&& self.bclength <= MAX_SEQ_LEN
        &&& forall|i: int| 0 <= i < self.records@.len() ==> #[trigger] row_ok(self.records@[i], self.bclength)
        &&& position_table(self.barcodes) == exact_index(barcode_column(self.records@))
        &&& tree_words(self.bktree) == exact_index(barcode_column(self.records@)).dom()
        &&& tree_by_edit_distance(self.bktree)
    }

    /// Builds the panel from its header fields and rows, checking the header
    /// schema and the length of each row's barcode.
    pub fn from_records(header: Vec<Vec<u8>>, records: Vec<Vec<Vec<u8>>>, bclength: usize) -> (r: Result<Barcodes, PanelError>)
        requires
            bclength <= MAX_SEQ_LEN,
        ensures
            (r is Err && r->Err_0 is Header) <==> !header_ok(header@),
            r is Ok <==> header_ok(header@) && forall|i: int| 0 <= i < records@.len() ==> #[trigger] row_ok(records@[i], bclength),
            forall|i: usize| r == Err::<Barcodes, PanelError>(PanelError::MissingBarcode(i)) <==> {
                &&& header_ok(header@)
                &&& i < records@.len()
                &&& records@[i as int]@.len() <= BARCODE_COLUMN
                &&& forall|j: int| 0 <= j < i ==> #[trigger] row_ok(records@[j], bclength)
            },
            forall|i: usize| r == Err::<Barcodes, PanelError>(PanelError::BarcodeLength(i)) <==> {
                &&& header_ok(header@)
                &&& i < records@.len()
                &&& records@[i as int]@.len() > BARCODE_COLUMN
                &&& records@[i as int]@[BARCODE_COLUMN as int]@.len() != bclength
                &&& forall|j: int| 0 <= j < i ==> #[trigger] row_ok(records@[j], bclength)
            },
            r is Ok ==> {
                &&& r->Ok_0.wf()
                &&& r->Ok_0.rows() == records@
                &&& r->Ok_0.header_fields() == header@
                &&& r->Ok_0.panel() == barcode_column(records@)
                &&& r->Ok_0.barcode_len() == bclength
            },
    {
        if !check_header(&header) {
            return Err(PanelError::Header);
        }
        let mut barcodes = positions_new();
        let mut bktree = tree_new();
        let mut i: usize = 0;
        while i < records.len()
            invariant
                i <= records@.len(),
                bclength <= MAX_SEQ_LEN,
                header_ok(header@),
                forall|j: int| 0 <= j < i ==> #[trigger] row_ok(records@[j], bclength),
                position_table(barcodes) == exact_index(barcode_column(records@.subrange(0, i as int))),
                tree_words(bktree) == exact_index(barcode_column(records@.subrange(0, i as int))).dom(),
                tree_by_edit_distance(bktree),
                forall|x: Seq<u8>| #[trigger] tree_words(bktree).contains(x) ==> x.len() == bclength,
            decreases records@.len() - i,
        {
            let row = &records[i];
            if row.len() <= BARCODE_COLUMN {
                proof {
                    lemma_first_bad_row(records@, bclength, i);
                    assert(!row_ok(records@[i as int], bclength));
                }
                return Err(PanelError::MissingBarcode(i));
            }
            if row[BARCODE_COLUMN].len() != bclength {
                proof {
                    lemma_first_bad_row(records@, bclength, i);
                    assert(!row_ok(records@[i as int], bclength));
                }
                return Err(PanelError::BarcodeLength(i));
            }
            let bc = row[BARCODE_COLUMN].clone();
            assert(bc@ =~= records@[i as int]@[BARCODE_COLUMN as int]@);
            let ghost before = barcode_column(records@.subrange(0, i as int));
            proof {
                lemma_exact_index_facts(before);
                assert(barcode_column(records@.subrange(0, i + 1)) =~= before.push(bc@));
                assert(before.push(bc@).drop_last() =~= before);
            }
            positions_insert(&mut barcodes, bc.clone(), i);
            tree_insert(&mut bktree, bc);
            i += 1;
            assert(tree_words(bktree) =~= exact_index(barcode_column(records@.subrange(0, i as int))).dom());
        }
        assert(records@.subrange(0, records@.len() as int) =~= records@);
        assert forall|k: usize| k < records@.len() implies row_ok(records@[k as int], bclength) by {
            assert(row_ok(records@[k as int], bclength));
        }
        Ok(Barcodes { records, header, barcodes, bktree, bclength })
    }

    /// Resolves an observed barcode: an exact match first; otherwise, when
    /// `approximate` is set, the reference barcodes within edit distance 2,
    /// which must be exactly one to count.
    pub fn find(&self, s: &Vec<u8>, approximate: bool) -> (r: MatchResult)
        requires
            self.wf(),
            s@.len() == self.barcode_len(),
        ensures
            r == resolution(self.index(), s@, approximate),
    {
        match positions_get(&self.barcodes, s) {
            Some(i) => MatchResult::Unique(i),
            None => {
                if !approximate {
                    return MatchResult::NoHit;
                }
                let n = self.records.len();
                proof {
                    assert(self.panel().len() == n);
                    lemma_exact_index_facts(self.panel());
                    assert forall|x: Seq<u8>| #[trigger] tree_words(self.bktree).contains(x) implies x.len() <= MAX_SEQ_LEN by {
                        let j = choose|j: int| 0 <= j < self.panel().len() && self.panel()[j] == x;
                        assert(row_ok(self.records@[j], self.bclength));
                    }
                }
                let hits = tree_find(&self.bktree, s, MAX_EDITS);
                let ghost nr = near(self.index(), s@);
                let ghost ks = hits@.map_values(|h: (Vec<u8>, isize)| h.0@);
                proof {
                    assert forall|k: Seq<u8>| nr.contains(k) <==> ks.to_set().contains(k) by {
                        if nr.contains(k) {
                            let j = choose|j: int| 0 <= j < hits@.len() && hits@[j].0@ == k;
                            assert(ks[j] == k);
                        }
                        if ks.to_set().contains(k) {
                            let j = choose|j: int| 0 <= j < ks.len() && ks[j] == k;
                            assert(tree_words(self.bktree).contains(hits@[j].0@));
                        }
                    }
                    assert(nr =~= ks.to_set());
                    assert(ks.no_duplicates()) by {
                        assert forall|a: int, b: int| 0 <= a < ks.len() && 0 <= b < ks.len() && a != b implies ks[a] != ks[b] by {
                            if a < b {
                                assert(hits@[a].0@ != hits@[b].0@);
                            } else {
                                assert(hits@[b].0@ != hits@[a].0@);
                            }
                        }
                    }
                    ks.unique_seq_to_set();
                }
                if hits.len() == 0 {
                    MatchResult::NoHit
                } else if hits.len() == 1 {
                    let ghost k = nr.choose();
                    proof {
                        assert(ks.to_set().contains(ks[0]));
                        assert(nr.contains(k));
                        assert(k == ks[0]);
                    }
                    let i = positions_get(&self.barcodes, &hits[0].0).unwrap();
                    MatchResult::Dist(i, hits[0].1)
                } else {
                    MatchResult::Multiple
                }
            }
        }
    }

    /// The rows whose barcode a later row repeats: the exact-match table
    /// sends their barcode to the later row, so they are never counted.
    pub fn shadowed_rows(&self) -> (r: Vec<usize>)
        requires
            self.wf(),
        ensures
            forall|a: int, b: int| 0 <= a < b < r@.len() ==> r@[a] < r@[b],
            forall|i: usize|
                r@.contains(i) <==> i < self.panel().len() && exists|j: int|
                    i < j < self.panel().len() && #[trigger] self.panel()[j] == self.panel()[i as int],
    {
        let n = self.records.len();
        let ghost p = self.panel();
        proof {
            assert(p.len() == n);
            lemma_exact_index_facts(p);
        }
        let mut r: Vec<usize> = Vec::new();
        let mut i: usize = 0;
        while i < n
            invariant
                i <= n,
                n == self.records@.len(),
                p == self.panel(),
                p.len() == n,
                self.wf(),
                forall|a: int, b: int| 0 <= a < b < r@.len() ==> r@[a] < r@[b],
                forall|a: int| 0 <= a < r@.len() ==> r@[a] < i,
                forall|k: usize|
                    r@.contains(k) <==> k < i && exists|j: int| k < j < p.len() && #[trigger] p[j] == p[k as int],
            decreases n - i,
        {
            proof {
                lemma_exact_index_facts(p);
                assert(row_ok(self.records@[i as int], self.bclength));
            }
            let bc = &self.records[i][BARCODE_COLUMN];
            proof {
                assert(bc@ == p[i as int]);
                assert(p.contains(p[i as int]));
            }
            let at = positions_get(&self.barcodes, bc);
            let ghost before = r@;
            let ghost later = exists|j: int| i < j < p.len() && #[trigger] p[j] == p[i as int];
            proof {
                let v = exact_index(p)[p[i as int]];
                if later {
                    let j = choose|j: int| i < j < p.len() && #[trigger] p[j] == p[i as int];
                    assert(v != i);
                } else if v != i {
                    assert(v > i);
                    assert(p[v as int] == p[i as int]);
                }
            }
            if at != Some(i) {
                r.push(i);
            }
            assert forall|k: usize|
                r@.contains(k) <==> k < i + 1 && exists|j: int| k < j < p.len() && #[trigger] p[j] == p[k as int] by {
                if r@.contains(k) {
                    let a = choose|a: int| 0 <= a < r@.len() && r@[a] == k;
                    if a < before.len() {
                        assert(before[a] == k);
                        assert(before.contains(k));
                    }
                }
                if k < i && before.contains(k) {
                    let a = choose|a: int| 0 <= a < before.len() && before[a] == k;
                    assert(r@[a] == k);
                }
                if k == i && later {
                    assert(r@[before.len() as int] == k);
                }
                if k == i && before.contains(k) {
                    let a = choose|a: int| 0 <= a < before.len() && before[a] == k;
                }
            }
            i += 1;
        }
        r
    }

    /// Number of panel rows.
    pub fn len(&self) -> (r: usize)
        ensures
            r == self.panel().len(),
    {
        self.records.len()
    }

    /// The configured barcode length.
    pub fn bclength(&self) -> (r: usize)
        ensures
            r == self.barcode_len(),
    {
        self.bclength
    }

    /// The fields of every row, in panel order.
    pub fn records(&self) -> (r: &Vec<Vec<Vec<u8>>>)
        ensures
            r@ == self.rows(),
    {
        &self.records
    }

    /// The header fields.
    pub fn header(&self) -> (r: &Vec<Vec<u8>>)
        ensures
            r@ == self.header_fields(),
    {
        &self.header
    }
}

/// The six expected header fields, as bytes.
fn schema_bytes(i: usize) -> (r: Vec<u8>)
    requires
        i < 6,
    ensures
        r@ == schema_field(i as int),
{
    let v = if i == 0 {
        vec![105u8, 100]
    } else if i == 1 {
        vec![110u8, 97, 109, 101]
    } else if i == 2 {
        vec![114u8, 101, 97, 100]
    } else if i == 3 {
        vec![112u8, 97, 116, 116, 101, 114, 110]
    } else if i == 4 {
        vec![115u8, 101, 113, 117, 101, 110, 99, 101]
    } else {
        vec![102u8, 101, 97, 116, 117, 114, 101, 95, 116, 121, 112, 101]
    };
    assert(v@ =~= schema_field(i as int));
    v
}

/// Byte-wise equality of two slices.
pub fn bytes_equal(a: &[u8], b: &[u8]) -> (r: bool)
    ensures
        r == (a@ == b@),
{
    if a.len() != b.len() {
        return false;
    }
    let mut i: usize = 0;
    while i < a.len()
        invariant
            a@.len() == b@.len(),
            i <= a@.len(),
            forall|j: int| 0 <= j < i ==> a@[j] == b@[j],
        decreases a@.len() - i,
    {
        if a[i] != b[i] {
            return false;
        }
        i += 1;
    }
    assert(a@ =~= b@);
    true
}

/// Whether the header fields are `id,name,read,pattern,sequence,feature_type`.
fn check_header(header: &Vec<Vec<u8>>) -> (r: bool)
    ensures
        r == header_ok(header@),
{
    if header.len() != 6 {
        return false;
    }
    let mut i: usize = 0;
    while i < 6
        invariant
            header@.len() == 6,
            i <= 6,
            forall|j: int| 0 <= j < i ==> #[trigger] header@[j]@ == schema_field(j),
        decreases 6 - i,
    {
        let expected = schema_bytes(i);
        if !bytes_equal(header[i].as_slice(), expected.as_slice()) {
            return false;
        }
        i += 1;
    }
    true
}

/// Facts of the exact-match table: it holds exactly the panel's barcodes, each
/// at a position that holds it, with no later position holding it.
pub proof fn lemma_exact_index_facts(panel: Seq<Seq<u8>>)
    requires
        panel.len() <= usize::MAX,
    ensures
        exact_index(panel).dom().finite(),
        forall|k: Seq<u8>| #[trigger] exact_index(panel).contains_key(k) <==> panel.contains(k),
        forall|k: Seq<u8>|
            #[trigger] exact_index(panel).contains_key(k) ==> {
                &&& exact_index(panel)[k] < panel.len()
                &&& panel[exact_index(panel)[k] as int] == k
                &&& forall|j: int| exact_index(panel)[k] < j < panel.len() ==> panel[j] != k
            },
    decreases panel.len(),
{
    if panel.len() > 0 {
        let p = panel.drop_last();
        lemma_exact_index_facts(p);
        assert forall|k: Seq<u8>| #[trigger] exact_index(panel).contains_key(k) <==> panel.contains(k) by {
            if panel.contains(k) && k != panel.last() {
                let j = choose|j: int| 0 <= j < panel.len() && panel[j] == k;
                assert(p[j] == k);
            }
            if p.contains(k) {
                let j = choose|j: int| 0 <= j < p.len() && p[j] == k;
                assert(panel[j] == k);
            }
        }
        assert forall|k: Seq<u8>| #[trigger] exact_index(panel).contains_key(k) implies {
            &&& exact_index(panel)[k] < panel.len()
            &&& panel[exact_index(panel)[k] as int] == k
            &&& forall|j: int| exact_index(panel)[k] < j < panel.len() ==> panel[j] != k
        } by {
            assert(exact_index(panel) == exact_index(p).insert(panel.last(), (panel.len() - 1) as usize));
            if k != panel.last() {
                assert(exact_index(p).contains_key(k));
                let v = exact_index(p)[k];
                assert(panel[v as int] == p[v as int]);
                assert forall|j: int| v < j < panel.len() implies panel[j] != k by {
                    if j < p.len() {
                        assert(panel[j] == p[j]);
                    }
                }
            }
        }
    }
}

/// A row that fails the check, after rows that all pass it, is the only such row.
proof fn lemma_first_bad_row(rows: Seq<Vec<Vec<u8>>>, bclength: usize, i: usize)
    requires
        i < rows.len(),
        !row_ok(rows[i as int], bclength),
        forall|j: int| 0 <= j < i ==> #[trigger] row_ok(rows[j], bclength),
    ensures
        forall|k: usize|
            k != i ==> !(k < rows.len() && !row_ok(rows[k as int], bclength) && forall|j: int|
                0 <= j < k ==> #[trigger] row_ok(rows[j], bclength)),
{
    assert forall|k: usize| k != i implies !(k < rows.len() && !row_ok(rows[k as int], bclength) && forall|j: int|
        0 <= j < k ==> #[trigger] row_ok(rows[j], bclength)) by {
        if k < i {
            assert(row_ok(rows[k as int], bclength));
        }
    }
}

/// A barcode of the panel resolves to the row it was loaded at, with or
/// without approximate matching, provided no later row repeats it.
pub proof fn lemma_exact_match(panel: Seq<Seq<u8>>, i: int, approximate: bool)
    requires
        panel.len() <= usize::MAX,
        0 <= i < panel.len(),
        forall|j: int| i < j < panel.len() ==> panel[j] != panel[i],
    ensures
        resolution(exact_index(panel), panel[i], approximate) == MatchResult::Unique(i as usize),
{
    lemma_exact_index_facts(panel);
    assert(panel.contains(panel[i]));
    let v = exact_index(panel)[panel[i]];
    if v < i {
        assert(panel[i] != panel[i]);
    }
}

/// A query within edit distance 1 or 2 of one panel barcode, and more than 2
/// from every other, resolves approximately to that barcode's row with the
/// true distance.
pub proof fn lemma_approximate_unique(panel: Seq<Seq<u8>>, i: int, q: Seq<u8>)
    requires
        panel.len() <= usize::MAX,
        0 <= i < panel.len(),
        forall|j: int| i < j < panel.len() ==> panel[j] != panel[i],
        1 <= edit_distance(panel[i], q) <= 2,
        forall|j: int| 0 <= j < panel.len() && panel[j] != panel[i] ==> edit_distance(panel[j], q) > 2,
    ensures
        resolution(exact_index(panel), q, true) == MatchResult::Dist(i as usize, edit_distance(panel[i], q) as isize),
{
    lemma_exact_index_facts(panel);
    lemma_exact_match(panel, i, true);
    lemma_edit_distance_self(q);
    if panel.contains(q) {
        let j = choose|j: int| 0 <= j < panel.len() && panel[j] == q;
        assert(edit_distance(panel[j], q) == 0);
    }
    let idx = exact_index(panel);
    assert(panel.contains(panel[i]));
    assert forall|k: Seq<u8>| near(idx, q).contains(k) <==> k == panel[i] by {
        if near(idx, q).contains(k) && k != panel[i] {
            let j = choose|j: int| 0 <= j < panel.len() && panel[j] == k;
            assert(edit_distance(panel[j], q) > 2);
        }
    }
    assert(near(idx, q) =~= set![panel[i]]);
    assert(set![panel[i]].len() == 1);
    assert(near(idx, q).contains(panel[i]));
    assert(near(idx, q).contains(near(idx, q).choose()));
    assert(idx[panel[i]] == i as usize);
}

/// A query within edit distance 2 of two different panel barcodes, and not
/// itself in the panel, is ambiguous.
pub proof fn lemma_approximate_ambiguous(panel: Seq<Seq<u8>>, a: Seq<u8>, b: Seq<u8>, q: Seq<u8>)
    requires
        panel.len() <= usize::MAX,
        panel.contains(a),
        panel.contains(b),
        edit_distance(a, b) > 0,
        edit_distance(a, q) <= 2,
        edit_distance(b, q) <= 2,
        !panel.contains(q),
    ensures
        resolution(exact_index(panel), q, true) == MatchResult::Multiple,
{
    lemma_exact_index_facts(panel);
    lemma_edit_distance_self(a);
    let idx = exact_index(panel);
    let nr = near(idx, q);
    assert(nr.contains(a));
    assert(nr.contains(b));
    assert(set![a, b].subset_of(nr));
    assert(set![a].insert(b).len() == 2);
    vstd::set_lib::lemma_len_subset(set![a, b], nr);
}

/// A query more than edit distance 2 from every panel barcode finds nothing,
/// with or without approximate matching.
pub proof fn lemma_no_hit(panel: Seq<Seq<u8>>, q: Seq<u8>, approximate: bool)
    requires
        panel.len() <= usize::MAX,
        forall|j: int| 0 <= j < panel.len() ==> edit_distance(panel[j], q) > 2,
    ensures
        resolution(exact_index(panel), q, approximate) == MatchResult::NoHit,
{
    lemma_exact_index_facts(panel);
    lemma_edit_distance_self(q);
    if panel.contains(q) {
        let j = choose|j: int| 0 <= j < panel.len() && panel[j] == q;
        assert(edit_distance(panel[j], q) == 0);
    }
    let idx = exact_index(panel);
    assert forall|k: Seq<u8>| !near(idx, q).contains(k) by {
        if near(idx, q).contains(k) {
            let j = choose|j: int| 0 <= j < panel.len() && panel[j] == k;
            assert(edit_distance(panel[j], q) > 2);
        }
    }
    assert(near(idx, q) =~= Set::<Seq<u8>>::empty());
}

/// The edit distance of a sequence to itself is 0.
pub proof fn lemma_edit_distance_self(a: Seq<u8>)
    ensures
        edit_distance(a, a) == 0,
    decreases a.len(),
{
    if a.len() > 0 {
        lemma_edit_distance_self(a.drop_last());
    }
}

} // verus!
