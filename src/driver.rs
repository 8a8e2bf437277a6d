//! Per-read policy: code extraction from a read pair, whitelist and ignore
//! list checks, resolution, and routing of the outcome into the counters.

use ahash::AHashSet;
use vstd::prelude::*;

use crate::barcodes::{resolution, Barcodes, MatchResult};
use crate::counts::{bumped, bumped_count, Counts, CountsView};
use crate::tables::{code_set, codes_contains, codes_insert, codes_new};

verus! {

/// The byte that separates entries of an ignore list.
pub const LIST_SEPARATOR: u8 = 44;

/// The pieces of `s` between separators, empty pieces included (one piece
/// when `s` holds no separator).
pub open spec fn split_on(s: Seq<u8>, sep: u8) -> Seq<Seq<u8>>
    decreases s.len(),
{
    if s.len() == 0 {
        seq![Seq::<u8>::empty()]
    } else {
        let rest = split_on(s.drop_last(), sep);
        if s.last() == sep {
            rest.push(Seq::<u8>::empty())
        } else {
            rest.update(rest.len() - 1, rest.last().push(s.last()))
        }
    }
}

/// Cell codes accepted for counting.
pub struct Whitelist {
    codes: AHashSet<Vec<u8>>,
}

/// Barcodes whose reads are set aside without resolution.
pub struct IgnoreList {
    codes: AHashSet<Vec<u8>>,
}

impl Whitelist {
    pub closed spec fn view(&self) -> Set<Seq<u8>> {
        code_set(self.codes)
    }

    /// A whitelist holding each of `lines`.
    pub fn from_lines(lines: Vec<Vec<u8>>) -> (r: Whitelist)
        ensures
            r.view() == lines@.map_values(|l: Vec<u8>| l@).to_set(),
    {
        Whitelist { codes: set_of(lines) }
    }

    pub fn contains(&self, v: &[u8]) -> (r: bool)
        ensures
            r == self.view().contains(v@),
    {
        codes_contains(&self.codes, v)
    }
}

impl IgnoreList {
    pub closed spec fn view(&self) -> Set<Seq<u8>> {
        code_set(self.codes)
    }

    /// An ignore list holding each of `entries`.
    pub fn from_entries(entries: Vec<Vec<u8>>) -> (r: IgnoreList)
        ensures
            r.view() == entries@.map_values(|l: Vec<u8>| l@).to_set(),
    {
        IgnoreList { codes: set_of(entries) }
    }

    pub fn contains(&self, v: &[u8]) -> (r: bool)
        ensures
            r == self.view().contains(v@),
    {
        codes_contains(&self.codes, v)
    }
}

fn set_of(items: Vec<Vec<u8>>) -> (r: AHashSet<Vec<u8>>)
    ensures
        code_set(r) == items@.map_values(|l: Vec<u8>| l@).to_set(),
{
    let mut set = codes_new();
    let ghost views = items@.map_values(|l: Vec<u8>| l@);
    let mut i: usize = 0;
    while i < items.len()
        invariant
            i <= items@.len(),
            views == items@.map_values(|l: Vec<u8>| l@),
            code_set(set) == views.subrange(0, i as int).to_set(),
        decreases items@.len() - i,
    {
        let item = items[i].clone();
        proof {
            assert(item@ =~= views[i as int]);
            assert(views.subrange(0, i + 1) =~= views.subrange(0, i as int).push(views[i as int]));
            lemma_to_set_push(views.subrange(0, i as int), views[i as int]);
        }
        codes_insert(&mut set, item);
        i += 1;
    }
    assert(views.subrange(0, items@.len() as int) =~= views);
    set
}

/// Parses a comma-separated ignore list: each piece between commas is one
/// entry.
pub fn parse_ignores(s: &[u8]) -> (r: IgnoreList)
    ensures
        r.view() == split_on(s@, LIST_SEPARATOR).to_set(),
{
    let mut set = codes_new();
    let mut cur: Vec<u8> = Vec::new();
    let ghost mut done: Seq<Seq<u8>> = seq![];
    let mut i: usize = 0;
    while i < s.len()
        invariant
            i <= s@.len(),
            split_on(s@.subrange(0, i as int), LIST_SEPARATOR) == done.push(cur@),
            code_set(set) == done.to_set(),
        decreases s@.len() - i,
    {
        let b = s[i];
        let ghost prefix = s@.subrange(0, i + 1);
        proof {
            assert(prefix.drop_last() =~= s@.subrange(0, i as int));
            assert(prefix.last() == b);
        }
        if b == LIST_SEPARATOR {
            let piece = cur;
            cur = Vec::new();
            proof {
                lemma_to_set_push(done, piece@);
                done = done.push(piece@);
                assert(cur@ =~= Seq::<u8>::empty());
            }
            codes_insert(&mut set, piece);
        } else {
            let ghost before = cur@;
            cur.push(b);
            proof {
                assert(done.push(before).update(done.len() as int, before.push(b)) =~= done.push(cur@));
            }
        }
        i += 1;
    }
    proof {
        assert(s@.subrange(0, s@.len() as int) =~= s@);
        lemma_to_set_push(done, cur@);
    }
    codes_insert(&mut set, cur);
    IgnoreList { codes: set }
}

proof fn lemma_to_set_push<A>(s: Seq<A>, x: A)
    ensures
        s.push(x).to_set() == s.to_set().insert(x),
{
    assert forall|k: A| s.push(x).to_set().contains(k) <==> s.to_set().insert(x).contains(k) by {
        if s.push(x).to_set().contains(k) && k != x {
            let j = choose|j: int| 0 <= j < s.len() + 1 && #[trigger] s.push(x)[j] == k;
            assert(s[j] == k);
        }
        if s.to_set().contains(k) {
            let j = choose|j: int| 0 <= j < s.len() && #[trigger] s[j] == k;
            assert(s.push(x)[j] == k);
        }
        if k == x {
            assert(s.push(x)[s.len() as int] == k);
        }
    }
    assert(s.push(x).to_set() =~= s.to_set().insert(x));
}

/// Why a read pair could not give its codes.
#[derive(Debug, Clone, Copy, PartialEq, Eq)]
pub enum ReadError {
    /// The first read is shorter than a cell code.
    ShortCellRead,
    /// The second read ends before the barcode window does.
    ShortBarcodeRead,
}

/// The bytes `start .. start + len` of `s`.
fn copy_range(s: &[u8], start: usize, len: usize) -> (r: Vec<u8>)
    requires
        start + len <= s@.len(),
    ensures
        r@ == s@.subrange(start as int, start + len),
{
    let mut r: Vec<u8> = Vec::new();
    let n = s.len();
    let mut i: usize = 0;
    while i < len
        invariant
            n == s@.len(),
            i <= len,
            start + len <= s@.len(),
            r@ == s@.subrange(start as int, start + i),
        decreases len - i,
    {
        r.push(s[start + i]);
        i += 1;
        assert(r@ =~= s@.subrange(start as int, start + i));
    }
    r
}

/// Takes the cell code (the first `cclength` bytes of the first read) and the
/// barcode (`bclength` bytes of the second read from `offset`) out of a read
/// pair.
pub fn read_code(r1: &[u8], r2: &[u8], cclength: usize, bclength: usize, offset: usize) -> (r: Result<(Vec<u8>, Vec<u8>), ReadError>)
    ensures
        (r is Err && r->Err_0 is ShortCellRead) <==> r1@.len() < cclength,
        (r is Err && r->Err_0 is ShortBarcodeRead) <==> r1@.len() >= cclength && r2@.len() < offset + bclength,
        r is Ok ==> r->Ok_0.0@ == r1@.subrange(0, cclength as int) && r->Ok_0.1@ == r2@.subrange(
            offset as int,
            offset + bclength,
        ),
{
    if r1.len() < cclength {
        return Err(ReadError::ShortCellRead);
    }
    if r2.len() < offset || r2.len() - offset < bclength {
        return Err(ReadError::ShortBarcodeRead);
    }
    let cc = copy_range(r1, 0, cclength);
    let bc = copy_range(r2, offset, bclength);
    Ok((cc, bc))
}

/// The counters after one read pair: a cell code off the whitelist is counted
/// as such; otherwise a barcode on the ignore list is counted as ignored;
/// otherwise the resolution outcome decides: a match counts a hit for its
/// record, no match counts a miss (and, when asked, the unmatched barcode), and
/// an ambiguous match counts as such.
pub open spec fn read_step(
    v: CountsView,
    listed: bool,
    ignored: bool,
    outcome: MatchResult,
    cc: Seq<u8>,
    bc: Seq<u8>,
    count_unknown: bool,
) -> CountsView {
    if !listed {
        CountsView { not_whitelisted: bumped_count(v.not_whitelisted), ..v }
    } else if ignored {
        CountsView { ignored: bumped_count(v.ignored), ..v }
    } else {
        match outcome {
            MatchResult::Unique(i) => CountsView { hits: bumped(v.hits, (cc, i)), ..v },
            MatchResult::Dist(i, _) => CountsView { hits: bumped(v.hits, (cc, i)), ..v },
            MatchResult::NoHit => CountsView {
                unknown: if count_unknown { bumped(v.unknown, (cc, bc)) } else { v.unknown },
                nohit: bumped_count(v.nohit),
                ..v
            },
            MatchResult::Multiple => CountsView { multiple: bumped_count(v.multiple), ..v },
        }
    }
}

/// Whether a cell code passes an optional whitelist.
pub open spec fn listed(whitelist: Option<Whitelist>, cc: Seq<u8>) -> bool {
    match whitelist {
        None => true,
        Some(w) => w.view().contains(cc),
    }
}

/// Classifies one read pair's codes and records the outcome.
pub fn process_read(
    counts: &mut Counts,
    barcodes: &Barcodes,
    whitelist: &Option<Whitelist>,
    ignore: &IgnoreList,
    approximate: bool,
    count_unknown: bool,
    cc: Vec<u8>,
    bc: Vec<u8>,
)
    requires
        barcodes.wf(),
        bc@.len() == barcodes.barcode_len(),
    ensures
        final(counts).view() == read_step(
            old(counts).view(),
            listed(*whitelist, cc@),
            ignore.view().contains(bc@),
            resolution(barcodes.index(), bc@, approximate),
            cc@,
            bc@,
            count_unknown,
        ),
{
    if let Some(w) = whitelist {
        if !w.contains(cc.as_slice()) {
            counts.not_whitelisted();
            return;
        }
    }
    if ignore.contains(bc.as_slice()) {
        counts.ignored();
        return;
    }
    match barcodes.find(&bc, approximate) {
        MatchResult::Unique(pos) => counts.count_barcode(cc, pos),
        MatchResult::Dist(pos, _dist) => counts.count_barcode(cc, pos),
        MatchResult::NoHit => {
            if count_unknown {
                counts.count_unknown(cc, bc);
            }
            counts.nohit();
        },
        MatchResult::Multiple => counts.multiple(),
    }
}

} // verus!
