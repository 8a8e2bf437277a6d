use featurecount::barcodes::{Barcodes, MatchResult};
use featurecount::counts::{passes, CellCounts, Counts, Summary, UnknownCounts};
use featurecount::driver::{process_read, IgnoreList};

const A: &[u8] = b"ACGTACGTACGTACG";
const B: &[u8] = b"TTTTTGGGGGCCCCC";

fn panel(seqs: &[&[u8]]) -> Barcodes {
    let header = ["id", "name", "read", "pattern", "sequence", "feature_type"]
        .iter()
        .map(|f| f.as_bytes().to_vec())
        .collect();
    let rows = seqs
        .iter()
        .enumerate()
        .map(|(i, s)| {
            vec![
                format!("ab{}", i).into_bytes(),
                b"n".to_vec(),
                b"R2".to_vec(),
                b"p".to_vec(),
                s.to_vec(),
                b"Antibody Capture".to_vec(),
            ]
        })
        .collect();
    match Barcodes::from_records(header, rows, 15) {
        Ok(b) => b,
        Err(e) => panic!("{:?}", e),
    }
}

fn cell(i: usize) -> Vec<u8> {
    format!("CELL{:012}", i).into_bytes()
}

#[test]
fn end_to_end_two_references() {
    let b = panel(&[A, B]);
    let mut counts = Counts::new();
    let ignore = IgnoreList::from_entries(vec![]);
    for c in 0..6 {
        for _ in 0..10 {
            process_read(&mut counts, &b, &None, &ignore, false, false, cell(c), A.to_vec());
        }
    }
    for _ in 0..40 {
        process_read(&mut counts, &b, &None, &ignore, false, false, cell(99), B.to_vec());
    }
    let s = Summary::new(&b, &counts, 5);
    assert_eq!(s.len(), 2);
    assert_eq!(s.row(0), (60, 6));
    assert_eq!(s.row(1), (40, 1));
    assert_eq!(s.passing(5, 2, None), vec![0]);
    assert!(passes(60, 6, 5, 2, None));
    assert!(!passes(40, 1, 5, 2, None));
}

#[test]
fn threshold_excludes_boundary() {
    let mut cc = CellCounts::new();
    for _ in 0..5 {
        cc.count(cell(1), 0);
    }
    for _ in 0..6 {
        cc.count(cell(2), 0);
    }
    for _ in 0..7 {
        cc.count(cell(3), 1);
    }
    let rows = cc.summary(5, 3);
    assert_eq!(rows, vec![(6, 1), (7, 1), (0, 0)]);
    let rows = cc.summary(4, 2);
    assert_eq!(rows, vec![(11, 2), (7, 1)]);
    let rows = cc.summary(0, 2);
    assert_eq!(rows, vec![(11, 2), (7, 1)]);
    let rows = cc.summary(7, 2);
    assert_eq!(rows, vec![(0, 0), (0, 0)]);
}

#[test]
fn filter_needs_enough_cells() {
    // one cell short of min_cells never passes, whatever the reads
    assert!(!passes(1_000_000, 1, 5, 2, None));
    assert!(!passes(1_000_000, 4, 0, 5, Some(0)));
    // minimum meaningful thresholds
    assert!(passes(6, 1, 5, 1, None));
    assert!(passes(1, 1, 0, 1, None));
}

#[test]
fn filter_reads_threshold_is_strict() {
    assert!(!passes(5, 3, 5, 1, None));
    assert!(passes(6, 3, 5, 1, None));
}

#[test]
fn filter_reads_per_cell_floor() {
    // 60 / 6 = 10, not above 10
    assert!(!passes(60, 6, 5, 2, Some(10)));
    assert!(passes(60, 6, 5, 2, Some(9)));
    // truncating division: 65 / 6 = 10
    assert!(!passes(65, 6, 5, 2, Some(10)));
    assert!(passes(66, 6, 5, 2, Some(10)));
}

#[test]
fn passing_list_is_sorted_and_filtered() {
    let b = panel(&[A, B, b"CCCCCCCCCCAAAAA"]);
    let mut counts = Counts::new();
    let ignore = IgnoreList::from_entries(vec![]);
    for c in 0..3 {
        for _ in 0..8 {
            process_read(&mut counts, &b, &None, &ignore, false, false, cell(c), b"CCCCCCCCCCAAAAA".to_vec());
            process_read(&mut counts, &b, &None, &ignore, false, false, cell(c), A.to_vec());
        }
    }
    let s = Summary::new(&b, &counts, 5);
    assert_eq!(s.row(0), (24, 3));
    assert_eq!(s.row(1), (0, 0));
    assert_eq!(s.row(2), (24, 3));
    assert_eq!(s.passing(5, 2, None), vec![0, 2]);
    assert_eq!(s.passing(5, 4, None), Vec::<usize>::new());
    assert_eq!(s.passing(30, 1, None), Vec::<usize>::new());
}

#[test]
fn order_of_reads_does_not_change_summary() {
    let b = panel(&[A, B]);
    let ignore = IgnoreList::from_entries(vec![]);
    let mut reads: Vec<(Vec<u8>, Vec<u8>)> = Vec::new();
    for c in 0..4 {
        for k in 0..(c + 5) {
            let bc = if k % 3 == 0 { B } else { A };
            reads.push((cell(c), bc.to_vec()));
        }
    }
    let mut forward = Counts::new();
    for (c, bc) in reads.iter() {
        process_read(&mut forward, &b, &None, &ignore, true, true, c.clone(), bc.clone());
    }
    let mut backward = Counts::new();
    for (c, bc) in reads.iter().rev() {
        process_read(&mut backward, &b, &None, &ignore, true, true, c.clone(), bc.clone());
    }
    for min in 0..6 {
        let s1 = Summary::new(&b, &forward, min);
        let s2 = Summary::new(&b, &backward, min);
        assert_eq!(s1.row(0), s2.row(0));
        assert_eq!(s1.row(1), s2.row(1));
    }
}

#[test]
fn scalar_counters() {
    let mut counts = Counts::new();
    counts.ignored();
    counts.ignored();
    counts.nohit();
    counts.multiple();
    counts.multiple();
    counts.multiple();
    counts.not_whitelisted();
    assert_eq!(counts.n_ignored(), 2);
    assert_eq!(counts.n_nohit(), 1);
    assert_eq!(counts.n_multiple(), 3);
    assert_eq!(counts.n_not_whitelisted(), 1);
}

#[test]
fn match_result_variants_compare() {
    assert_ne!(MatchResult::Unique(0), MatchResult::Dist(0, 0));
    assert_eq!(MatchResult::NoHit, MatchResult::NoHit);
}

#[test]
fn unknown_barcodes_are_summarised() {
    let b = panel(&[A, B]);
    let ignore = IgnoreList::from_entries(vec![]);
    let mut counts = Counts::new();
    let odd = b"GGGGGGGGGGGGGGG".to_vec();
    let rare = b"GGGGGAAAAAGGGGG".to_vec();
    for c in 0..3 {
        for _ in 0..(4 + c) {
            process_read(&mut counts, &b, &None, &ignore, true, true, cell(c), odd.clone());
        }
    }
    process_read(&mut counts, &b, &None, &ignore, true, true, cell(0), rare.clone());
    // without counting unknowns nothing is kept, but the miss is counted
    process_read(&mut counts, &b, &None, &ignore, true, false, cell(0), rare.clone());
    assert_eq!(counts.n_nohit(), 4 + 5 + 6 + 2);
    let s = counts.unknown_summary(4);
    assert_eq!(s, vec![(odd.clone(), 11, 2)]);
    let mut s = counts.unknown_summary(0);
    s.sort();
    let mut expected = vec![(odd.clone(), 15, 3), (rare.clone(), 1, 1)];
    expected.sort();
    assert_eq!(s, expected);
    assert_eq!(counts.unknown_summary(6), Vec::new());
}

#[test]
fn unknown_counts_per_cell() {
    let mut u = UnknownCounts::new();
    u.count(cell(1), b"AC".to_vec());
    u.count(cell(1), b"AC".to_vec());
    u.count(cell(2), b"AC".to_vec());
    assert_eq!(u.summary(1), vec![(b"AC".to_vec(), 2, 1)]);
    assert_eq!(u.summary(0), vec![(b"AC".to_vec(), 3, 2)]);
}
