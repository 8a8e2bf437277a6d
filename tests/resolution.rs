use featurecount::barcodes::{Barcodes, MatchResult, PanelError};
use featurecount::distance::dist;

const A: &[u8] = b"ACGTACGTACGTACG";
const B: &[u8] = b"TTTTTGGGGGCCCCC";

fn header() -> Vec<Vec<u8>> {
    ["id", "name", "read", "pattern", "sequence", "feature_type"]
        .iter()
        .map(|f| f.as_bytes().to_vec())
        .collect()
}

fn row(id: &str, seq: &[u8]) -> Vec<Vec<u8>> {
    vec![
        id.as_bytes().to_vec(),
        format!("{}_name", id).into_bytes(),
        b"R2".to_vec(),
        b"5PNNNNNNNNNN(BC)".to_vec(),
        seq.to_vec(),
        b"Antibody Capture".to_vec(),
    ]
}

fn panel(seqs: &[&[u8]]) -> Barcodes {
    let rows = seqs
        .iter()
        .enumerate()
        .map(|(i, s)| row(&format!("ab{}", i), s))
        .collect();
    match Barcodes::from_records(header(), rows, 15) {
        Ok(b) => b,
        Err(e) => panic!("panel refused: {:?}", e),
    }
}

#[test]
fn exact_match_with_and_without_approximation() {
    let b = panel(&[A, B]);
    assert_eq!(b.find(&A.to_vec(), false), MatchResult::Unique(0));
    assert_eq!(b.find(&A.to_vec(), true), MatchResult::Unique(0));
    assert_eq!(b.find(&B.to_vec(), false), MatchResult::Unique(1));
    assert_eq!(b.find(&B.to_vec(), true), MatchResult::Unique(1));
}

#[test]
fn later_duplicate_replaces_earlier() {
    let b = panel(&[A, B, A]);
    assert_eq!(b.find(&A.to_vec(), false), MatchResult::Unique(2));
    assert_eq!(b.len(), 3);
}

#[test]
fn approximate_unique_one_edit() {
    let b = panel(&[A, B]);
    let q = b"TCGTACGTACGTACG".to_vec();
    assert_eq!(b.find(&q, true), MatchResult::Dist(0, 1));
    assert_eq!(b.find(&q, false), MatchResult::NoHit);
}

#[test]
fn approximate_unique_two_edits() {
    let b = panel(&[A]);
    let q = b"TTGTACGTACGTACG".to_vec();
    assert_eq!(b.find(&q, true), MatchResult::Dist(0, 2));
}

#[test]
fn approximate_counts_indels() {
    // one byte dropped at the front and one appended: edit distance 2
    let b = panel(&[A]);
    let q = b"CGTACGTACGTACGT".to_vec();
    assert_eq!(b.find(&q, true), MatchResult::Dist(0, 2));
}

#[test]
fn approximate_ambiguous() {
    let x: &[u8] = b"AAAAAAAAAAAAAAA";
    let y: &[u8] = b"AAAAAAAAAAAAACC";
    let b = panel(&[x, y]);
    let q = b"AAAAAAAAAAAAAAC".to_vec();
    assert_eq!(b.find(&q, true), MatchResult::Multiple);
}

#[test]
fn ambiguous_at_different_distances() {
    let x: &[u8] = b"AAAAAAAAAAAAAAA";
    let y: &[u8] = b"AAAAAAAAAAAACCC";
    let b = panel(&[x, y]);
    // distance 1 from x, 2 from y
    let q = b"AAAAAAAAAAAAACA".to_vec();
    assert_eq!(b.find(&q, true), MatchResult::Multiple);
}

#[test]
fn no_hit_far_from_panel() {
    let b = panel(&[A, B]);
    let q = b"GGGGGGGGGGGGGGG".to_vec();
    assert_eq!(b.find(&q, true), MatchResult::NoHit);
    assert_eq!(b.find(&q, false), MatchResult::NoHit);
}

#[test]
fn three_edits_is_no_hit() {
    let b = panel(&[A]);
    let q = b"TTTTACGTACGTACG".to_vec();
    assert_eq!(b.find(&q, true), MatchResult::NoHit);
}

#[test]
fn header_mismatch_is_refused() {
    let mut h = header();
    h[1] = b"label".to_vec();
    let r = Barcodes::from_records(h, vec![row("a", A)], 15);
    assert!(matches!(r, Err(PanelError::Header)));
    let r = Barcodes::from_records(header()[..5].to_vec(), vec![row("a", A)], 15);
    assert!(matches!(r, Err(PanelError::Header)));
}

#[test]
fn missing_barcode_column_is_refused() {
    let short = vec![b"x".to_vec(), b"y".to_vec(), b"R2".to_vec()];
    let r = Barcodes::from_records(header(), vec![row("a", A), short], 15);
    assert!(matches!(r, Err(PanelError::MissingBarcode(1))));
}

#[test]
fn wrong_barcode_length_is_refused() {
    let r = Barcodes::from_records(header(), vec![row("a", A), row("b", b"ACGT")], 15);
    assert!(matches!(r, Err(PanelError::BarcodeLength(1))));
}

#[test]
fn empty_panel_finds_nothing() {
    let b = panel(&[]);
    assert_eq!(b.find(&A.to_vec(), true), MatchResult::NoHit);
}

#[test]
fn configurable_barcode_length() {
    let r = Barcodes::from_records(header(), vec![row("a", b"ACGTA")], 5);
    let b = match r {
        Ok(b) => b,
        Err(e) => panic!("{:?}", e),
    };
    assert_eq!(b.bclength(), 5);
    assert_eq!(b.find(&b"ACGTT".to_vec(), true), MatchResult::Dist(0, 1));
    assert_eq!(b.records()[0][0], b"a".to_vec());
    assert_eq!(b.header().len(), 6);
}

#[test]
fn edit_distance_values() {
    assert_eq!(dist(&b"kitten".to_vec(), &b"sitting".to_vec()), 3);
    assert_eq!(dist(&A.to_vec(), &A.to_vec()), 0);
    assert_eq!(dist(&b"".to_vec(), &b"abc".to_vec()), 3);
    assert_eq!(dist(&b"abc".to_vec(), &b"ab".to_vec()), 1);
}

#[test]
fn shadowed_rows_are_reported() {
    let c: &[u8] = b"CCCCCCCCCCAAAAA";
    let b = panel(&[A, B, A, B, c, A]);
    assert_eq!(b.shadowed_rows(), vec![0, 1, 2]);
    let b = panel(&[A, B, c]);
    assert_eq!(b.shadowed_rows(), Vec::<usize>::new());
}
