use featurecount::barcodes::Barcodes;
use featurecount::counts::{Counts, Summary};
use featurecount::driver::{parse_ignores, process_read, read_code, IgnoreList, ReadError, Whitelist};

const A: &[u8] = b"ACGTACGTACGTACG";
const B: &[u8] = b"TTTTTGGGGGCCCCC";

fn panel() -> Barcodes {
    let header = ["id", "name", "read", "pattern", "sequence", "feature_type"]
        .iter()
        .map(|f| f.as_bytes().to_vec())
        .collect();
    let rows = [A, B]
        .iter()
        .enumerate()
        .map(|(i, s)| {
            vec![
                format!("ab{}", i).into_bytes(),
                b"n".to_vec(),
                b"R2".to_vec(),
                b"p".to_vec(),
                s.to_vec(),
                b"Antibody Capture".to_vec(),
            ]
        })
        .collect();
    match Barcodes::from_records(header, rows, 15) {
        Ok(b) => b,
        Err(e) => panic!("{:?}", e),
    }
}

const CELL1: &[u8] = b"AAAACCCCGGGGTTTT";
const CELL2: &[u8] = b"TTTTGGGGCCCCAAAA";

#[test]
fn whitelist_is_checked_first() {
    let b = panel();
    let mut counts = Counts::new();
    let wl = Some(Whitelist::from_lines(vec![CELL1.to_vec()]));
    let ignore = parse_ignores(A);
    process_read(&mut counts, &b, &wl, &ignore, false, false, CELL2.to_vec(), A.to_vec());
    assert_eq!(counts.n_not_whitelisted(), 1);
    assert_eq!(counts.n_ignored(), 0);
    process_read(&mut counts, &b, &wl, &ignore, false, false, CELL1.to_vec(), A.to_vec());
    assert_eq!(counts.n_ignored(), 1);
    process_read(&mut counts, &b, &wl, &ignore, false, false, CELL1.to_vec(), B.to_vec());
    let s = Summary::new(&b, &counts, 0);
    assert_eq!(s.row(0), (0, 0));
    assert_eq!(s.row(1), (1, 1));
}

#[test]
fn outcomes_are_routed() {
    let b = panel();
    let mut counts = Counts::new();
    let ignore = IgnoreList::from_entries(vec![]);
    // approximate hit to A counts for A
    process_read(&mut counts, &b, &None, &ignore, true, true, CELL1.to_vec(), b"TCGTACGTACGTACG".to_vec());
    // no hit
    process_read(&mut counts, &b, &None, &ignore, true, true, CELL1.to_vec(), b"GGGGGGGGGGGGGGG".to_vec());
    // approximate match refused when not asked for
    process_read(&mut counts, &b, &None, &ignore, false, true, CELL1.to_vec(), b"TCGTACGTACGTACG".to_vec());
    assert_eq!(counts.n_nohit(), 2);
    assert_eq!(counts.n_multiple(), 0);
    let s = Summary::new(&b, &counts, 0);
    assert_eq!(s.row(0), (1, 1));
    assert_eq!(s.row(1), (0, 0));
}

#[test]
fn ambiguous_read_is_not_credited() {
    let header = ["id", "name", "read", "pattern", "sequence", "feature_type"]
        .iter()
        .map(|f| f.as_bytes().to_vec())
        .collect();
    let rows = [b"AAAAAAAAAAAAAAA", b"AAAAAAAAAAAAACC"]
        .iter()
        .map(|s| vec![b"i".to_vec(), b"n".to_vec(), b"r".to_vec(), b"p".to_vec(), s.to_vec()])
        .collect();
    let b = match Barcodes::from_records(header, rows, 15) {
        Ok(b) => b,
        Err(e) => panic!("{:?}", e),
    };
    let mut counts = Counts::new();
    let ignore = IgnoreList::from_entries(vec![]);
    process_read(&mut counts, &b, &None, &ignore, true, false, CELL1.to_vec(), b"AAAAAAAAAAAAAAC".to_vec());
    assert_eq!(counts.n_multiple(), 1);
    let s = Summary::new(&b, &counts, 0);
    assert_eq!(s.row(0), (0, 0));
    assert_eq!(s.row(1), (0, 0));
}

#[test]
fn ignore_list_is_split_on_commas() {
    let l = parse_ignores(b"GGGGGGGGGGGGGGG,CCTAATGGTCCAGAC");
    assert!(l.contains(b"GGGGGGGGGGGGGGG"));
    assert!(l.contains(b"CCTAATGGTCCAGAC"));
    assert!(!l.contains(b"GGGGGGGGGGGGGGG,CCTAATGGTCCAGAC"));
    assert!(!l.contains(b""));
    let l = parse_ignores(b"a,,b");
    assert!(l.contains(b"a"));
    assert!(l.contains(b""));
    assert!(l.contains(b"b"));
    let l = parse_ignores(b"");
    assert!(l.contains(b""));
}

#[test]
fn whitelist_membership() {
    let w = Whitelist::from_lines(vec![CELL1.to_vec(), CELL2.to_vec()]);
    assert!(w.contains(CELL1));
    assert!(w.contains(CELL2));
    assert!(!w.contains(b"AAAACCCCGGGGTTTA"));
}

#[test]
fn codes_are_cut_from_the_reads() {
    let r1 = b"AAAACCCCGGGGTTTTXXXX";
    let r2 = b"0123456789ACGTACGTACGTACGzz";
    let r = read_code(r1, r2, 16, 15, 10);
    assert_eq!(r, Ok((CELL1.to_vec(), A.to_vec())));
}

#[test]
fn short_reads_are_refused() {
    assert_eq!(read_code(b"AAAA", b"0123456789ACGTACGTACGTACG", 16, 15, 10), Err(ReadError::ShortCellRead));
    assert_eq!(read_code(CELL1, b"0123456789ACGT", 16, 15, 10), Err(ReadError::ShortBarcodeRead));
    assert_eq!(read_code(CELL1, b"0123", 16, 15, 10), Err(ReadError::ShortBarcodeRead));
    assert_eq!(read_code(CELL1, b"0123456789ACGTACGTACGTACG", 16, 15, 10), Ok((CELL1.to_vec(), A.to_vec())));
}
