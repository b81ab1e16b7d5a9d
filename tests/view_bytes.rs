use faimm::{classify, is_base, BaseCounts, BaseKind, FastaView};

#[test]
fn counting_ignores_case_and_skips_separators() {
    let v = FastaView::new(b"ACGT\nacgtNn\r\nXx-@");
    assert_eq!(
        v.count_bases(),
        BaseCounts { a: 2, c: 2, g: 2, t: 2, n: 2, other: 3 }
    );
    assert_eq!(FastaView::new(b"").count_bases(), BaseCounts::default());
}

#[test]
fn text_holds_the_bases_only() {
    let v = FastaView::new(b"AC\r\ngt\n\nN");
    assert_eq!(v.to_string().unwrap(), "ACgtN");
    assert_eq!(FastaView::new(b"\n\n").to_string().unwrap(), "");
}

#[test]
fn bases_start_over_on_each_call() {
    let v = FastaView::new(b"\nA\nC");
    let mut b = v.bases();
    assert_eq!(b.next(), Some(&b'A'));
    assert_eq!(b.next(), Some(&b'C'));
    assert_eq!(b.next(), None);
    assert_eq!(b.next(), None);
    let mut again = v.bases();
    assert_eq!(again.next(), Some(&b'A'));
}

#[test]
fn reads_resume_mid_line() {
    let mut v = FastaView::new(b"ACG\nTAC\nG\n");
    let mut buf = [0u8; 2];
    assert_eq!(v.read(&mut buf), 2);
    assert_eq!(&buf, b"AC");
    assert_eq!(v.read(&mut buf), 2);
    assert_eq!(&buf, b"GT");
    let mut big = [9u8; 5];
    assert_eq!(v.read(&mut big), 3);
    assert_eq!(&big, b"ACG\x09\x09");
    assert_eq!(v.read(&mut big), 0);
}

#[test]
fn an_empty_buffer_reads_nothing() {
    let mut v = FastaView::new(b"\nAC");
    let mut none: [u8; 0] = [];
    assert_eq!(v.read(&mut none), 0);
    let mut buf = [0u8; 8];
    assert_eq!(v.read(&mut buf), 2);
    assert_eq!(&buf[..2], b"AC");
}

#[test]
fn the_classification_table() {
    assert_eq!(classify(b'A'), Some(BaseKind::A));
    assert_eq!(classify(b'a'), Some(BaseKind::A));
    assert_eq!(classify(b'c'), Some(BaseKind::C));
    assert_eq!(classify(b'G'), Some(BaseKind::G));
    assert_eq!(classify(b't'), Some(BaseKind::T));
    assert_eq!(classify(b'N'), Some(BaseKind::N));
    assert_eq!(classify(b'R'), Some(BaseKind::Other));
    assert_eq!(classify(127), Some(BaseKind::Other));
    assert_eq!(classify(b'\n'), None);
    assert_eq!(classify(b'\r'), None);
    assert_eq!(classify(b'>'), None);
    assert_eq!(classify(128), None);
    assert!(is_base(b'@'));
    assert!(!is_base(b'?'));
}
