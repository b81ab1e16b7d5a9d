use faimm::{BaseCounts, Bases, Fai, IndexedFasta};
use memmap2::{Mmap, MmapMut};

const NAMES: [&str; 3] = ["A-10", "A-100", "ACGT-25"];

fn sequences() -> Vec<String> {
    let mut acgt = String::new();
    for c in ["A", "C", "G", "T"] {
        acgt.push_str(&c.repeat(25));
    }
    vec!["A".repeat(10), "A".repeat(100), acgt]
}

/// The sequence file and its index: three sequences wrapped at 25 bases.
fn genome() -> (Vec<u8>, String) {
    let mut fasta = String::new();
    let mut fai = String::new();
    for (name, seq) in NAMES.iter().zip(sequences()) {
        fasta.push('>');
        fasta.push_str(name);
        fasta.push('\n');
        let offset = fasta.len();
        for chunk in seq.as_bytes().chunks(25) {
            fasta.push_str(std::str::from_utf8(chunk).unwrap());
            fasta.push('\n');
        }
        fai.push_str(&format!("{}\t{}\t{}\t25\t26\n", name, seq.len(), offset));
    }
    (fasta.into_bytes(), fai)
}

fn map_bytes(bytes: &[u8]) -> Mmap {
    let mut m = MmapMut::map_anon(bytes.len()).unwrap();
    m.copy_from_slice(bytes);
    m.make_read_only().unwrap()
}

fn base_count(mut b: Bases) -> usize {
    let mut n = 0;
    while b.next().is_some() {
        n += 1;
    }
    n
}

fn open_genome() -> IndexedFasta {
    let (fasta, fai) = genome();
    let index = Fai::parse(fai.as_bytes()).unwrap();
    IndexedFasta::new(index, map_bytes(&fasta))
}

#[test]
fn fai() {
    let ir = open_genome();
    assert_eq!(ir.fai().names().len(), 3);
    assert_eq!(ir.fai().tid("ACGT-25"), Some(2));
    assert_eq!(ir.fai().tid("NotFound"), None);

    assert_eq!(ir.fai().size(2).unwrap(), 100);
    assert_eq!(ir.fai().name(2).unwrap(), "ACGT-25");
    assert!(ir.fai().name(3).is_err());
}

#[test]
fn view() {
    let ir = open_genome();
    assert_eq!(ir.view(0, 0, 10).unwrap().to_string().unwrap(), "AAAAAAAAAA");
    assert!(ir.view(0, 0, 11).is_err());

    assert_eq!(
        ir.view(2, 38, 62).unwrap().to_string().unwrap(),
        "CCCCCCCCCCCCGGGGGGGGGGGG"
    );
    assert_eq!(
        ir.view(2, 74, 100).unwrap().to_string().unwrap(),
        "GTTTTTTTTTTTTTTTTTTTTTTTTT"
    );
    assert!(ir.view(0, 120, 130).is_err());
}

#[test]
fn view_tid() {
    let ir = open_genome();
    assert_eq!(ir.view_tid(0).unwrap().to_string().unwrap(), "AAAAAAAAAA");
    assert_eq!(ir.view_tid(1).unwrap().to_string().unwrap(),
        "AAAAAAAAAAAAAAAAAAAAAAAAAAAAAAAAAAAAAAAAAAAAAAAAAAAAAAAAAAAAAAAAAAAAAAAAAAAAAAAAAAAAAAAAAAAAAAAAAAAA");
    assert_eq!(ir.view_tid(2).unwrap().to_string().unwrap(),
        "AAAAAAAAAAAAAAAAAAAAAAAAACCCCCCCCCCCCCCCCCCCCCCCCCGGGGGGGGGGGGGGGGGGGGGGGGGTTTTTTTTTTTTTTTTTTTTTTTTT");
    assert!(ir.view_tid(3).is_err());
}

#[test]
fn view_bases() {
    let ir = open_genome();
    let v = ir.view(2, 48, 52).unwrap();
    let mut b = v.bases();
    assert_eq!(b.next(), Some(&b'C'));
    assert_eq!(b.next(), Some(&b'C'));
    assert_eq!(b.next(), Some(&b'G'));
    assert_eq!(b.next(), Some(&b'G'));
    assert_eq!(b.next(), None);
}

#[test]
fn view_counts() {
    let ir = open_genome();
    assert_eq!(
        ir.view(2, 48, 52).unwrap().count_bases(),
        BaseCounts {
            c: 2,
            g: 2,
            ..Default::default()
        }
    );
}

#[test]
fn read_view() {
    let ir = open_genome();
    let mut buf = vec![0; 25];
    let mut v = ir.view_tid(2).unwrap();
    println!("{}", v.to_string().unwrap());
    assert_eq!(v.read(&mut buf), 25);
    assert_eq!(buf, vec![b'A'; 25]);
    assert_eq!(v.read(&mut buf), 25);
    assert_eq!(buf, vec![b'C'; 25]);
    assert_eq!(v.read(&mut buf), 25);
    assert_eq!(buf, vec![b'G'; 25]);

    let mut buf2 = vec![0; 10];
    assert_eq!(v.read(&mut buf2), 10);
    assert_eq!(buf2, vec![b'T'; 10]);
    assert_eq!(v.read(&mut buf2), 10);
    assert_eq!(buf2, vec![b'T'; 10]);
    assert_eq!(v.read(&mut buf2), 5);
    assert_eq!(&buf2[0..5], vec![b'T'; 5].as_slice());
}

#[test]
fn fixture_view_lengths_match_queries() {
    let ir = open_genome();
    for tid in 0..3 {
        let len = ir.fai().size(tid).unwrap();
        for start in 0..=len {
            for stop in start..=len {
                let v = ir.view(tid, start, stop).unwrap();
                assert_eq!(base_count(v.bases()), stop - start);
            }
        }
        let c = ir.view_tid(tid).unwrap().count_bases();
        assert_eq!(c.a + c.c + c.g + c.t + c.n + c.other, len);
        assert!(ir.view(tid, 0, len + 1).is_err());
    }
}

#[test]
fn fixture_names_round_trip() {
    let ir = open_genome();
    let names = ir.fai().names();
    assert_eq!(names, NAMES.to_vec());
    for name in names {
        let id = ir.fai().tid(name).unwrap();
        assert_eq!(ir.fai().name(id).unwrap(), name);
    }
    assert_eq!(ir.fai().tid("unknown"), None);
}

#[test]
fn fixture_reads_of_any_sizes_reassemble_the_view() {
    let ir = open_genome();
    for sizes in [vec![1usize], vec![7, 3], vec![25, 1, 30], vec![0, 100], vec![13]] {
        let whole = ir.view(2, 3, 97).unwrap().to_string().unwrap();
        let mut v = ir.view(2, 3, 97).unwrap();
        let mut got = Vec::new();
        let mut k = 0;
        loop {
            let size = sizes[k % sizes.len()];
            k += 1;
            let mut buf = vec![0u8; size];
            let n = v.read(&mut buf);
            got.extend_from_slice(&buf[..n]);
            if n == 0 && size > 0 {
                break;
            }
        }
        assert_eq!(String::from_utf8(got).unwrap(), whole);
        let mut buf = vec![0u8; 4];
        assert_eq!(v.read(&mut buf), 0);
    }
}

#[test]
fn fixture_interval_errors() {
    let ir = open_genome();
    assert_eq!(ir.view(0, 5, 4).err(), Some(faimm::FaiError::InvalidRange));
    assert_eq!(ir.view(0, 0, 11).err(), Some(faimm::FaiError::Range));
    assert_eq!(ir.view(3, 0, 1).err(), Some(faimm::FaiError::Range));
    assert_eq!(ir.view(0, 12, 11).err(), Some(faimm::FaiError::InvalidRange));
    assert_eq!(ir.view_tid(3).err(), Some(faimm::FaiError::Range));
}
