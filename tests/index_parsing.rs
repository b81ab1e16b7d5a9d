use faimm::text::{parse_nonzero, parse_usize};
use faimm::{Fai, FaiError, FaiField, IntErrorCause};

fn parse_err(text: &[u8]) -> FaiError {
    Fai::parse(text).err().unwrap()
}

#[test]
fn offsets_follow_the_line_geometry() {
    let fai = Fai::parse(b"chr1\t100\t6\t25\t26\n").unwrap();
    assert_eq!(fai.offset(0, 0, 10).unwrap(), (6, 16));
    assert_eq!(fai.offset(0, 30, 60).unwrap(), (37, 68));
    assert_eq!(fai.offset(0, 25, 50).unwrap(), (32, 58));
    assert_eq!(fai.offset_tid(0).unwrap(), (6, 110));
    assert_eq!(fai.offset(0, 0, 101).err(), Some(FaiError::Range));
    assert_eq!(fai.offset(1, 0, 1).err(), Some(FaiError::Range));
    assert_eq!(fai.offset_tid(1).err(), Some(FaiError::Range));
}

#[test]
fn offsets_that_do_not_fit_are_range_errors() {
    let fai = Fai::parse(b"a\t10\t18446744073709551615\t5\t6").unwrap();
    assert_eq!(fai.offset(0, 0, 0).unwrap(), (usize::MAX, usize::MAX));
    assert_eq!(fai.offset(0, 0, 1).err(), Some(FaiError::Range));
}

#[test]
fn wrong_column_counts_are_format_errors() {
    assert_eq!(parse_err(b"a\t1\t2\t3\n"), FaiError::Format);
    assert_eq!(parse_err(b"a\t1\t2\t3\t4\t5\n"), FaiError::Format);
    assert_eq!(parse_err(b"a\t1\t2\t3\t4\n\nb\t1\t2\t3\t4\n"), FaiError::Format);
}

#[test]
fn bad_numbers_are_parse_errors() {
    assert_eq!(
        parse_err(b"a\tx\t2\t3\t4"),
        FaiError::Parse { field: FaiField::Length, cause: IntErrorCause::InvalidDigit }
    );
    assert_eq!(
        parse_err(b"a\t1\t\t3\t4"),
        FaiError::Parse { field: FaiField::Offset, cause: IntErrorCause::Empty }
    );
    assert_eq!(
        parse_err(b"a\t1\t2\t0\t4"),
        FaiError::Parse { field: FaiField::LineBases, cause: IntErrorCause::Zero }
    );
    assert_eq!(
        parse_err(b"a\t1\t2\t3\t99999999999999999999999"),
        FaiError::Parse { field: FaiField::LineWidth, cause: IntErrorCause::PosOverflow }
    );
    assert_eq!(
        parse_err(b"a\t1\t2\t3\t4\nb\t-1\t2\t3\t4\n"),
        FaiError::Parse { field: FaiField::Length, cause: IntErrorCause::InvalidDigit }
    );
}

#[test]
fn names_must_be_utf8() {
    assert_eq!(parse_err(b"\xff\t1\t2\t3\t4\n"), FaiError::Conversion);
}

#[test]
fn numbers_read_as_usize_from_str() {
    assert_eq!(parse_usize(b"0"), Ok(0));
    assert_eq!(parse_usize(b"+17"), Ok(17));
    assert_eq!(parse_usize(b"18446744073709551615"), Ok(usize::MAX));
    assert_eq!(parse_usize(b"18446744073709551616"), Err(IntErrorCause::PosOverflow));
    assert_eq!(parse_usize(b""), Err(IntErrorCause::Empty));
    assert_eq!(parse_usize(b"+"), Err(IntErrorCause::InvalidDigit));
    assert_eq!(parse_usize(b"-"), Err(IntErrorCause::InvalidDigit));
    assert_eq!(parse_usize(b"-3"), Err(IntErrorCause::InvalidDigit));
    assert_eq!(parse_usize(b"1 "), Err(IntErrorCause::InvalidDigit));
    assert_eq!(parse_nonzero(b"0"), Err(IntErrorCause::Zero));
    assert_eq!(parse_nonzero(b"00"), Err(IntErrorCause::Zero));
    assert_eq!(parse_nonzero(b"25"), Ok(25));
}

#[test]
fn crlf_lines_and_a_missing_final_newline() {
    let fai = Fai::parse(b"a\t1\t2\t3\t4\r\nb\t5\t6\t7\t8").unwrap();
    assert_eq!(fai.names(), vec!["a", "b"]);
    assert_eq!(fai.size(0).unwrap(), 1);
    assert_eq!(fai.size(1).unwrap(), 5);
    assert_eq!(
        parse_err(b"a\t1\t2\t3\t4\r"),
        FaiError::Parse { field: FaiField::LineWidth, cause: IntErrorCause::InvalidDigit }
    );
}

#[test]
fn an_empty_index_has_no_sequences() {
    let fai = Fai::parse(b"").unwrap();
    assert!(fai.names().is_empty());
    assert_eq!(fai.tid("a"), None);
    assert_eq!(fai.size(0).err(), Some(FaiError::Range));
}

#[test]
fn a_repeated_name_keeps_its_first_id_and_ids_stay_aligned() {
    let fai = Fai::parse(b"x\t1\t0\t1\t2\ny\t2\t0\t1\t2\nx\t3\t0\t1\t2\n").unwrap();
    assert_eq!(fai.tid("x"), Some(0));
    assert_eq!(fai.tid("y"), Some(1));
    assert_eq!(fai.names(), vec!["x", "y", "x"]);
    assert_eq!(fai.name(2).unwrap(), "x");
    assert_eq!(fai.size(2).unwrap(), 3);
    assert_eq!(fai.size(1).unwrap(), 2);
    for name in fai.names() {
        let id = fai.tid(name).unwrap();
        assert_eq!(fai.name(id).unwrap(), name);
    }
}

#[test]
fn names_keep_unicode() {
    let fai = Fai::parse("chrÄ\t3\t0\t3\t4\n".as_bytes()).unwrap();
    assert_eq!(fai.tid("chrÄ"), Some(0));
    assert_eq!(fai.name(0).unwrap(), "chrÄ");
}
