use chaoscoder::bicgr::{ParseError, Record};
use chaoscoder::icgr::{TriIntegers, TriIntegersList};

#[test]
fn test_write_all() {
    let record = Record {
        seq_id: "seq1".to_string(),
        desc: Some("mydesc".to_string()),
        overlap: 8,
        tri_integers: TriIntegersList::new(vec![
            TriIntegers::new(1, 2, 3),
            TriIntegers::new(4, 5, 6),
        ]),
    };

    let mut output = Vec::new();
    record.write_all(&mut output);

    let output_str = String::from_utf8(output).unwrap();
    assert_eq!(output_str, "seq1\tmydesc\t8\t1,2,3;4,5,6\n");
}

#[test]
fn test_write_all_without_description() {
    let record = Record {
        seq_id: "seqX".to_string(),
        desc: None,
        overlap: 10,
        tri_integers: TriIntegersList::new(vec![TriIntegers::new(7, 8, 9)]),
    };

    let mut output = Vec::new();
    record.write_all(&mut output);

    let output_str = String::from_utf8(output).unwrap();
    assert_eq!(output_str, "seqX\t\t10\t7,8,9\n");
}

#[test]
fn test_read_valid_record() {
    let input = "seq1\tdescription\t8\t1,2,3;4,5,6\n";
    let records = Record::read_all(input).unwrap();

    assert_eq!(records.len(), 1);
    assert_eq!(records[0].seq_id, "seq1");
    assert_eq!(records[0].desc.as_deref(), Some("description"));
    assert_eq!(records[0].overlap, 8);
    assert_eq!(records[0].tri_integers.to_text(), "1,2,3;4,5,6");
}

#[test]
fn test_read_missing_seq_id() {
    let input = "\tDescription\t8\t1,2,3;3,4,5\n";
    let result = Record::read_all(input);
    assert!(result.is_err());
    let (line, err) = result.unwrap_err();
    assert_eq!(line, 1);
    assert!(err.message().contains("Missing sequence ID"));
}

#[test]
fn test_read_invalid_overlap() {
    let input = "seq2\tDesc\t0\t1,2,3;3,4,5\n";
    let result = Record::read_all(input);
    assert!(result.is_err());
    let (line, err) = result.unwrap_err();
    assert_eq!(line, 1);
    assert!(err.message().contains("Invalid overlap"));
}

#[test]
fn test_read_malformed_line() {
    let input = "seq3\tOnlyOneField\n";
    let result = Record::read_all(input);
    assert!(result.is_err());
    let (line, err) = result.unwrap_err();
    assert_eq!(line, 1);
    assert!(err.message().contains("parsing record"));
}

#[test]
fn single_line_reads_as_record() {
    let record = Record::from_line("seq1\tdescription\t8\t1,2,3;4,5,6\n").unwrap();
    assert_eq!(record.seq_id, "seq1");
    assert_eq!(record.tri_integers.to_text(), "1,2,3;4,5,6");
}

#[test]
fn blank_id_is_missing() {
    assert_eq!(
        Record::from_line(" \t d\t3\t1,1,1").unwrap_err(),
        ParseError::MissingId
    );
}

#[test]
fn overlap_must_be_a_small_number() {
    for bad in ["x", "", "256", "-1", " 3"] {
        let line = format!("s\t\t{}\t1,1,1\n", bad);
        assert_eq!(Record::from_line(&line).unwrap_err(), ParseError::InvalidOverlap, "{}", bad);
    }
    let record = Record::from_line("s\t\t+255\t1,1,1").unwrap();
    assert_eq!(record.overlap, 255);
}

#[test]
fn malformed_triples_are_refused() {
    for bad in ["1,2", "1,2,3,4", "a,2,3", "1,2,0", "1,2,-3", "1,2,x"] {
        let line = format!("s\t\t3\t{}\n", bad);
        assert_eq!(Record::from_line(&line).unwrap_err(), ParseError::MalformedTriple, "{}", bad);
    }
}

#[test]
fn triple_parts_are_trimmed_and_blank_entries_skipped() {
    let record = Record::from_line("s\tdesc\t3\t -4 , 5,\t6 ;; 7,8,9;\r\n");
    // a tab inside the triples makes five fields
    assert_eq!(record.unwrap_err(), ParseError::MalformedRecord);
    let record = Record::from_line("s\tdesc\t3\t -4 , 5, 6 ;; 7,8,9;\r\n").unwrap();
    assert_eq!(record.tri_integers.to_text(), "-4,5,6;7,8,9");
    assert_eq!(record.desc.as_deref(), Some("desc"));
}

#[test]
fn record_without_triples_reads_and_decodes_to_nothing() {
    let record = Record::from_line("s\t\t3\t\n").unwrap();
    assert_eq!(record.desc, None);
    assert_eq!(record.tri_integers.len(), 0);
    assert_eq!(record.tri_integers.to_dna(record.overlap).unwrap(), "");
}

#[test]
fn written_record_reads_back() {
    let record = Record::new(
        "chr1".to_string(),
        Some("a test".to_string()),
        2,
        TriIntegersList::new(vec![
            TriIntegers::from_parts(-170141183460469231731687303715884105728, 42, 100),
            TriIntegers::from_parts(-5, -5, 1),
        ]),
    );
    let line = record.to_line();
    let back = Record::from_line(&line).unwrap();
    assert_eq!(back.seq_id, "chr1");
    assert_eq!(back.desc.as_deref(), Some("a test"));
    assert_eq!(back.overlap, 2);
    assert_eq!(back.tri_integers, record.tri_integers);
}

#[test]
fn coordinates_beyond_128_bits_are_refused() {
    let line = "s\t\t3\t170141183460469231731687303715884105728,1,1";
    assert_eq!(Record::from_line(line).unwrap_err(), ParseError::MalformedTriple);
}

#[test]
fn record_file_skips_header_and_blank_lines() {
    let text = "#seq_id\tdescription\toverlap\ttri_integers\nseq1\tdescription\t8\t1,2,3;4,5,6\n\n\r\nseq2\t\t2\t-5,-5,1\r\n";
    let records = Record::read_all(text).unwrap();
    assert_eq!(records.len(), 2);
    assert_eq!(records[0].seq_id, "seq1");
    assert_eq!(records[1].seq_id, "seq2");
    assert_eq!(records[1].desc, None);
    assert_eq!(records[1].tri_integers.to_dna(2).unwrap(), "C");
}

#[test]
fn record_whose_id_begins_with_hash_is_kept() {
    let record = Record::new(
        "#a".to_string(),
        None,
        2,
        TriIntegersList::new(vec![TriIntegers::from_parts(-5, -5, 1)]),
    );
    let mut bytes = Vec::new();
    record.write_all(&mut bytes);
    let text = String::from_utf8(bytes).unwrap();
    let records = Record::read_all(&text).unwrap();
    assert_eq!(records.len(), 1);
    assert_eq!(records[0].seq_id, "#a");
    let records = Record::read_all(&format!("seq1\t\t2\t1,1,1\n{}", text)).unwrap();
    assert_eq!(records.len(), 2);
}

#[test]
fn comment_after_the_first_line_is_an_error() {
    let text = "seq1\t\t2\t1,1,1\n#comment\n";
    assert_eq!(Record::read_all(text).unwrap_err(), (2, ParseError::MalformedRecord));
}

#[test]
fn record_file_reports_first_bad_line() {
    let text = "seq1\tdescription\t8\t1,2,3\n\tno id\t8\t1,2,3\nseq3\tx\t0\t1,2,3\n";
    assert_eq!(Record::read_all(text).unwrap_err(), (2, ParseError::MissingId));
}

#[test]
fn empty_record_file_has_no_records() {
    assert_eq!(Record::read_all("").unwrap().len(), 0);
}
