use chaoscoder::chunker::str_chunks_overlap;
use chaoscoder::error::IcgrError;
use chaoscoder::icgr::{tri_integers_to_dna, ChaosDecoder, ChaosEncoder, TriIntegers, TriIntegersList};
use chaoscoder::merge::merge_with_overlap;

#[test]
fn test_icgr_from_chunk_strict() {
    let result = TriIntegers::icgr_from_chunk("ATGC".as_bytes(), true);
    assert!(result.is_ok());

    let result = TriIntegers::icgr_from_chunk("ATGN".as_bytes(), true);
    assert!(result.is_err()); // 'N' not allowed in strict mode
}

#[test]
fn test_icgr_from_chunk_non_strict() {
    let result = TriIntegers::icgr_from_chunk("ATGN".as_bytes(), false);
    assert!(result.is_ok());

    let coords = result.unwrap();
    assert_eq!(coords.n, 4); // 'N' is taken into account
}

#[test]
fn test_str_chunks_overlap() {
    let seq = "ATGCGT";
    let chunks: Vec<Vec<u8>> = str_chunks_overlap(seq.as_bytes(), 4, 2);
    assert_eq!(
        chunks,
        vec![b"ATGC".to_vec(), b"GCGT".to_vec(), b"GT".to_vec()]
    );
}

#[test]
fn test_merge_with_overlap() {
    let chunks = vec![b"ATGC".as_ref(), b"GCAT".as_ref()];
    let merged = merge_with_overlap(chunks, 2).unwrap();
    assert_eq!(String::from_utf8(merged).unwrap(), "ATGCAT");
}

#[test]
fn test_encode_decode_roundtrip() {
    let dna = "ATGCGTACGTAGCTAGCTAG";
    let encoded = dna.as_bytes().encode(6, 2, true).unwrap();
    let decoded = encoded.decode(2).unwrap();

    assert_eq!(decoded.len(), dna.len());
    assert!(decoded.chars().all(|c| "ATGC".contains(c)));
}

#[test]
fn test_tri_integers_display() {
    let ti = TriIntegersList(vec![TriIntegers { x: 10, y: -5, n: 3 }]);
    assert_eq!(ti.to_text(), "10,-5,3");
}

#[test]
fn test_tri_integers_to_dna() {
    let encoded = TriIntegers::icgr_from_chunk("ATGC".as_bytes(), true).unwrap();
    let dna = tri_integers_to_dna(encoded.clone());
    assert_eq!(dna.len(), encoded.n);
}

#[test]
fn round_trip_is_exact_for_several_widths() {
    let dna = "ATGCGTACGTAGCTAGCTAGGATTACAGATTACACCGGTTAACCGGTTAAGCGCATATCG";
    for (width, overlap) in [(6usize, 2u8), (10, 1), (10, 4), (100, 5), (3, 1), (61, 60)] {
        let encoded = dna.as_bytes().encode(width, overlap, true).unwrap();
        let decoded = encoded.decode(overlap).unwrap();
        assert_eq!(decoded, dna, "width {} overlap {}", width, overlap);
    }
}

#[test]
fn round_trip_of_the_widest_block() {
    let unit = "ACGTTGCA";
    let dna: String = unit.repeat(13)[..100].to_string();
    let encoded = dna.as_bytes().encode(100, 5, true).unwrap();
    assert_eq!(encoded.len(), 1);
    assert_eq!(encoded.decode(5).unwrap(), dna);
}

#[test]
fn round_trip_of_a_single_symbol() {
    for s in ["A", "T", "C", "G"] {
        let encoded = s.as_bytes().encode(10, 3, true).unwrap();
        assert_eq!(encoded.decode(3).unwrap(), s);
    }
}

#[test]
fn short_sequence_gives_one_triple() {
    let encoded = "GATTACA".as_bytes().encode(10, 3, false).unwrap();
    assert_eq!(encoded.len(), 1);
    assert_eq!(encoded.0[0].n, 7);
}

#[test]
fn empty_sequence_gives_no_triple() {
    let encoded = "".as_bytes().encode(10, 3, true).unwrap();
    assert_eq!(encoded.len(), 0);
    assert_eq!(encoded.decode(3).unwrap(), "");
}

#[test]
fn adjacent_windows_share_the_overlap() {
    let seq = "ATGCGTACGTAGCTAGCTAGGA".as_bytes();
    let chunks = str_chunks_overlap(seq, 7, 3);
    assert_eq!(chunks.len(), 5);
    for pair in chunks.windows(2) {
        assert_eq!(pair[0].len(), 7);
        assert_eq!(&pair[0][pair[0].len() - 3..], &pair[1][..3]);
    }
    assert_eq!(chunks[0], b"ATGCGTA".to_vec());
    assert_eq!(chunks[4], b"CTAGGA".to_vec());
}

#[test]
fn only_the_last_chunk_is_short() {
    assert_eq!(
        str_chunks_overlap(b"ATGCG", 4, 2),
        vec![b"ATGC".to_vec(), b"GCG".to_vec()]
    );
    assert_eq!(
        str_chunks_overlap(b"ATGCGTA", 4, 2),
        vec![b"ATGC".to_vec(), b"GCGT".to_vec(), b"GTA".to_vec()]
    );
}

#[test]
fn sequence_that_fits_is_one_chunk() {
    assert_eq!(str_chunks_overlap(b"ATGC", 4, 2), vec![b"ATGC".to_vec()]);
    assert_eq!(str_chunks_overlap(b"A", 4, 3), vec![b"A".to_vec()]);
    assert!(str_chunks_overlap(b"", 4, 3).is_empty());
}

#[test]
fn merged_length_is_total_less_overlaps() {
    let chunks = vec![b"ATGCA".as_ref(), b"CAGGT".as_ref(), b"GTA".as_ref()];
    let merged = merge_with_overlap(chunks, 2).unwrap();
    assert_eq!(merged.len(), 5 + 5 + 3 - 2 * 2);
    assert_eq!(merged, b"ATGCAGGTA".to_vec());
}

#[test]
fn merge_of_nothing_is_empty() {
    let merged = merge_with_overlap(Vec::new(), 2).unwrap();
    assert!(merged.is_empty());
}

#[test]
fn corrupted_overlap_is_reported() {
    let chunks = vec![b"ATGCA".as_ref(), b"CTGGT".as_ref(), b"GTA".as_ref()];
    match merge_with_overlap(chunks, 2) {
        Err(IcgrError::OverlapMismatch { expected, actual }) => {
            assert_eq!(expected, b"CA".to_vec());
            assert_eq!(actual, b"CT".to_vec());
        }
        other => panic!("unexpected {:?}", other),
    }
}

#[test]
fn corrupted_decoded_chunk_is_reported() {
    let dna = "ATGCGTACGTAGCTAGCTAG".as_bytes();
    let encoded = dna.encode(6, 2, true).unwrap();
    let mut chunks: Vec<Vec<u8>> = encoded.0.iter().map(|t| tri_integers_to_dna(*t)).collect();
    // the second chunk begins with the two symbols it shares with the first
    chunks[1][1] = if chunks[1][1] == b'A' { b'C' } else { b'A' };
    let slices: Vec<&[u8]> = chunks.iter().map(|c| c.as_slice()).collect();
    assert!(matches!(
        merge_with_overlap(slices, 2),
        Err(IcgrError::OverlapMismatch { .. })
    ));
}

#[test]
fn corrupted_triple_is_reported() {
    let dna = "ATGCGTACGTAGCTAGCTAG".as_bytes();
    let mut encoded = dna.encode(6, 2, true).unwrap();
    // moving the first coordinate of the second block changes the symbols it shares with the first
    encoded.0[1].x = encoded.0[1].x + 2;
    let result = encoded.decode(2);
    assert!(matches!(result, Err(IcgrError::OverlapMismatch { .. })), "{:?}", result);
}

#[test]
fn short_tails_round_trip() {
    for dna in ["ATGCG", "ATGCGTA", "ATGCGTAC"] {
        let encoded = dna.as_bytes().encode(4, 2, true).unwrap();
        assert_eq!(encoded.decode(2).unwrap(), dna);
    }
    assert_eq!("ATGCGTA".as_bytes().encode(4, 2, true).unwrap().len(), 3);
}

#[test]
fn chunk_shorter_than_overlap_is_reported() {
    let chunks = vec![b"ATGC".as_ref(), b"C".as_ref()];
    assert_eq!(merge_with_overlap(chunks, 2), Err(IcgrError::ChunkTooShort));
}

#[test]
fn round_trip_of_every_short_sequence() {
    let symbols = [b'A', b'C', b'G', b'T'];
    for len in 1..=6usize {
        for code in 0..4usize.pow(len as u32) {
            let mut dna = Vec::new();
            let mut c = code;
            for _ in 0..len {
                dna.push(symbols[c % 4]);
                c /= 4;
            }
            for width in 2..=6usize {
                for overlap in 1..width as u8 {
                    let encoded = dna.as_slice().encode(width, overlap, true).unwrap();
                    let total: usize = encoded.0.iter().map(|t| t.n).sum();
                    assert_eq!(total - overlap as usize * (encoded.len() - 1), dna.len());
                    assert!(encoded.0.iter().all(|t| 1 <= t.n && t.n <= width));
                    let decoded = encoded.decode(overlap).unwrap();
                    assert_eq!(decoded.as_bytes(), dna.as_slice());
                }
            }
        }
    }
}

#[test]
fn strict_mode_rejects_unknown_symbol() {
    let result = "ATGN".as_bytes().encode(10, 2, true);
    assert_eq!(result, Err(IcgrError::UnknownNucleotide('N')));
}

#[test]
fn strict_mode_reports_first_unknown_symbol() {
    let result = "ATGCXATGCATGNAAA".as_bytes().encode(6, 2, true);
    assert_eq!(result, Err(IcgrError::UnknownNucleotide('X')));
}

#[test]
fn permissive_mode_keeps_unknown_position() {
    let result = "ATGN".as_bytes().encode(10, 2, false).unwrap();
    assert_eq!(result.len(), 1);
    assert_eq!(result.0[0].n, 4);
    // N moves the point nowhere: the point is that of ATG
    let atg = TriIntegers::icgr_from_chunk("ATG".as_bytes(), true).unwrap();
    assert_eq!((result.0[0].x, result.0[0].y), (atg.x, atg.y));
}

#[test]
fn concrete_encoding_vector() {
    // A(1,1) T(-1,1) T G(1,-1) C(-1,-1) C G T A A, each step scaled by 2^i
    let t = TriIntegers::icgr_from_chunk("ATTGCCGTAA".as_bytes(), true).unwrap();
    assert_eq!(t.x, 659);
    assert_eq!(t.y, 783);
    assert_eq!(t.n, 10);
}

#[test]
fn concrete_decoding_vector() {
    let dna = tri_integers_to_dna(TriIntegers { x: -5, y: -5, n: 1 });
    assert_eq!(dna, b"C".to_vec());
    let dna = tri_integers_to_dna(TriIntegers { x: 659, y: 783, n: 10 });
    assert_eq!(dna, b"ATTGCCGTAA".to_vec());
}

#[test]
fn zero_sign_decodes_to_unknown_symbol() {
    let dna = tri_integers_to_dna(TriIntegers { x: 0, y: 3, n: 2 });
    assert_eq!(dna[1], b'N');
}

#[test]
fn refused_block_length_is_reported() {
    let list = TriIntegersList::new(vec![
        TriIntegers::new(1, 1, 1),
        TriIntegers::new(1, 2, 0),
        TriIntegers::new(1, 2, 500),
    ]);
    assert_eq!(list.to_dna(1), Err(IcgrError::InvalidBlockLength(0)));
    let list = TriIntegersList::new(vec![TriIntegers::new(1, 2, 128)]);
    assert_eq!(list.to_dna(1), Err(IcgrError::InvalidBlockLength(128)));
}

#[test]
fn longest_decodable_block() {
    let dna = tri_integers_to_dna(TriIntegers::from_parts(i128::MAX, i128::MIN, 127));
    assert_eq!(dna.len(), 127);
    assert_eq!(dna[126], b'G');
    let list = TriIntegersList::new(vec![TriIntegers::new(1, 1, 101)]);
    assert_eq!(list.to_dna(1).unwrap().len(), 101);
}

#[test]
fn list_iterates_in_order() {
    let list = TriIntegersList::new(vec![TriIntegers::new(1, 2, 3), TriIntegers::new(4, 5, 6)]);
    let ns: Vec<usize> = list.iter().map(|t| t.n).collect();
    assert_eq!(ns, vec![3, 6]);
    assert_eq!(list.to_text(), "1,2,3;4,5,6");
}

#[test]
fn extreme_coordinates_are_written() {
    let list = TriIntegersList::new(vec![TriIntegers::from_parts(i128::MIN, i128::MAX, 1)]);
    assert_eq!(
        list.to_text(),
        "-170141183460469231731687303715884105728,170141183460469231731687303715884105727,1"
    );
}

#[test]
fn triple_text_is_bracketed() {
    assert_eq!(TriIntegers::from_parts(10, -5, 3).to_text(), "[10,-5,3]");
}
