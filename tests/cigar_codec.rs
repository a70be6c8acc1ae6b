use impg::cigar::{parse_cigar_to_delta, CigarOp, ParseErr, Strand};
use impg::codec::{compress_cigar, decompress_cigar};

#[test]
fn test_parse_cigar_to_delta_basic() {
    let cigar = "10=5I5D";
    let cigar_ops = vec![
        CigarOp::new(10, '='),
        CigarOp::new(5, 'I'),
        CigarOp::new(5, 'D'),
    ];
    let cigar_ops: Vec<_> = cigar_ops.into_iter().map(|op| op.unwrap()).collect();
    let ops = parse_cigar_to_delta(cigar).unwrap();
    assert_eq!(ops, cigar_ops);
}

#[test]
fn test_parse_cigar_to_delta_invalid() {
    let cigar = "10=5Q";
    assert!(parse_cigar_to_delta(cigar).is_err());
}

#[test]
fn parse_rejects_unterminated_digits_and_missing_length() {
    assert_eq!(parse_cigar_to_delta("10=5"), Err(ParseErr::InvalidCigarFormat));
    assert_eq!(parse_cigar_to_delta("=5I"), Err(ParseErr::InvalidCigarFormat));
    assert_eq!(parse_cigar_to_delta("10M"), Err(ParseErr::InvalidCigarFormat));
    assert_eq!(parse_cigar_to_delta("1073741824="), Err(ParseErr::InvalidCigarFormat));
    assert_eq!(parse_cigar_to_delta(""), Ok(vec![]));
}

#[test]
fn parse_accepts_zero_length_and_largest_length() {
    let ops = parse_cigar_to_delta("0=1073741823X").unwrap();
    assert_eq!(ops.len(), 2);
    assert_eq!(ops[0].len(), 0);
    assert!(ops[0].is_empty());
    assert_eq!(ops[1].op(), 'X');
    assert_eq!(ops[1].len(), 1073741823);
}

#[test]
fn op_packing_and_deltas() {
    let d = CigarOp::new(7, 'D').unwrap();
    assert_eq!(d.val, (3u32 << 30) | 7);
    assert_eq!(d.op(), 'D');
    assert_eq!(d.target_delta(), 7);
    assert_eq!(d.query_delta(Strand::Forward), 0);
    let i = CigarOp::new(4, 'I').unwrap();
    assert_eq!(i.target_delta(), 0);
    assert_eq!(i.query_delta(Strand::Forward), 4);
    assert_eq!(i.query_delta(Strand::Reverse), -4);
    let x = CigarOp::new(9, 'X').unwrap();
    assert_eq!(x.target_delta(), 9);
    assert_eq!(x.query_delta(Strand::Reverse), -9);
}

#[test]
fn op_rejects_unknown_code_and_long_length() {
    assert_eq!(CigarOp::new(5, 'M'), Err(ParseErr::InvalidCigarOp));
    assert_eq!(CigarOp::new(1 << 30, '='), Err(ParseErr::InvalidCigarOp));
    assert_eq!(CigarOp::new(-1, '='), Err(ParseErr::InvalidCigarOp));
}

#[test]
fn compression_round_trip() {
    let ops = parse_cigar_to_delta("10=5I5D50=50I35=").unwrap();
    let blob = compress_cigar(&ops);
    assert!(!blob.is_empty());
    assert_eq!(compress_cigar(&ops), blob);
    assert!(blob.starts_with(&[0xFD, b'7', b'z', b'X', b'Z', 0x00]));
    let back = decompress_cigar(&blob).unwrap();
    assert_eq!(back, ops);
}

#[test]
fn decompress_rejects_garbage() {
    assert!(decompress_cigar(&[1, 2, 3, 4]).is_none());
}
