use impg::cigar::{CigarOp, Strand};
use impg::project::project_target_range_through_alignment;

#[test]
fn test_project_target_range_through_alignment_forward() {
    let target_range = (100, 200);
    let record = (100, 200, 0, 100, Strand::Forward);
    let cigar_ops = vec![CigarOp::new(100, '=').unwrap()];
    let (start, end) = project_target_range_through_alignment(target_range, record, &cigar_ops);

    assert_eq!(start, 0);
    assert_eq!(end, 100);
}

#[test]
fn test_project_target_range_through_alignment_reverse() {
    let target_range = (100, 200);
    let record = (100, 200, 0, 100, Strand::Reverse);
    let cigar_ops = vec![CigarOp::new(100, '=').unwrap()];
    let (start, end) = project_target_range_through_alignment(target_range, record, &cigar_ops);
    println!("Final result: ({}, {})", start, end);

    assert_eq!(start, 0);
    assert_eq!(end, 100);
}

#[test]
fn test_project_target_range_through_alignment() {
    let cigar_ops = vec![
        CigarOp::new(10, '='),
        CigarOp::new(5, 'I'),
        CigarOp::new(5, 'D'),
        CigarOp::new(50, '='),
        CigarOp::new(50, 'I'),
        CigarOp::new(35, '='),
    ];
    let cigar_ops: Vec<_> = cigar_ops.into_iter().map(|op| op.unwrap()).collect();
    let base = (0, 100, 50, 200, Strand::Forward);
    {
        let result = project_target_range_through_alignment((0, 100), base, &cigar_ops);
        assert_eq!(result, (50, 200));
    }
    {
        let result = project_target_range_through_alignment((50, 55), base, &cigar_ops);
        assert_eq!(result, (100, 105));
    }
    {
        let result = project_target_range_through_alignment((50, 64), base, &cigar_ops);
        assert_eq!(result, (100, 114));
    }
    {
        let result = project_target_range_through_alignment((65, 65), base, &cigar_ops);
        assert_eq!(result, (115, 115));
    }
    {
        let result = project_target_range_through_alignment((50, 65), base, &cigar_ops);
        assert_eq!(result, (100, 115));
    }
    {
        let result = project_target_range_through_alignment((50, 66), base, &cigar_ops);
        assert_eq!(result, (100, 166));
    }
    {
        let result = project_target_range_through_alignment((70, 95), base, &cigar_ops);
        assert_eq!(result, (170, 195));
    }
}

#[test]
fn test_forward_projection_simple() {
    let target_range = (100, 200);
    let record = (100, 200, 100, 200, Strand::Forward);
    let cigar_ops = vec![CigarOp::new(100, '=').unwrap()];
    let (start, end) = project_target_range_through_alignment(target_range, record, &cigar_ops);
    assert_eq!((start, end), (100, 200));
}

#[test]
fn test_reverse_projection_simple() {
    let target_range = (100, 200);
    let record = (100, 200, 100, 200, Strand::Reverse);
    let cigar_ops = vec![CigarOp::new(100, '=').unwrap()];
    let (start, end) = project_target_range_through_alignment(target_range, record, &cigar_ops);
    assert_eq!((start, end), (100, 200));
}

#[test]
fn test_forward_projection_with_insertions() {
    let target_range = (50, 150);
    let record = (50, 150, 50, 160, Strand::Forward);
    let cigar_ops = vec![
        CigarOp::new(50, '='),
        CigarOp::new(10, 'I'),
        CigarOp::new(50, '='),
    ];
    let cigar_ops: Vec<_> = cigar_ops.into_iter().map(|op| op.unwrap()).collect();
    let (start, end) = project_target_range_through_alignment(target_range, record, &cigar_ops);
    assert_eq!((start, end), (50, 160));
}

#[test]
fn test_forward_projection_with_deletions() {
    let target_range = (50, 150);
    let record = (50, 150, 50, 140, Strand::Forward);
    let cigar_ops = vec![
        CigarOp::new(50, '='),
        CigarOp::new(10, 'D'),
        CigarOp::new(40, '='),
    ];
    let cigar_ops: Vec<_> = cigar_ops.into_iter().map(|op| op.unwrap()).collect();
    let (start, end) = project_target_range_through_alignment(target_range, record, &cigar_ops);
    assert_eq!((start, end), (50, 140));
}

#[test]
fn test_reverse_projection_with_mixed_operations() {
    let target_range = (150, 250);
    let record = (100, 200, 200, 300, Strand::Reverse);
    let cigar_ops = vec![
        CigarOp::new(50, '='),
        CigarOp::new(10, 'D'),
        CigarOp::new(10, 'I'),
        CigarOp::new(40, '='),
    ];
    let cigar_ops: Vec<_> = cigar_ops.into_iter().map(|op| op.unwrap()).collect();
    let (start, end) = project_target_range_through_alignment(target_range, record, &cigar_ops);
    assert_eq!((start, end), (200, 250));
}

#[test]
fn test_edge_case_projection() {
    let target_range = (0, 10);
    let record = (0, 50, 0, 40, Strand::Forward);
    let cigar_ops = vec![
        CigarOp::new(10, '='),
        CigarOp::new(20, 'D'),
        CigarOp::new(8, '='),
        CigarOp::new(1, 'X'),
        CigarOp::new(1, '='),
        CigarOp::new(10, 'I'),
        CigarOp::new(10, '='),
    ];
    let cigar_ops: Vec<_> = cigar_ops.into_iter().map(|op| op.unwrap()).collect();
    let (start, end) = project_target_range_through_alignment(target_range, record, &cigar_ops);
    println!("{} {}", start, end);
    assert_eq!((start, end), (0, 10));
}

#[test]
fn exact_match_shifts_forward_and_mirrors_reverse() {
    let ops = vec![CigarOp::new(40, '=').unwrap(), CigarOp::new(60, '=').unwrap()];
    let fwd = project_target_range_through_alignment((30, 70), (10, 110, 500, 600, Strand::Forward), &ops);
    assert_eq!(fwd, (520, 560));
    let rev = project_target_range_through_alignment((30, 70), (10, 110, 500, 600, Strand::Reverse), &ops);
    assert_eq!(rev, (540, 580));
}

#[test]
fn projected_interval_is_ordered_on_reverse_strand() {
    let ops = vec![
        CigarOp::new(5, 'I').unwrap(),
        CigarOp::new(20, '=').unwrap(),
        CigarOp::new(5, 'D').unwrap(),
        CigarOp::new(3, 'X').unwrap(),
    ];
    let (a, b) = project_target_range_through_alignment((2, 12), (0, 28, 100, 128, Strand::Reverse), &ops);
    assert!(a <= b);
    assert_eq!((a, b), (111, 121));
}

#[test]
fn range_outside_alignment_falls_back_to_cursor() {
    let ops = vec![CigarOp::new(10, '=').unwrap()];
    let r = project_target_range_through_alignment((50, 60), (0, 10, 5, 15, Strand::Forward), &ops);
    assert_eq!(r, (5, 15));
}
