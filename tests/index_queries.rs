use impg::cigar::{ParseErr, Strand};
use impg::impg::{Impg, QueryInterval};
use impg::paf::PafRecord;

fn record(q: &str, t: &str, ts: usize, te: usize, qs: usize, qe: usize, cigar: Option<&str>) -> PafRecord {
    PafRecord {
        query_name: q.to_string(),
        query_length: 1000,
        query_start: qs,
        query_end: qe,
        target_name: t.to_string(),
        target_length: 1000,
        target_start: ts,
        target_end: te,
        cigar: cigar.map(|c| c.to_string()),
        strand: Strand::Forward,
    }
}

fn sample() -> Impg {
    let records = vec![
        record("q1", "t1", 0, 100, 50, 200, Some("10=5I5D50=50I35=")),
        record("q2", "q1", 50, 200, 0, 150, Some("150=")),
        record("q3", "t1", 0, 100, 0, 100, Some("10M")),
    ];
    Impg::from_paf_records(&records).unwrap()
}

fn iv(first: i32, last: i32, metadata: u32) -> QueryInterval {
    QueryInterval { first, last, metadata }
}

fn sorted(mut v: Vec<QueryInterval>) -> Vec<(i32, i32, u32)> {
    let mut out: Vec<(i32, i32, u32)> = v.drain(..).map(|q| (q.first, q.last, q.metadata)).collect();
    out.sort();
    out
}

#[test]
fn build_interns_names_and_drops_bad_records() {
    let imp = sample();
    assert_eq!(imp.seq_index.names.len(), 4);
    assert_eq!(imp.seq_index.names[0], "q1");
    assert_eq!(imp.seq_index.names[1], "t1");
    assert_eq!(imp.trees.get(&1).unwrap().entries.len(), 1);
    assert_eq!(imp.trees.get(&0).unwrap().entries.len(), 1);
    assert_eq!(imp.targets.len(), 2);
}

#[test]
fn query_starts_with_identity_then_projects() {
    let imp = sample();
    let r = imp.query(1, 0, 100);
    assert_eq!(r, vec![iv(0, 100, 1), iv(50, 200, 0)]);
    let r = imp.query(1, 50, 66);
    assert_eq!(r, vec![iv(50, 66, 1), iv(100, 166, 0)]);
}

#[test]
fn query_unknown_target_gives_identity_only() {
    let imp = sample();
    assert_eq!(imp.query(7, 3, 9), vec![iv(3, 9, 7)]);
}

#[test]
fn transitive_query_follows_chains() {
    let imp = sample();
    let r = imp.query_transitive(1, 0, 100);
    assert_eq!(r[0], iv(0, 100, 1));
    assert_eq!(sorted(r), vec![(0, 100, 1), (0, 150, 2), (50, 200, 0)]);
}

#[test]
fn transitive_query_contains_direct_query() {
    let imp = sample();
    let direct = imp.query(0, 60, 120);
    let trans = imp.query_transitive(0, 60, 120);
    for d in &direct {
        assert!(trans.contains(d));
    }
    assert_eq!(trans[..direct.len()], direct[..]);
}

#[test]
fn transitive_query_terminates_on_cycles() {
    let records = vec![
        record("a", "b", 0, 10, 0, 10, Some("10=")),
        record("b", "a", 0, 10, 0, 10, Some("10=")),
    ];
    let imp = Impg::from_paf_records(&records).unwrap();
    let r = imp.query_transitive(1, 0, 10);
    assert_eq!(r[0], iv(0, 10, 1));
    assert!(r.len() >= 3);
}

#[test]
fn snapshot_round_trip_answers_alike() {
    let imp = sample();
    let snap = imp.to_serializable();
    let back = Impg::from_serializable(snap).unwrap();
    for (t, s, e) in [(1u32, 0i32, 100i32), (1, 50, 66), (0, 60, 120), (2, 0, 5)] {
        assert_eq!(sorted(imp.query(t, s, e)), sorted(back.query(t, s, e)));
    }
    assert_eq!(back.seq_index.names, imp.seq_index.names);
}

#[test]
fn snapshot_with_wrong_span_is_corrupt() {
    let imp = sample();
    let mut snap = imp.to_serializable();
    snap.0[0].1[0].first += 1;
    assert!(matches!(Impg::from_serializable(snap), Err(ParseErr::CorruptSnapshot)));
}

#[test]
fn snapshot_with_bad_blob_is_corrupt() {
    let imp = sample();
    let mut snap = imp.to_serializable();
    snap.0[0].1[0].metadata.compressed_cigar_ops = vec![0, 1, 2];
    assert!(matches!(Impg::from_serializable(snap), Err(ParseErr::CorruptSnapshot)));
}

#[test]
fn record_without_cigar_is_kept() {
    let records = vec![record("x", "y", 5, 5, 7, 7, None)];
    let imp = Impg::from_paf_records(&records).unwrap();
    assert_eq!(imp.query(1, 5, 5), vec![iv(5, 5, 1), iv(7, 7, 0)]);
}

fn single(cigar: &str, ts: usize, te: usize, qs: usize, qe: usize) -> (Impg, u32, u32) {
    let imp = Impg::from_paf_records(&[record("q", "t", ts, te, qs, qe, Some(cigar))]).unwrap();
    let t = imp.seq_index.get_id(&"t".to_string()).unwrap();
    let q = imp.seq_index.get_id(&"q".to_string()).unwrap();
    (imp, t, q)
}

#[test]
fn build_query_with_insertion() {
    let (imp, t, q) = single("50=10I50=", 50, 150, 50, 160);
    assert_eq!(imp.query(t, 50, 150), vec![iv(50, 150, t), iv(50, 160, q)]);
}

#[test]
fn build_query_with_deletion() {
    let (imp, t, q) = single("50=10D40=", 50, 150, 50, 140);
    assert_eq!(imp.query(t, 50, 150), vec![iv(50, 150, t), iv(50, 140, q)]);
}

#[test]
fn build_query_point_touch() {
    let (imp, t, q) = single("100=", 0, 100, 0, 100);
    assert_eq!(imp.query(t, 100, 120), vec![iv(100, 120, t), iv(0, 100, q)]);
}

#[test]
fn build_drops_match_operator_but_interns_names() {
    let imp = Impg::from_paf_records(&[record("seq1", "t1", 30, 40, 10, 20, Some("10M"))]).unwrap();
    assert!(imp.trees.is_empty());
    assert_eq!(imp.seq_index.names, vec!["seq1".to_string(), "t1".to_string()]);
}

#[test]
fn build_drops_record_reaching_largest_coordinate() {
    let imp = Impg::from_paf_records(&[record("a", "b", 0, 2147483647, 0, 0, None)]).unwrap();
    assert!(imp.trees.is_empty());
}

#[test]
fn two_builds_answer_alike() {
    let a = sample();
    let b = sample();
    assert_eq!(a.seq_index.names, b.seq_index.names);
    assert_eq!(sorted(a.query(1, 0, 100)), sorted(b.query(1, 0, 100)));
}

#[test]
fn transitive_without_tree_is_identity() {
    let imp = sample();
    assert_eq!(imp.query_transitive(2, 1, 4), vec![iv(1, 4, 2)]);
}

#[test]
fn snapshot_round_trip_transitive_alike() {
    let imp = sample();
    let back = Impg::from_serializable(imp.to_serializable()).unwrap();
    assert_eq!(sorted(imp.query_transitive(1, 0, 100)), sorted(back.query_transitive(1, 0, 100)));
}

#[test]
fn snapshot_with_repeated_names_is_corrupt() {
    let imp = sample();
    let mut snap = imp.to_serializable();
    snap.1.names.push("q1".to_string());
    assert!(matches!(Impg::from_serializable(snap), Err(ParseErr::CorruptSnapshot)));
}
