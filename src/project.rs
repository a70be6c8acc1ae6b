use vstd::prelude::*;
use crate::cigar::{CigarOp, Strand};

verus! {

/// Total target span covered by a run of operations.
pub open spec fn sum_target(ops: Seq<CigarOp>) -> int
    decreases ops.len(),
{
    if ops.len() == 0 { 0 } else { ops[0].spec_target_delta() + sum_target(ops.drop_first()) }
}

/// Total query span covered by a run of operations (unsigned).
pub open spec fn sum_query(ops: Seq<CigarOp>) -> int
    decreases ops.len(),
{
    if ops.len() == 0 {
        0
    } else {
        ops[0].spec_query_delta(Strand::Forward) + sum_query(ops.drop_first())
    }
}

/// The alignment endpoints `(target_start, target_end, query_start, query_end)`
/// are ordered and non-negative, the target end lies below `i32::MAX`, and the
/// operations stay inside the representable range: they cover no more of the
/// query than `[query_start, query_end]` and end on the target at or below
/// `i32::MAX`.
pub open spec fn record_fits(record: (i32, i32, i32, i32, Strand), ops: Seq<CigarOp>) -> bool {
    &&& 0 <= record.0 <= record.1 < i32::MAX
    &&& 0 <= record.2 <= record.3
    &&& record.0 + sum_target(ops) <= i32::MAX
    &&& sum_query(ops) <= record.3 - record.2
}

pub open spec fn first_or(o: Option<int>, v: int) -> Option<int> {
    match o {
        Some(x) => Some(x),
        None => Some(v),
    }
}

pub open spec fn max_int(a: int, b: int) -> int {
    if a >= b { a } else { b }
}

pub open spec fn min_int(a: int, b: int) -> int {
    if a <= b { a } else { b }
}

/// The state of the CIGAR walk after the given operations: projected start,
/// projected end and the final query cursor. The walk stops once the target
/// cursor is past `e`.
pub open spec fn walk(
    ops: Seq<CigarOp>,
    s: int,
    e: int,
    strand: Strand,
    tpos: int,
    qpos: int,
    ps: Option<int>,
    pe: Option<int>,
) -> (Option<int>, Option<int>, int)
    decreases ops.len(),
{
    if ops.len() == 0 || tpos > e {
        (ps, pe, qpos)
    } else {
        let td = ops[0].spec_target_delta();
        let qd = ops[0].spec_query_delta(strand);
        let rest = ops.drop_first();
        if td == 0 {
            if s <= tpos <= e {
                walk(rest, s, e, strand, tpos, qpos + qd, first_or(ps, qpos), Some(qpos))
            } else {
                walk(rest, s, e, strand, tpos, qpos + qd, ps, pe)
            }
        } else {
            let os = max_int(tpos, s);
            let oe = min_int(tpos + td, e);
            if qd == 0 {
                if os < oe {
                    walk(rest, s, e, strand, tpos + td, qpos, first_or(ps, qpos), Some(qpos))
                } else {
                    walk(rest, s, e, strand, tpos + td, qpos, ps, pe)
                }
            } else {
                let fwd = strand == Strand::Forward;
                let q0 = if fwd { qpos + (os - tpos) } else { qpos - (os - tpos) };
                let q1 = if fwd { q0 + (oe - os) } else { q0 - (oe - os) };
                if os < oe {
                    walk(rest, s, e, strand, tpos + td, qpos + qd, first_or(ps, q0), Some(q1))
                } else {
                    walk(rest, s, e, strand, tpos + td, qpos + qd, ps, pe)
                }
            }
        }
    }
}

pub open spec fn opt_int(o: Option<i32>) -> Option<int> {
    match o {
        Some(x) => Some(x as int),
        None => None,
    }
}

pub open spec fn unwrap_or(o: Option<int>, v: int) -> int {
    match o {
        Some(x) => x,
        None => v,
    }
}

/// The query interval that target range `[s, e]` maps to through an alignment.
pub open spec fn projection(
    range: (int, int),
    record: (i32, i32, i32, i32, Strand),
    ops: Seq<CigarOp>,
) -> (int, int) {
    let strand = record.4;
    let q_init: int = if strand == Strand::Forward { record.2 as int } else { record.3 as int };
    let w = walk(ops, range.0, range.1, strand, record.0 as int, q_init, None, None);
    let (ps, pe) = if strand == Strand::Reverse { (w.1, w.0) } else { (w.0, w.1) };
    (unwrap_or(ps, record.2 as int), unwrap_or(pe, w.2))
}

proof fn lemma_sums_nonneg(ops: Seq<CigarOp>)
    ensures
        sum_target(ops) >= 0,
        sum_query(ops) >= 0,
    decreases ops.len(),
{
    if ops.len() > 0 {
        lemma_sums_nonneg(ops.drop_first());
    }
}

/// Maps a target sub-range through an alignment's CIGAR to the query interval it
/// covers; the pair comes back in ascending order on either strand.
pub fn project_target_range_through_alignment(
    target_range: (i32, i32),
    record: (i32, i32, i32, i32, Strand),
    cigar_ops: &[CigarOp],
) -> (r: (i32, i32))
    requires
        record_fits(record, cigar_ops@),
    ensures
        (r.0 as int, r.1 as int) == projection(
            (target_range.0 as int, target_range.1 as int),
            record,
            cigar_ops@,
        ),
{
    let (target_start, _target_end, query_start, query_end, strand) = record;
    let (range_start, range_end) = target_range;
    let ghost ops = cigar_ops@;
    let ghost s = range_start as int;
    let ghost e = range_end as int;
    let ghost q_init: int = if strand == Strand::Forward { query_start as int } else { query_end as int };
    let ghost total = walk(ops, s, e, strand, target_start as int, q_init, None, None);

    let mut target_pos: i32 = target_start;
    let mut query_pos: i32 = match strand {
        Strand::Forward => query_start,
        Strand::Reverse => query_end,
    };
    let mut projected_start: Option<i32> = None;
    let mut projected_end: Option<i32> = None;
    let mut i: usize = 0;
    let n: usize = cigar_ops.len();
    proof {
        assert(ops.subrange(0, n as int) =~= ops);
        lemma_sums_nonneg(ops);
    }
    while i < n && target_pos <= range_end
        invariant
            n == ops.len(),
            ops == cigar_ops@,
            0 <= i <= n,
            record_fits(record, ops),
            record == (target_start, _target_end, query_start, query_end, strand),
            target_start <= target_pos,
            target_pos + sum_target(ops.subrange(i as int, n as int)) == target_start + sum_target(ops),
            strand == Strand::Forward ==> query_pos + sum_query(ops.subrange(i as int, n as int))
                == query_start + sum_query(ops) && query_start <= query_pos,
            strand == Strand::Reverse ==> query_pos - sum_query(ops.subrange(i as int, n as int))
                == query_end - sum_query(ops) && query_pos <= query_end,
            s == range_start,
            e == range_end,
            total == walk(
                ops.subrange(i as int, n as int),
                s,
                e,
                strand,
                target_pos as int,
                query_pos as int,
                opt_int(projected_start),
                opt_int(projected_end),
            ),
        decreases n - i,
    {
        let ghost rest = ops.subrange(i as int, n as int);
        proof {
            assert(rest.drop_first() =~= ops.subrange(i + 1, n as int));
            assert(rest[0] == ops[i as int]);
            lemma_sums_nonneg(rest.drop_first());
            assert(sum_target(rest) == rest[0].spec_target_delta() + sum_target(rest.drop_first()));
            assert(sum_query(rest) == rest[0].spec_query_delta(Strand::Forward) + sum_query(
                rest.drop_first(),
            ));
            assert(rest[0].spec_len() >= 0);
        }
        let ghost t0 = target_pos as int;
        let ghost q0_ = query_pos as int;
        let ghost ps0 = opt_int(projected_start);
        let ghost pe0 = opt_int(projected_end);
        let op = &cigar_ops[i];
        let target_delta = op.target_delta();
        let query_delta = op.query_delta(strand);
        if target_delta == 0 {
            if target_pos >= range_start && target_pos <= range_end {
                if projected_start.is_none() {
                    projected_start = Some(query_pos);
                }
                projected_end = Some(query_pos);
            }
            query_pos = query_pos + query_delta;
        } else {
            let overlap_start: i32 = if target_pos >= range_start { target_pos } else { range_start };
            let reach: i32 = target_pos + target_delta;
            let overlap_end: i32 = if reach <= range_end { reach } else { range_end };
            if query_delta == 0 {
                if overlap_start < overlap_end {
                    if projected_start.is_none() {
                        projected_start = Some(query_pos);
                    }
                    projected_end = Some(query_pos);
                }
                target_pos = reach;
            } else {
                if overlap_start < overlap_end {
                    let overlap_length: i32 = overlap_end - overlap_start;
                    let (q0, q1) = match strand {
                        Strand::Forward => {
                            let q0: i32 = query_pos + (overlap_start - target_pos);
                            (q0, q0 + overlap_length)
                        },
                        Strand::Reverse => {
                            let q0: i32 = query_pos - (overlap_start - target_pos);
                            (q0, q0 - overlap_length)
                        },
                    };
                    if projected_start.is_none() {
                        projected_start = Some(q0);
                    }
                    projected_end = Some(q1);
                }
                target_pos = reach;
                query_pos = query_pos + query_delta;
            }
        }
        proof {
            assert(walk(rest, s, e, strand, t0, q0_, ps0, pe0) == walk(
                rest.drop_first(),
                s,
                e,
                strand,
                target_pos as int,
                query_pos as int,
                opt_int(projected_start),
                opt_int(projected_end),
            ));
        }
        i = i + 1;
    }
    let (first, second) = match strand {
        Strand::Forward => (projected_start, projected_end),
        Strand::Reverse => (projected_end, projected_start),
    };
    let a: i32 = match first {
        Some(x) => x,
        None => query_start,
    };
    let b: i32 = match second {
        Some(x) => x,
        None => query_pos,
    };
    (a, b)
}

} // verus!

verus! {

pub open spec fn walk_ordered(strand: Strand, qpos: int, ps: Option<int>, pe: Option<int>) -> bool {
    &&& ps.is_some() == pe.is_some()
    &&& ps.is_some() && strand == Strand::Forward ==> ps.unwrap() <= pe.unwrap() <= qpos
    &&& ps.is_some() && strand == Strand::Reverse ==> qpos <= pe.unwrap() <= ps.unwrap()
}

proof fn lemma_walk_ordered(
    ops: Seq<CigarOp>,
    s: int,
    e: int,
    strand: Strand,
    tpos: int,
    qpos: int,
    ps: Option<int>,
    pe: Option<int>,
)
    requires
        walk_ordered(strand, qpos, ps, pe),
    ensures
        ({
            let w = walk(ops, s, e, strand, tpos, qpos, ps, pe);
            &&& w.0.is_some() == w.1.is_some()
            &&& w.0.is_some() && strand == Strand::Forward ==> w.0.unwrap() <= w.1.unwrap()
            &&& w.0.is_some() && strand == Strand::Reverse ==> w.1.unwrap() <= w.0.unwrap()
            &&& strand == Strand::Forward ==> w.2 >= qpos
            &&& strand == Strand::Reverse ==> w.2 >= qpos - sum_query(ops)
        }),
    decreases ops.len(),
{
    lemma_sums_nonneg(ops);
    if ops.len() == 0 || tpos > e {
    } else {
        let td = ops[0].spec_target_delta();
        let qd = ops[0].spec_query_delta(strand);
        let rest = ops.drop_first();
        let os = max_int(tpos, s);
        let oe = min_int(tpos + td, e);
        let fwd = strand == Strand::Forward;
        let q0 = if fwd { qpos + (os - tpos) } else { qpos - (os - tpos) };
        let q1 = if fwd { q0 + (oe - os) } else { q0 - (oe - os) };
        assert(ops[0].spec_len() >= 0);
        if td == 0 {
            if s <= tpos <= e {
                lemma_walk_ordered(rest, s, e, strand, tpos, qpos + qd, first_or(ps, qpos), Some(qpos));
            } else {
                lemma_walk_ordered(rest, s, e, strand, tpos, qpos + qd, ps, pe);
            }
        } else if qd == 0 {
            if os < oe {
                lemma_walk_ordered(rest, s, e, strand, tpos + td, qpos, first_or(ps, qpos), Some(qpos));
            } else {
                lemma_walk_ordered(rest, s, e, strand, tpos + td, qpos, ps, pe);
            }
        } else if os < oe {
            lemma_walk_ordered(rest, s, e, strand, tpos + td, qpos + qd, first_or(ps, q0), Some(q1));
        } else {
            lemma_walk_ordered(rest, s, e, strand, tpos + td, qpos + qd, ps, pe);
        }
    }
}

/// A projected interval never runs backwards: its first coordinate is at most
/// its last, on either strand.
pub proof fn lemma_projection_ordered(
    range: (int, int),
    record: (i32, i32, i32, i32, Strand),
    ops: Seq<CigarOp>,
)
    requires
        record_fits(record, ops),
    ensures
        projection(range, record, ops).0 <= projection(range, record, ops).1,
{
    let strand = record.4;
    let q_init: int = if strand == Strand::Forward { record.2 as int } else { record.3 as int };
    lemma_walk_ordered(ops, range.0, range.1, strand, record.0 as int, q_init, None, None);
}

} // verus!

verus! {

pub open spec fn all_matches(ops: Seq<CigarOp>) -> bool {
    forall|i: int| 0 <= i < ops.len() ==> #[trigger] ops[i].spec_op() == '='
}

/// Query coordinate that target coordinate `t` maps to along a gap-free stretch
/// whose cursors stand at `(tpos, qpos)`.
pub open spec fn linear_at(strand: Strand, tpos: int, qpos: int, t: int) -> int {
    if strand == Strand::Forward { qpos + (t - tpos) } else { qpos - (t - tpos) }
}

proof fn lemma_walk_matches(
    ops: Seq<CigarOp>,
    s: int,
    e: int,
    strand: Strand,
    tpos: int,
    qpos: int,
    ps: Option<int>,
    pe: Option<int>,
)
    requires
        all_matches(ops),
        s < e,
        tpos + sum_target(ops) >= e,
        (tpos <= s && ps is None && pe is None) || (s <= tpos <= e && ps == Some(
            linear_at(strand, tpos, qpos, s),
        ) && pe == Some(qpos)) || (e <= tpos && ps == Some(linear_at(strand, tpos, qpos, s))
            && pe == Some(linear_at(strand, tpos, qpos, e))),
    ensures
        walk(ops, s, e, strand, tpos, qpos, ps, pe).0 == Some(linear_at(strand, tpos, qpos, s)),
        walk(ops, s, e, strand, tpos, qpos, ps, pe).1 == Some(linear_at(strand, tpos, qpos, e)),
    decreases ops.len(),
{
    lemma_sums_nonneg(ops);
    if ops.len() == 0 || tpos > e {
    } else {
        let td = ops[0].spec_target_delta();
        let qd = ops[0].spec_query_delta(strand);
        let rest = ops.drop_first();
        assert(ops[0].spec_op() == '=');
        assert(forall|i: int| 0 <= i < rest.len() ==> rest[i] == ops[i + 1]);
        let os = max_int(tpos, s);
        let oe = min_int(tpos + td, e);
        let fwd = strand == Strand::Forward;
        let q0 = if fwd { qpos + (os - tpos) } else { qpos - (os - tpos) };
        let q1 = if fwd { q0 + (oe - os) } else { q0 - (oe - os) };
        if td == 0 {
            if s <= tpos <= e {
                lemma_walk_matches(rest, s, e, strand, tpos, qpos + qd, first_or(ps, qpos), Some(qpos));
            } else {
                lemma_walk_matches(rest, s, e, strand, tpos, qpos + qd, ps, pe);
            }
        } else if os < oe {
            lemma_walk_matches(rest, s, e, strand, tpos + td, qpos + qd, first_or(ps, q0), Some(q1));
        } else {
            lemma_walk_matches(rest, s, e, strand, tpos + td, qpos + qd, ps, pe);
        }
    }
}

/// Through an alignment made only of `=` operations, a target range inside the
/// aligned span maps rigidly: shifted onto the query on the forward strand,
/// mirrored within the query span on the reverse strand.
pub proof fn lemma_projection_of_exact_match(
    range: (int, int),
    record: (i32, i32, i32, i32, Strand),
    ops: Seq<CigarOp>,
)
    requires
        record_fits(record, ops),
        all_matches(ops),
        sum_target(ops) == record.1 - record.0,
        record.3 - record.2 == record.1 - record.0,
        record.0 <= range.0 < range.1 <= record.1,
    ensures
        record.4 == Strand::Forward ==> projection(range, record, ops) == (
            record.2 + (range.0 - record.0),
            record.2 + (range.1 - record.0),
        ),
        record.4 == Strand::Reverse ==> projection(range, record, ops) == (
            record.2 + (record.1 - range.1),
            record.2 + (record.1 - range.0),
        ),
{
    let strand = record.4;
    let q_init: int = if strand == Strand::Forward { record.2 as int } else { record.3 as int };
    lemma_walk_matches(ops, range.0, range.1, strand, record.0 as int, q_init, None, None);
}

} // verus!

verus! {

/// Decides `record_fits` for an alignment and its operations.
pub fn check_record_fits(record: (i32, i32, i32, i32, Strand), cigar_ops: &[CigarOp]) -> (r: bool)
    ensures
        r == record_fits(record, cigar_ops@),
{
    let (target_start, target_end, query_start, query_end, _strand) = record;
    if !(0 <= target_start && target_start <= target_end && target_end < i32::MAX && 0 <= query_start
        && query_start <= query_end) {
        return false;
    }
    let ghost ops = cigar_ops@;
    let n: usize = cigar_ops.len();
    let t_room: i64 = i32::MAX as i64 - target_start as i64;
    let q_room: i64 = query_end as i64 - query_start as i64;
    let mut t_sum: i64 = 0;
    let mut q_sum: i64 = 0;
    let mut i: usize = n;
    proof {
        assert(ops.subrange(n as int, n as int) =~= Seq::<CigarOp>::empty());
    }
    while i > 0
        invariant
            n == ops.len(),
            ops == cigar_ops@,
            0 <= i <= n,
            record == (target_start, target_end, query_start, query_end, _strand),
            t_room == i32::MAX - target_start,
            q_room == query_end - query_start,
            t_sum == sum_target(ops.subrange(i as int, n as int)),
            q_sum == sum_query(ops.subrange(i as int, n as int)),
            0 <= t_sum <= t_room,
            0 <= q_sum <= q_room,
        decreases i,
    {
        i = i - 1;
        let ghost rest = ops.subrange(i as int, n as int);
        proof {
            assert(rest.drop_first() =~= ops.subrange(i + 1, n as int));
            assert(rest[0] == ops[i as int]);
            assert(sum_target(rest) == rest[0].spec_target_delta() + sum_target(rest.drop_first()));
            assert(sum_query(rest) == rest[0].spec_query_delta(Strand::Forward) + sum_query(
                rest.drop_first(),
            ));
        }
        let op = &cigar_ops[i];
        t_sum = t_sum + op.target_delta() as i64;
        q_sum = q_sum + op.query_delta(Strand::Forward) as i64;
        if t_sum > t_room || q_sum > q_room {
            proof {
                lemma_sums_nonneg(ops.subrange(0, i as int));
                lemma_sum_split(ops, i as int);
            }
            return false;
        }
    }
    proof {
        assert(ops.subrange(0, n as int) =~= ops);
    }
    true
}

proof fn lemma_sum_split(ops: Seq<CigarOp>, i: int)
    requires
        0 <= i <= ops.len(),
    ensures
        sum_target(ops) == sum_target(ops.subrange(0, i)) + sum_target(ops.subrange(i, ops.len() as int)),
        sum_query(ops) == sum_query(ops.subrange(0, i)) + sum_query(ops.subrange(i, ops.len() as int)),
    decreases i,
{
    if i == 0 {
        assert(ops.subrange(0, ops.len() as int) =~= ops);
        assert(ops.subrange(0, 0) =~= Seq::<CigarOp>::empty());
    } else {
        let t = ops.drop_first();
        lemma_sum_split(t, i - 1);
        assert(ops.subrange(0, i).drop_first() =~= t.subrange(0, i - 1));
        assert(ops.subrange(i, ops.len() as int) =~= t.subrange(i - 1, t.len() as int));
    }
}

} // verus!

verus! {

pub open spec fn within(o: Option<int>, lo: int, hi: int) -> bool {
    o matches Some(v) ==> lo <= v <= hi
}

proof fn lemma_walk_within(
    ops: Seq<CigarOp>,
    s: int,
    e: int,
    strand: Strand,
    tpos: int,
    qpos: int,
    ps: Option<int>,
    pe: Option<int>,
    lo: int,
    hi: int,
)
    requires
        strand == Strand::Forward ==> lo <= qpos && qpos + sum_query(ops) <= hi,
        strand == Strand::Reverse ==> lo <= qpos - sum_query(ops) && qpos <= hi,
        within(ps, lo, hi),
        within(pe, lo, hi),
    ensures
        ({
            let w = walk(ops, s, e, strand, tpos, qpos, ps, pe);
            within(w.0, lo, hi) && within(w.1, lo, hi) && lo <= w.2 <= hi
        }),
    decreases ops.len(),
{
    lemma_sums_nonneg(ops);
    if ops.len() == 0 || tpos > e {
    } else {
        let td = ops[0].spec_target_delta();
        let qd = ops[0].spec_query_delta(strand);
        let rest = ops.drop_first();
        lemma_sums_nonneg(rest);
        let os = max_int(tpos, s);
        let oe = min_int(tpos + td, e);
        let fwd = strand == Strand::Forward;
        let q0 = if fwd { qpos + (os - tpos) } else { qpos - (os - tpos) };
        let q1 = if fwd { q0 + (oe - os) } else { q0 - (oe - os) };
        assert(ops[0].spec_len() >= 0);
        assert(sum_query(ops) == ops[0].spec_query_delta(Strand::Forward) + sum_query(rest));
        if td == 0 {
            if s <= tpos <= e {
                lemma_walk_within(rest, s, e, strand, tpos, qpos + qd, first_or(ps, qpos), Some(qpos), lo, hi);
            } else {
                lemma_walk_within(rest, s, e, strand, tpos, qpos + qd, ps, pe, lo, hi);
            }
        } else if qd == 0 {
            if os < oe {
                lemma_walk_within(rest, s, e, strand, tpos + td, qpos, first_or(ps, qpos), Some(qpos), lo, hi);
            } else {
                lemma_walk_within(rest, s, e, strand, tpos + td, qpos, ps, pe, lo, hi);
            }
        } else if os < oe {
            lemma_walk_within(rest, s, e, strand, tpos + td, qpos + qd, first_or(ps, q0), Some(q1), lo, hi);
        } else {
            lemma_walk_within(rest, s, e, strand, tpos + td, qpos + qd, ps, pe, lo, hi);
        }
    }
}

/// A projected interval lies inside the alignment's query span
/// `[query_start, query_end]`, on either strand.
pub proof fn lemma_projection_within_query(
    range: (int, int),
    record: (i32, i32, i32, i32, Strand),
    ops: Seq<CigarOp>,
)
    requires
        record_fits(record, ops),
    ensures
        record.2 <= projection(range, record, ops).0,
        projection(range, record, ops).1 <= record.3,
{
    let strand = record.4;
    let q_init: int = if strand == Strand::Forward { record.2 as int } else { record.3 as int };
    lemma_sums_nonneg(ops);
    lemma_walk_within(ops, range.0, range.1, strand, record.0 as int, q_init, None, None, record.2 as int, record.3 as int);
}

} // verus!
