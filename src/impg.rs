use vstd::prelude::*;
use vstd::multiset::Multiset;
use std::collections::HashMap;
use vstd::utf8::encode_utf8;
use crate::cigar::{CigarOp, ParseErr, Strand, parse_cigar, parse_cigar_to_delta};
use crate::codec::{blob_ops, compress_cigar, decompress_cigar, op_words, words_encoding, xz_decompressed};
use crate::index::{CoiTree, tree_items, touches, build_tree, stab_tree, tree_contents};
use crate::paf::PafRecord;
use crate::project::{projection, record_fits, check_record_fits, project_target_range_through_alignment};
use crate::seqidx::{SequenceIndex, add_name};

verus! {

broadcast use vstd::seq_lib::group_to_multiset_ensures, vstd::multiset::group_multiset_axioms,
    vstd::std_specs::hash::group_hash_axioms;

/// A result interval: `[first, last]` on the sequence with id `metadata`.
#[derive(Clone, Copy, Debug, PartialEq, Eq, Structural)]
pub struct QueryInterval {
    pub first: i32,
    pub last: i32,
    pub metadata: u32,
}

pub open spec fn iv_triple(q: QueryInterval) -> (int, int, u32) {
    (q.first as int, q.last as int, q.metadata)
}

/// One alignment as stored in the index: its endpoints on target and query, its
/// strand, and its CIGAR operations in compressed form.
#[derive(Debug)]
pub struct QueryMetadata {
    pub query_id: u32,
    pub compressed_cigar_ops: Vec<u8>,
    pub target_start: i32,
    pub target_end: i32,
    pub query_start: i32,
    pub query_end: i32,
    pub strand: Strand,
}

impl QueryMetadata {
    pub open spec fn record(&self) -> (i32, i32, i32, i32, Strand) {
        (self.target_start, self.target_end, self.query_start, self.query_end, self.strand)
    }

    /// The operations the compressed blob holds.
    pub open spec fn ops(&self) -> Seq<CigarOp> {
        match blob_ops(self.compressed_cigar_ops@) {
            Some(o) => o,
            None => Seq::empty(),
        }
    }

    /// The blob decodes and the operations fit the endpoints.
    pub open spec fn wf(&self) -> bool {
        &&& blob_ops(self.compressed_cigar_ops@) is Some
        &&& record_fits(self.record(), self.ops())
    }

    /// Two records that hold the same alignment.
    pub open spec fn same(&self, o: &QueryMetadata) -> bool {
        &&& self.query_id == o.query_id
        &&& self.compressed_cigar_ops@ == o.compressed_cigar_ops@
        &&& self.record() == o.record()
    }

    /// The interval that target range `[s, e]` projects to on this alignment's query.
    pub open spec fn answer(&self, s: i32, e: i32) -> (int, int, u32) {
        let p = projection((s as int, e as int), self.record(), self.ops());
        (p.0, p.1, self.query_id)
    }

    fn set_cigar_ops(&mut self, cigar_ops: &[CigarOp])
        ensures
            xz_decompressed(final(self).compressed_cigar_ops@) == Some(words_encoding(op_words(cigar_ops@))),
            blob_ops(final(self).compressed_cigar_ops@) == Some(cigar_ops@),
            final(self).query_id == old(self).query_id,
            final(self).record() == old(self).record(),
    {
        self.compressed_cigar_ops = compress_cigar(cigar_ops);
    }

    fn get_cigar_ops(&self) -> (r: Vec<CigarOp>)
        requires
            blob_ops(self.compressed_cigar_ops@) is Some,
        ensures
            r@ == self.ops(),
    {
        match decompress_cigar(self.compressed_cigar_ops.as_slice()) {
            Some(ops) => ops,
            None => Vec::new(),
        }
    }

    /// A copy holding the same alignment.
    pub fn duplicate(&self) -> (r: QueryMetadata)
        ensures
            r.same(self),
    {
        QueryMetadata {
            query_id: self.query_id,
            compressed_cigar_ops: self.compressed_cigar_ops.clone(),
            target_start: self.target_start,
            target_end: self.target_end,
            query_start: self.query_start,
            query_end: self.query_end,
            strand: self.strand,
        }
    }

    /// Projects `[s, e]` through this alignment.
    pub fn project(&self, s: i32, e: i32) -> (r: QueryInterval)
        requires
            self.wf(),
        ensures
            iv_triple(r) == self.answer(s, e),
    {
        let ops = self.get_cigar_ops();
        let (first, last) = project_target_range_through_alignment(
            (s, e),
            (self.target_start, self.target_end, self.query_start, self.query_end, self.strand),
            ops.as_slice(),
        );
        QueryInterval { first, last, metadata: self.query_id }
    }
}

/// The intervals an index over `es` stores: each entry's target span, tagged
/// with its position.
pub open spec fn index_items(es: Seq<QueryMetadata>) -> Multiset<(i32, i32, u32)> {
    Seq::new(es.len(), |i: int| (es[i].target_start, es[i].target_end, i as u32)).to_multiset()
}

pub open spec fn touching(s: i32, e: i32) -> spec_fn((i32, i32, u32)) -> bool {
    |item: (i32, i32, u32)| touches(s, e, item)
}

/// The alignments onto one target, in an interval tree over their target spans.
pub struct IntervalIndex {
    pub tree: CoiTree,
    pub entries: Vec<QueryMetadata>,
}

impl IntervalIndex {
    pub open spec fn wf(&self) -> bool {
        &&& self.entries@.len() < u32::MAX
        &&& forall|i: int| 0 <= i < self.entries@.len() ==> #[trigger] self.entries@[i].wf()
        &&& tree_items(self.tree) == index_items(self.entries@)
    }

    /// The answers, in order, for a sequence of stabbed items.
    pub open spec fn hit_answers(&self, hits: Seq<(i32, i32, u32)>, s: i32, e: i32) -> Seq<(int, int, u32)> {
        hits.map_values(|h: (i32, i32, u32)| self.entries@[h.2 as int].answer(s, e))
    }

    /// `r` holds, in some order, one projection of `[s, e]` per stored alignment
    /// whose target span touches `[s, e]`.
    pub open spec fn answers_range(&self, s: i32, e: i32, r: Seq<QueryInterval>) -> bool {
        exists|hits: Seq<(i32, i32, u32)>|
            #[trigger] hits.to_multiset() == index_items(self.entries@).filter(touching(s, e))
                && r.map_values(|q: QueryInterval| iv_triple(q)) == self.hit_answers(hits, s, e)
    }

    /// `q` is the projection of `[s, e]` through one of the stored alignments.
    pub open spec fn answers_entry(&self, q: QueryInterval, s: i32, e: i32) -> bool {
        exists|k: int| 0 <= k < self.entries@.len() && iv_triple(q) == #[trigger] self.entries@[k].answer(s, e)
    }

    /// Indexes the given alignments by target span.
    pub fn new(entries: Vec<QueryMetadata>) -> (r: IntervalIndex)
        requires
            entries@.len() < u32::MAX,
            forall|i: int| 0 <= i < entries@.len() ==> #[trigger] entries@[i].wf(),
        ensures
            r.wf(),
            r.entries@ == entries@,
    {
        let mut items: Vec<(i32, i32, u32)> = Vec::new();
        let mut i: usize = 0;
        while i < entries.len()
            invariant
                0 <= i <= entries@.len() < u32::MAX,
                items@ =~= Seq::new(i as nat, |k: int| (entries@[k].target_start, entries@[k].target_end, k as u32)),
                forall|k: int| 0 <= k < entries@.len() ==> #[trigger] entries@[k].wf(),
            decreases entries@.len() - i,
        {
            items.push((entries[i].target_start, entries[i].target_end, i as u32));
            i = i + 1;
        }
        proof {
            assert forall|k: int| 0 <= k < items@.len() implies 0 <= (#[trigger] items@[k]).0 <= items@[k].1
                < i32::MAX by {
                assert(entries@[k].wf());
            }
        }
        let tree = build_tree(&items);
        IntervalIndex { tree, entries }
    }

    /// Projects `[s, e]` through every stored alignment whose span touches it.
    pub fn query_range(&self, s: i32, e: i32) -> (r: Vec<QueryInterval>)
        requires
            self.wf(),
        ensures
            self.answers_range(s, e, r@),
            forall|i: int| 0 <= i < r@.len() ==> #[trigger] self.answers_entry(r@[i], s, e),
    {
        let hits = stab_tree(&self.tree, s, e);
        let mut out: Vec<QueryInterval> = Vec::new();
        let mut j: usize = 0;
        while j < hits.len()
            invariant
                self.wf(),
                0 <= j <= hits@.len(),
                hits@.to_multiset() == index_items(self.entries@).filter(touching(s, e)),
                out@.map_values(|q: QueryInterval| iv_triple(q)) =~= self.hit_answers(
                    hits@.subrange(0, j as int),
                    s,
                    e,
                ),
                out@.len() == j,
                forall|i: int| 0 <= i < out@.len() ==> #[trigger] self.answers_entry(out@[i], s, e),
            decreases hits@.len() - j,
        {
            let h = hits[j];
            proof {
                assert(hits@.contains(h));
                assert(hits@.to_multiset().count(h) > 0);
                assert(index_items(self.entries@).count(h) > 0);
                let items = Seq::new(
                    self.entries@.len(),
                    |k: int| (self.entries@[k].target_start, self.entries@[k].target_end, k as u32),
                );
                assert(items.contains(h));
                let k = choose|k: int| 0 <= k < items.len() && items[k] == h;
                assert(h.2 == k as u32);
            }
            let idx = h.2 as usize;
            let iv = self.entries[idx].project(s, e);
            proof {
                assert(iv_triple(iv) == self.entries@[idx as int].answer(s, e));
                assert(self.answers_entry(iv, s, e));
            }
            let ghost old_out = out@;
            out.push(iv);
            j = j + 1;
            proof {
                assert(hits@.subrange(0, j as int) =~= hits@.subrange(0, j - 1).push(h));
                assert(out@.map_values(|q: QueryInterval| iv_triple(q)) =~= old_out.map_values(
                    |q: QueryInterval| iv_triple(q),
                ).push(iv_triple(iv)));
                assert(self.hit_answers(hits@.subrange(0, j as int), s, e) =~= self.hit_answers(
                    hits@.subrange(0, j - 1),
                    s,
                    e,
                ).push(self.entries@[idx as int].answer(s, e)));
            }
        }
        proof {
            assert(hits@.subrange(0, hits@.len() as int) =~= hits@);
            assert(hits@.to_multiset() == index_items(self.entries@).filter(touching(s, e))
                && out@.map_values(|q: QueryInterval| iv_triple(q)) == self.hit_answers(hits@, s, e));
        }
        out
    }
}

} // verus!

verus! {

/// The operations a record's CIGAR denotes; none given means no operations.
pub open spec fn record_ops(rec: PafRecord) -> Option<Seq<CigarOp>> {
    match rec.cigar {
        Some(c) => parse_cigar(encode_utf8(c@)),
        None => Some(Seq::empty()),
    }
}

/// `m` stores alignment `rec`: same endpoints and strand, and its blob holds the
/// record's parsed CIGAR.
#[verifier::opaque]
pub open spec fn entry_of(m: QueryMetadata, rec: PafRecord) -> bool {
    &&& record_ops(rec) is Some
    &&& blob_ops(m.compressed_cigar_ops@) == record_ops(rec)
    &&& m.target_start as int == rec.target_start as int
    &&& m.target_end as int == rec.target_end as int
    &&& m.query_start as int == rec.query_start as int
    &&& m.query_end as int == rec.query_end as int
    &&& m.strand == rec.strand
}

/// A record can be indexed: its CIGAR parses, its endpoints fit in `i32`, and
/// its operations fit its endpoints.
#[verifier::opaque]
pub open spec fn record_indexable(rec: PafRecord) -> bool {
    &&& record_ops(rec) is Some
    &&& rec.target_start <= i32::MAX && rec.target_end <= i32::MAX
    &&& rec.query_start <= i32::MAX && rec.query_end <= i32::MAX
    &&& record_fits(
        (rec.target_start as i32, rec.target_end as i32, rec.query_start as i32, rec.query_end as i32, rec.strand),
        record_ops(rec).unwrap(),
    )
}

/// The names interned from the first `n` records, query name before target name.
pub open spec fn interned_names(records: Seq<PafRecord>, n: nat) -> Seq<Seq<char>>
    decreases n,
{
    if n == 0 {
        Seq::empty()
    } else {
        add_name(
            add_name(interned_names(records, (n - 1) as nat), records[n - 1].query_name@),
            records[n - 1].target_name@,
        )
    }
}

/// Positions, in order, of the first `n` records that can be indexed and align
/// onto the target named `tname`.
pub open spec fn kept(records: Seq<PafRecord>, n: nat, tname: Seq<char>) -> Seq<int>
    decreases n,
{
    if n == 0 {
        Seq::empty()
    } else {
        let p = kept(records, (n - 1) as nat, tname);
        if record_indexable(records[n - 1]) && records[n - 1].target_name@ == tname {
            p.push(n - 1)
        } else {
            p
        }
    }
}

/// `m` stores `rec`, with its query named as in `names`.
pub open spec fn stored_as(m: QueryMetadata, rec: PafRecord, names: Seq<Seq<char>>) -> bool {
    &&& entry_of(m, rec)
    &&& m.query_id < names.len()
    &&& names[m.query_id as int] == rec.query_name@
}

/// `entries` store, one each and in order, the records at positions `ks`.
pub open spec fn tree_holds(entries: Seq<QueryMetadata>, records: Seq<PafRecord>, names: Seq<Seq<char>>, ks: Seq<int>) -> bool {
    &&& entries.len() == ks.len()
    &&& forall|j: int| 0 <= j < ks.len() ==> stored_as(#[trigger] entries[j], records[ks[j]], names)
}

/// Builds the stored form of one record; `None` exactly when it cannot be indexed.
fn make_entry(rec: &PafRecord, query_id: u32) -> (r: Option<QueryMetadata>)
    ensures
        r matches Some(m) ==> m.wf() && entry_of(m, *rec) && m.query_id == query_id,
        r is Some <==> record_indexable(*rec),
{
    reveal(entry_of);
    reveal(record_indexable);
    let ops: Vec<CigarOp> = match &rec.cigar {
        Some(c) => match parse_cigar_to_delta(c.as_str()) {
            Ok(ops) => ops,
            Err(_) => {
                return None;
            },
        },
        None => Vec::new(),
    };
    let max: usize = i32::MAX as usize;
    if rec.target_start > max || rec.target_end > max || rec.query_start > max || rec.query_end > max {
        return None;
    }
    let record = (
        rec.target_start as i32,
        rec.target_end as i32,
        rec.query_start as i32,
        rec.query_end as i32,
        rec.strand,
    );
    if !check_record_fits(record, ops.as_slice()) {
        return None;
    }
    let mut m = QueryMetadata {
        query_id,
        compressed_cigar_ops: Vec::new(),
        target_start: record.0,
        target_end: record.1,
        query_start: record.2,
        query_end: record.3,
        strand: record.4,
    };
    m.set_cigar_ops(ops.as_slice());
    Some(m)
}

/// Appends `m` to the group of `tid`, opening the group (and listing `tid`) when new.
fn file_entry(groups: &mut HashMap<u32, Vec<QueryMetadata>>, targets: &mut Vec<u32>, tid: u32, m: QueryMetadata)
    requires
        old(targets)@.no_duplicates(),
        forall|t: u32| #[trigger] old(groups)@.contains_key(t) <==> old(targets)@.contains(t),
    ensures
        final(targets)@.no_duplicates(),
        forall|t: u32| #[trigger] final(groups)@.contains_key(t) <==> final(targets)@.contains(t),
        final(groups)@.contains_key(tid),
        old(groups)@.contains_key(tid) ==> final(groups)@[tid]@ == old(groups)@[tid]@.push(m),
        !old(groups)@.contains_key(tid) ==> final(groups)@[tid]@ == seq![m],
        forall|t: u32| t != tid ==> (#[trigger] final(groups)@.contains_key(t) == old(groups)@.contains_key(t)),
        forall|t: u32| t != tid && old(groups)@.contains_key(t) ==> #[trigger] final(groups)@[t] == old(groups)@[t],
{
    let ghost old_targets = targets@;
    match groups.remove(&tid) {
        Some(mut v) => {
            v.push(m);
            groups.insert(tid, v);
        },
        None => {
            let mut v: Vec<QueryMetadata> = Vec::new();
            v.push(m);
            groups.insert(tid, v);
            targets.push(tid);
            proof {
                assert(groups@[tid]@ =~= seq![m]);
                assert forall|t: u32| targets@.contains(t) <==> old_targets.contains(t) || t == tid by {
                    if old_targets.contains(t) {
                        let w = choose|w: int| 0 <= w < old_targets.len() && old_targets[w] == t;
                        assert(targets@[w] == t);
                    }
                    if t == tid {
                        assert(targets@[old_targets.len() as int] == t);
                    }
                }
            }
        },
    }
}

/// One stored alignment with its target span, as written to a snapshot.
pub struct SerializableInterval {
    pub first: i32,
    pub last: i32,
    pub metadata: QueryMetadata,
}

/// A snapshot: per target id its stored alignments, and the name index.
pub type SerializableImpg = (Vec<(u32, Vec<SerializableInterval>)>, SequenceIndex);

/// The alignment index: per target sequence an interval tree of the alignments
/// onto it, and the index of sequence names.
pub struct Impg {
    pub trees: HashMap<u32, IntervalIndex>,
    pub targets: Vec<u32>,
    pub seq_index: SequenceIndex,
}

impl Impg {
    /// Every tree is well formed, and `targets` lists the indexed target ids once each.
    pub open spec fn wf(&self) -> bool {
        &&& self.targets@.no_duplicates()
        &&& forall|t: u32| #[trigger] self.trees@.contains_key(t) <==> self.targets@.contains(t)
        &&& forall|t: u32| #[trigger] self.trees@.contains_key(t) ==> self.trees@[t].wf()
    }

    /// Indexes a batch of alignments. Names are interned in record order, query
    /// name before target name. Each record that can be indexed is stored once,
    /// in the tree of its target, in record order; the others are left out.
    pub fn from_paf_records(records: &[PafRecord]) -> (r: Result<Self, ParseErr>)
        requires
            records@.len() < u32::MAX / 2,
        ensures
            r is Ok,
            r matches Ok(imp) ==> {
                &&& imp.wf()
                &&& imp.seq_index.wf()
                &&& imp.seq_index.view_names() == interned_names(records@, records@.len())
                &&& forall|t: u32| #[trigger]
                    imp.trees@.contains_key(t) <==> (t < imp.seq_index.names@.len() && kept(
                        records@,
                        records@.len(),
                        imp.seq_index.view_names()[t as int],
                    ).len() > 0)
                &&& forall|t: u32| #[trigger]
                    imp.trees@.contains_key(t) ==> tree_holds(
                        imp.trees@[t].entries@,
                        records@,
                        imp.seq_index.view_names(),
                        kept(records@, records@.len(), imp.seq_index.view_names()[t as int]),
                    )
            },
    {
        let mut seq_index = SequenceIndex::new();
        let mut i: usize = 0;
        proof {
            assert(seq_index.view_names() =~= interned_names(records@, 0));
        }
        while i < records.len()
            invariant
                0 <= i <= records@.len() < u32::MAX / 2,
                seq_index.wf(),
                seq_index.names@.len() <= 2 * i,
                seq_index.view_names() == interned_names(records@, i as nat),
                forall|k: int|
                    0 <= k < i ==> #[trigger] seq_index.has_name(records@[k].query_name@)
                        && seq_index.has_name(records@[k].target_name@),
            decreases records@.len() - i,
        {
            let ghost before = seq_index.names@;
            let ghost si0 = seq_index;
            let q = seq_index.get_or_insert_id(&records[i].query_name);
            let ghost mid = seq_index.names@;
            let t = seq_index.get_or_insert_id(&records[i].target_name);
            proof {
                assert forall|k: int| 0 <= k < i + 1 implies #[trigger] seq_index.has_name(records@[k].query_name@)
                    && seq_index.has_name(records@[k].target_name@) by {
                    if k < i {
                        assert(si0.has_name(records@[k].query_name@));
                        assert(si0.has_name(records@[k].target_name@));
                        let n1 = choose|n: int| 0 <= n < before.len() && before[n]@ == records@[k].query_name@;
                        let n2 = choose|n: int| 0 <= n < before.len() && before[n]@ == records@[k].target_name@;
                        assert(mid[n1] == before[n1]);
                        assert(mid[n2] == before[n2]);
                        assert(seq_index.names@[n1]@ == records@[k].query_name@);
                        assert(seq_index.names@[n2]@ == records@[k].target_name@);
                    } else {
                        assert(seq_index.names@[q as int]@ == records@[k].query_name@);
                        assert(seq_index.names@[t as int]@ == records@[k].target_name@);
                    }
                }
            }
            i = i + 1;
        }
        let ghost names = seq_index.view_names();
        let ghost n_rec = records@.len();
        let mut groups: HashMap<u32, Vec<QueryMetadata>> = HashMap::new();
        let mut targets: Vec<u32> = Vec::new();
        i = 0;
        while i < records.len()
            invariant
                0 <= i <= records@.len() < u32::MAX / 2,
                n_rec == records@.len(),
                seq_index.wf(),
                names == seq_index.view_names(),
                names.len() == seq_index.names@.len(),
                forall|k: int|
                    0 <= k < n_rec ==> #[trigger] seq_index.has_name(records@[k].query_name@)
                        && seq_index.has_name(records@[k].target_name@),
                targets@.no_duplicates(),
                forall|t: u32| #[trigger] groups@.contains_key(t) <==> targets@.contains(t),
                forall|t: u32| #[trigger] groups@.contains_key(t) ==> groups@[t]@.len() <= i,
                forall|t: u32, j: int|
                    groups@.contains_key(t) && 0 <= j < groups@[t]@.len() ==> (#[trigger] groups@[t]@[j]).wf(),
                forall|t: u32| #[trigger]
                    groups@.contains_key(t) <==> (t < names.len() && kept(records@, i as nat, names[t as int]).len() > 0),
                forall|t: u32| #[trigger]
                    groups@.contains_key(t) ==> tree_holds(groups@[t]@, records@, names, kept(records@, i as nat, names[t as int])),
            decreases records@.len() - i,
        {
            let rec = &records[i];
            proof {
                assert(seq_index.has_name(records@[i as int].query_name@));
                assert(seq_index.has_name(records@[i as int].target_name@));
            }
            let qid = seq_index.get_id(&rec.query_name);
            let tid = seq_index.get_id(&rec.target_name);
            let ghost old_groups = groups@;
            let ghost ii = i as nat;
            proof {
                if qid is None {
                    let w = choose|w: int| 0 <= w < seq_index.names@.len() && seq_index.names@[w]@ == rec.query_name@;
                }
                if tid is None {
                    let w = choose|w: int| 0 <= w < seq_index.names@.len() && seq_index.names@[w]@ == rec.target_name@;
                }
            }
            if let (Some(qid), Some(tid)) = (qid, tid) {
                let ghost tname = names[tid as int];
                proof {
                    assert(tname == rec.target_name@);
                    assert forall|t: u32| t < names.len() && t != tid implies names[t as int] != tname by {
                        assert(seq_index.names@[t as int]@ == names[t as int]);
                        assert(seq_index.names@[tid as int]@ == names[tid as int]);
                    }
                }
                match make_entry(rec, qid) {
                    Some(m) => {
                        proof {
                            assert(stored_as(m, records@[i as int], names));
                        }
                        file_entry(&mut groups, &mut targets, tid, m);
                        proof {
                            assert forall|t: u32| #[trigger] groups@.contains_key(t) <==> (t < names.len() && kept(
                                records@,
                                ii + 1,
                                names[t as int],
                            ).len() > 0) by {
                                if t != tid && t < names.len() {
                                    assert(kept(records@, ii + 1, names[t as int]) == kept(records@, ii, names[t as int]));
                                }
                            }
                            assert forall|t: u32| #[trigger] groups@.contains_key(t) implies tree_holds(
                                groups@[t]@,
                                records@,
                                names,
                                kept(records@, ii + 1, names[t as int]),
                            ) by {
                                if t != tid {
                                    assert(kept(records@, ii + 1, names[t as int]) == kept(records@, ii, names[t as int]));
                                } else {
                                    let ks = kept(records@, ii, tname);
                                    assert(kept(records@, ii + 1, tname) == ks.push(i as int));
                                    if old_groups.contains_key(tid) {
                                        assert(tree_holds(old_groups[tid]@, records@, names, ks));
                                        assert(groups@[tid]@ == old_groups[tid]@.push(m));
                                    } else {
                                        assert(ks.len() == 0);
                                        assert(groups@[tid]@ =~= seq![m]);
                                    }
                                    assert forall|j: int| 0 <= j < ks.len() + 1 implies stored_as(
                                        #[trigger] groups@[t]@[j],
                                        records@[ks.push(i as int)[j]],
                                        names,
                                    ) by {
                                        if j < ks.len() {
                                            assert(stored_as(old_groups[tid]@[j], records@[ks[j]], names));
                                        }
                                    }
                                }
                            }
                        }
                    },
                    None => {
                        proof {
                            assert forall|t: u32| t < names.len() implies kept(records@, ii + 1, names[t as int])
                                == kept(records@, ii, names[t as int]) by {}
                        }
                    },
                }
            }
            i = i + 1;
        }
        let ghost g0 = groups@;
        let mut trees: HashMap<u32, IntervalIndex> = HashMap::new();
        let mut n: usize = 0;
        proof {
            assert(targets@.subrange(0, targets@.len() as int) =~= targets@);
            assert(targets@.subrange(0, 0) =~= Seq::<u32>::empty());
        }
        while n < targets.len()
            invariant
                0 <= n <= targets@.len(),
                records@.len() < u32::MAX / 2,
                n_rec == records@.len(),
                seq_index.wf(),
                names == seq_index.view_names(),
                names == interned_names(records@, n_rec),
                targets@.no_duplicates(),
                forall|t: u32| #[trigger] g0.contains_key(t) <==> targets@.contains(t),
                forall|t: u32| #[trigger] g0.contains_key(t) ==> g0[t]@.len() <= records@.len(),
                forall|t: u32, j: int|
                    g0.contains_key(t) && 0 <= j < g0[t]@.len() ==> (#[trigger] g0[t]@[j]).wf(),
                forall|t: u32| #[trigger] g0.contains_key(t) <==> (t < names.len() && kept(records@, n_rec, names[t as int]).len() > 0),
                forall|t: u32| #[trigger] g0.contains_key(t) ==> tree_holds(g0[t]@, records@, names, kept(records@, n_rec, names[t as int])),
                forall|t: u32| #[trigger] trees@.contains_key(t) <==> targets@.subrange(0, n as int).contains(t),
                forall|t: u32| #[trigger] groups@.contains_key(t) <==> targets@.subrange(n as int, targets@.len() as int).contains(t),
                forall|t: u32| #[trigger] groups@.contains_key(t) ==> groups@[t] == g0[t],
                forall|t: u32| #[trigger] trees@.contains_key(t) ==> trees@[t].wf() && trees@[t].entries@ == g0[t]@,
            decreases targets@.len() - n,
        {
            let t = targets[n];
            let ghost tail = targets@.subrange(n as int, targets@.len() as int);
            let ghost head = targets@.subrange(0, n as int);
            proof {
                assert(tail[0] == t);
                assert(targets@.subrange(n as int + 1, targets@.len() as int) =~= tail.drop_first());
                assert(targets@.subrange(0, n as int + 1) =~= head.push(t));
                assert forall|x: u32| tail.contains(x) <==> (x == t || tail.drop_first().contains(x)) by {
                    if tail.contains(x) && x != t {
                        let w = choose|w: int| 0 <= w < tail.len() && tail[w] == x;
                        assert(tail.drop_first()[w - 1] == x);
                    }
                    if tail.drop_first().contains(x) {
                        let w = choose|w: int| 0 <= w < tail.len() - 1 && tail.drop_first()[w] == x;
                        assert(tail[w + 1] == x);
                    }
                }
                assert(!tail.drop_first().contains(t)) by {
                    if tail.drop_first().contains(t) {
                        let w = choose|w: int| 0 <= w < tail.len() - 1 && tail.drop_first()[w] == t;
                        assert(targets@[n + 1 + w] == targets@[n as int]);
                    }
                }
                assert forall|x: u32| head.push(t).contains(x) <==> (x == t || head.contains(x)) by {
                    if head.push(t).contains(x) && x != t {
                        let w = choose|w: int| 0 <= w < head.len() + 1 && head.push(t)[w] == x;
                        assert(head[w] == x);
                    }
                    if head.contains(x) {
                        let w = choose|w: int| 0 <= w < head.len() && head[w] == x;
                        assert(head.push(t)[w] == x);
                    }
                    if x == t {
                        assert(head.push(t)[head.len() as int] == x);
                    }
                }
                assert(targets@.contains(t));
            }
            if let Some(v) = groups.remove(&t) {
                proof {
                    assert(g0.contains_key(t));
                    assert(v == g0[t]);
                    assert(v@.len() <= records@.len());
                }
                let idx = IntervalIndex::new(v);
                trees.insert(t, idx);
            }
            n = n + 1;
        }
        proof {
            assert(targets@.subrange(0, targets@.len() as int) =~= targets@);
            assert(names.len() == seq_index.names@.len());
            assert forall|t: u32| #[trigger] trees@.contains_key(t) <==> (t < names.len() && kept(
                records@,
                n_rec,
                names[t as int],
            ).len() > 0) by {
                assert(g0.contains_key(t) <==> targets@.contains(t));
            }
            assert forall|t: u32| #[trigger] trees@.contains_key(t) implies tree_holds(
                trees@[t].entries@,
                records@,
                names,
                kept(records@, n_rec, names[t as int]),
            ) by {
                assert(targets@.contains(t));
                assert(g0.contains_key(t));
            }
        }
        Ok(Impg { trees, targets, seq_index })
    }
}


/// The key under which a visited `(sequence, first, last)` triple is recorded.
pub open spec fn triple_key(id: u32, first: i32, last: i32) -> u128 {
    (id as int * 0x1_0000_0000_0000_0000 + (first as u32) as int * 0x1_0000_0000 + (last as u32) as int) as u128
}

pub open spec fn key_bound() -> int {
    0x1_0000_0000_0000_0000_0000_0000
}

fn visit_key(id: u32, first: i32, last: i32) -> (r: u128)
    ensures
        r == triple_key(id, first, last),
        r < key_bound(),
{
    (id as u128) * 0x1_0000_0000_0000_0000 + ((first as u32) as u128) * 0x1_0000_0000 + ((last as u32) as u128)
}

proof fn lemma_key_set_bounded(v: Set<u128>)
    requires
        v.finite(),
        forall|x: u128| #[trigger] v.contains(x) ==> x < key_bound(),
    ensures
        v.len() <= key_bound(),
{
    let f = |x: u128| x as int;
    let m = v.map(f);
    assert(vstd::relations::injective_on(f, v));
    vstd::set_lib::lemma_map_size(v, m, f);
    vstd::set_lib::lemma_int_range(0, key_bound());
    assert(m.subset_of(vstd::set_lib::set_int_range(0, key_bound())));
    vstd::set_lib::lemma_len_subset(m, vstd::set_lib::set_int_range(0, key_bound()));
}

impl Impg {
    /// `r` answers `query(target_id, s, e)`: the range itself, then one projection
    /// per alignment onto `target_id` whose span touches the range.
    pub open spec fn is_query_result(&self, target_id: u32, s: i32, e: i32, r: Seq<QueryInterval>) -> bool {
        &&& r.len() >= 1
        &&& r[0] == (QueryInterval { first: s, last: e, metadata: target_id })
        &&& self.trees@.contains_key(target_id) ==> self.trees@[target_id].answers_range(s, e, r.drop_first())
        &&& !self.trees@.contains_key(target_id) ==> r.len() == 1
    }

    /// `r` answers `query_transitive(target_id, s, e)`: the range itself, then the
    /// direct projections, then whatever the walk found further on.
    pub open spec fn is_transitive_result(&self, target_id: u32, s: i32, e: i32, r: Seq<QueryInterval>) -> bool {
        &&& r.len() >= 1
        &&& r[0] == (QueryInterval { first: s, last: e, metadata: target_id })
        &&& self.trees@.contains_key(target_id) ==> exists|k: int|
            0 <= k && 1 + k <= r.len() && #[trigger] self.trees@[target_id].answers_range(s, e, r.subrange(1, 1 + k))
        &&& !self.trees@.contains_key(target_id) ==> r.len() == 1
        &&& forall|i: int| 1 <= i < r.len() ==> #[trigger] self.stored_answer(r[i])
    }

    /// `q` is the projection of some range through an alignment stored in this index.
    pub open spec fn stored_answer(&self, q: QueryInterval) -> bool {
        exists|c: u32, a: i32, b: i32| self.trees@.contains_key(c) && #[trigger] self.trees@[c].answers_entry(q, a, b)
    }

    /// Projects `[range_start, range_end]` on `target_id` through every alignment
    /// onto it. The first interval is the range itself.
    pub fn query(&self, target_id: u32, range_start: i32, range_end: i32) -> (r: Vec<QueryInterval>)
        requires
            self.wf(),
        ensures
            self.is_query_result(target_id, range_start, range_end, r@),
    {
        let mut results: Vec<QueryInterval> = Vec::new();
        results.push(QueryInterval { first: range_start, last: range_end, metadata: target_id });
        match self.trees.get(&target_id) {
            Some(index) => {
                let mut more = index.query_range(range_start, range_end);
                let ghost found = more@;
                results.append(&mut more);
                proof {
                    assert(results@.drop_first() =~= found);
                }
            },
            None => {},
        }
        results
    }

    /// Projects `[range_start, range_end]` on `target_id` and, from each projection
    /// onto another sequence, onwards through the alignments onto that sequence;
    /// each `(sequence, first, last)` is followed at most once. The first interval
    /// is the range itself, followed by the direct projections of `query`.
    pub fn query_transitive(&self, target_id: u32, range_start: i32, range_end: i32) -> (r: Vec<
        QueryInterval,
    >)
        requires
            self.wf(),
        ensures
            self.is_transitive_result(target_id, range_start, range_end, r@),
    {
        let identity = QueryInterval { first: range_start, last: range_end, metadata: target_id };
        let mut results: Vec<QueryInterval> = Vec::new();
        results.push(identity);
        let mut stack: Vec<(u32, i32, i32)> = Vec::new();
        stack.push((target_id, range_start, range_end));
        let mut visited: std::collections::HashSet<u128> = std::collections::HashSet::new();
        let ghost mut started = false;
        let ghost mut k_first: int = 0;
        while stack.len() > 0
            invariant
                self.wf(),
                results@.len() >= 1,
                results@[0] == identity,
                visited@.finite(),
                forall|x: u128| #[trigger] visited@.contains(x) ==> x < key_bound(),
                !started ==> stack@ == seq![(target_id, range_start, range_end)] && results@.len() == 1,
                k_first >= 0,
                forall|i: int| 1 <= i < results@.len() ==> #[trigger] self.stored_answer(results@[i]),
                started && !self.trees@.contains_key(target_id) ==> results@.len() == 1 && stack@.len() == 0,
                started && self.trees@.contains_key(target_id) ==> 1 + k_first <= results@.len()
                    && self.trees@[target_id].answers_range(
                    range_start,
                    range_end,
                    results@.subrange(1, 1 + k_first),
                ),
            decreases key_bound() - visited@.len(), stack@.len(),
        {
            proof {
                lemma_key_set_bounded(visited@);
            }
            let ghost v0 = visited@.len();
            let ghost s0 = stack@.len();
            let ghost first_round = !started;
            let (current, current_start, current_end) = match stack.pop() {
                Some(top) => top,
                None => (target_id, range_start, range_end),
            };
            let ghost base = results@;
            match self.trees.get(&current) {
                Some(index) => {
                    let more = index.query_range(current_start, current_end);
                    let mut j: usize = 0;
                    while j < more.len()
                        invariant
                            self.wf(),
                            0 <= j <= more@.len(),
                            results@ =~= base + more@.subrange(0, j as int),
                            base.len() >= 1,
                            base[0] == identity,
                            visited@.finite(),
                            forall|x: u128| #[trigger] visited@.contains(x) ==> x < key_bound(),
                            visited@.len() >= v0,
                            visited@.len() - v0 == stack@.len() - (s0 - 1),
                            first_round == !started,
                            k_first >= 0,
                            self.trees@.contains_key(current),
                            *index == self.trees@[current],
                            forall|x: int| 0 <= x < more@.len() ==> #[trigger] index.answers_entry(more@[x], current_start, current_end),
                            forall|i: int| 1 <= i < results@.len() ==> #[trigger] self.stored_answer(results@[i]),
                            first_round ==> current == target_id && current_start == range_start
                                && current_end == range_end && base.len() == 1,
                            !first_round && self.trees@.contains_key(target_id) ==> 1 + k_first
                                <= base.len() && self.trees@[target_id].answers_range(
                                range_start,
                                range_end,
                                base.subrange(1, 1 + k_first),
                            ),
                        decreases more@.len() - j,
                    {
                        let iv = more[j];
                        proof {
                            assert(index.answers_entry(more@[j as int], current_start, current_end));
                            assert(self.stored_answer(iv));
                        }
                        let ghost before_push = results@;
                        results.push(iv);
                        proof {
                            assert forall|i: int| 1 <= i < results@.len() implies #[trigger] self.stored_answer(results@[i]) by {
                                if i < before_push.len() {
                                    assert(results@[i] == before_push[i]);
                                }
                            }
                        }
                        if iv.metadata != current {
                            let key = visit_key(iv.metadata, iv.first, iv.last);
                            if visited.insert(key) {
                                stack.push((iv.metadata, iv.first, iv.last));
                            }
                        }
                        j = j + 1;
                        proof {
                            assert(more@.subrange(0, j as int) =~= more@.subrange(0, j - 1).push(iv));
                        }
                    }
                    proof {
                        assert(more@.subrange(0, more@.len() as int) =~= more@);
                        if first_round {
                            assert(current == target_id && current_start == range_start && current_end == range_end);
                            k_first = more@.len() as int;
                            assert(results@.subrange(1, 1 + k_first) =~= more@);
                        } else if self.trees@.contains_key(target_id) {
                            assert(results@ == base + more@);
                            assert(1 + k_first <= base.len());
                            assert forall|x: int| 0 <= x < k_first implies #[trigger] results@.subrange(1, 1 + k_first)[x]
                                == base.subrange(1, 1 + k_first)[x] by {
                                assert(results@[1 + x] == base[1 + x]);
                            }
                            assert(results@.subrange(1, 1 + k_first) =~= base.subrange(1, 1 + k_first));
                        }
                    }
                },
                None => {
                    proof {
                        if first_round {
                            assert(!self.trees@.contains_key(target_id));
                        }
                    }
                },
            }
            proof {
                started = true;
                lemma_key_set_bounded(visited@);
            }
        }
        proof {
            if self.trees@.contains_key(target_id) {
                if !started {
                    assert(false);
                }
            } else if !started {
                assert(false);
            }
        }
        results
    }
}


/// An item stored in an index over `es` names one of its entries and carries
/// that entry's target span.
pub proof fn lemma_item_in_range(es: Seq<QueryMetadata>, item: (i32, i32, u32))
    requires
        es.len() < u32::MAX,
        index_items(es).count(item) > 0,
    ensures
        item.2 < es.len(),
        item == (es[item.2 as int].target_start, es[item.2 as int].target_end, item.2),
{
    let items = Seq::new(es.len(), |k: int| (es[k].target_start, es[k].target_end, k as u32));
    assert(items.contains(item));
    let k = choose|k: int| 0 <= k < items.len() && items[k] == item;
    assert(item.2 == k as u32);
}

/// `ivs` lists the alignments of `index`, each with its target span, in some order.
pub open spec fn snapshot_of(index: IntervalIndex, ivs: Seq<SerializableInterval>) -> bool {
    exists|c: Seq<(i32, i32, u32)>|
        #[trigger] c.to_multiset() == index_items(index.entries@) && c.len() == ivs.len() && (forall|m: int|
            0 <= m < ivs.len() ==> ivs[m].first == c[m].0 && ivs[m].last == c[m].1
                && (#[trigger] ivs[m]).metadata.same(&index.entries@[c[m].2 as int]))
}

/// The tree filed under the `k`-th target of snapshot `v` holds that target's
/// alignments, in snapshot order.
pub open spec fn rebuilt_from(trees: Map<u32, IntervalIndex>, v: Seq<(u32, Vec<SerializableInterval>)>, k: int) -> bool {
    &&& trees.contains_key(v[k].0)
    &&& trees[v[k].0].entries@.len() == v[k].1@.len()
    &&& forall|m: int|
        0 <= m < v[k].1@.len() ==> (#[trigger] trees[v[k].0].entries@[m]).same(&v[k].1@[m].metadata)
}

/// A snapshot interval that can be indexed: its span is its alignment's target
/// span and the alignment is well formed.
pub open spec fn interval_valid(iv: SerializableInterval) -> bool {
    iv.first == iv.metadata.target_start && iv.last == iv.metadata.target_end && iv.metadata.wf()
}

/// A snapshot's trees can be rebuilt: target ids are distinct, each tree has
/// fewer than `u32::MAX` intervals, and every interval is valid.
pub open spec fn snapshot_valid(v: Seq<(u32, Vec<SerializableInterval>)>) -> bool {
    &&& forall|a: int, b: int| 0 <= a < b < v.len() ==> #[trigger] v[a].0 != #[trigger] v[b].0
    &&& forall|n: int| 0 <= n < v.len() ==> (#[trigger] v[n]).1@.len() < u32::MAX
    &&& forall|n: int, m: int|
        0 <= n < v.len() && 0 <= m < v[n].1@.len() ==> interval_valid(#[trigger] v[n].1@[m])
}

impl QueryMetadata {
    /// Decides `wf`: decodes the blob and checks the operations against the endpoints.
    pub fn is_well_formed(&self) -> (r: bool)
        ensures
            r == self.wf(),
    {
        match decompress_cigar(self.compressed_cigar_ops.as_slice()) {
            Some(ops) => check_record_fits(
                (self.target_start, self.target_end, self.query_start, self.query_end, self.strand),
                ops.as_slice(),
            ),
            None => false,
        }
    }
}

impl Impg {
    /// `v` lists, per indexed target in order, the target's alignments with their spans.
    pub open spec fn snapshot_taken(&self, v: Seq<(u32, Vec<SerializableInterval>)>) -> bool {
        &&& v.len() == self.targets@.len()
        &&& forall|n: int|
            0 <= n < v.len() ==> (#[trigger] v[n]).0 == self.targets@[n] && snapshot_of(
                self.trees@[self.targets@[n]],
                v[n].1@,
            )
    }

    /// This index was rebuilt from `v`: the targets of `v` in order, each tree
    /// holding that target's alignments.
    pub open spec fn restored_from(&self, v: Seq<(u32, Vec<SerializableInterval>)>) -> bool {
        &&& self.targets@ == v.map_values(|p: (u32, Vec<SerializableInterval>)| p.0)
        &&& forall|n: int| 0 <= n < v.len() ==> #[trigger] rebuilt_from(self.trees@, v, n)
    }

    /// The stored alignments per target with their spans, and a copy of the name index.
    pub fn to_serializable(&self) -> (r: SerializableImpg)
        requires
            self.wf(),
        ensures
            self.snapshot_taken(r.0@),
            r.1.view_names() == self.seq_index.view_names(),
            snapshot_valid(r.0@),
    {
        let mut out: Vec<(u32, Vec<SerializableInterval>)> = Vec::new();
        let mut n: usize = 0;
        while n < self.targets.len()
            invariant
                self.wf(),
                0 <= n <= self.targets@.len(),
                out@.len() == n,
                forall|k: int|
                    0 <= k < n ==> (#[trigger] out@[k]).0 == self.targets@[k] && snapshot_of(
                        self.trees@[self.targets@[k]],
                        out@[k].1@,
                    ),
                forall|k: int| 0 <= k < n ==> (#[trigger] out@[k]).1@.len() < u32::MAX,
                forall|k: int, m: int|
                    0 <= k < n && 0 <= m < out@[k].1@.len() ==> interval_valid(#[trigger] out@[k].1@[m]),
            decreases self.targets@.len() - n,
        {
            let t = self.targets[n];
            proof {
                assert(self.targets@.contains(t));
            }
            let index = match self.trees.get(&t) {
                Some(index) => index,
                None => {
                    proof {
                        assert(false);
                    }
                    return (out, self.seq_index.duplicate());
                },
            };
            let contents = tree_contents(&index.tree);
            let mut ivs: Vec<SerializableInterval> = Vec::new();
            let mut m: usize = 0;
            while m < contents.len()
                invariant
                    index.wf(),
                    0 <= m <= contents@.len(),
                    contents@.to_multiset() == index_items(index.entries@),
                    ivs@.len() == m,
                    forall|x: int|
                        0 <= x < m ==> (#[trigger] ivs@[x]).first == contents@[x].0 && ivs@[x].last
                            == contents@[x].1 && ivs@[x].metadata.same(&index.entries@[contents@[x].2 as int])
                            && interval_valid(ivs@[x]),
                decreases contents@.len() - m,
            {
                let item = contents[m];
                proof {
                    assert(contents@.contains(item));
                    lemma_item_in_range(index.entries@, item);
                }
                let md = index.entries[item.2 as usize].duplicate();
                proof {
                    assert(index.entries@[item.2 as int].wf());
                }
                ivs.push(SerializableInterval { first: item.0, last: item.1, metadata: md });
                m = m + 1;
            }
            proof {
                assert(contents@.len() == index_items(index.entries@).len());
                assert(contents@.to_multiset() == index_items(index.entries@) && contents@.len() == ivs@.len());
                assert(snapshot_of(*index, ivs@));
            }
            out.push((t, ivs));
            n = n + 1;
        }
        proof {
            assert forall|a: int, b: int| 0 <= a < b < out@.len() implies #[trigger] out@[a].0 != #[trigger] out@[b].0 by {
                assert(self.targets@[a] != self.targets@[b]);
            }
        }
        (out, self.seq_index.duplicate())
    }

    /// Rebuilds an index from a snapshot; fails with `CorruptSnapshot` unless
    /// the snapshot is valid.
    pub fn from_serializable(serializable: SerializableImpg) -> (r: Result<Self, ParseErr>)
        ensures
            r is Ok <==> snapshot_valid(serializable.0@) && serializable.1.wf(),
            r is Err ==> r == Err::<Self, ParseErr>(ParseErr::CorruptSnapshot),
            r matches Ok(imp) ==> {
                &&& imp.wf()
                &&& imp.restored_from(serializable.0@)
                &&& imp.seq_index == serializable.1
                &&& imp.seq_index.wf()
            },
    {
        let ghost whole = serializable;
        let (serializable_trees, seq_index) = serializable;
        if !seq_index.is_wf() {
            return Err(ParseErr::CorruptSnapshot);
        }
        let ghost v = serializable_trees@;
        proof {
            assert(v == whole.0@);
        }
        let mut trees: HashMap<u32, IntervalIndex> = HashMap::new();
        let mut targets: Vec<u32> = Vec::new();
        let mut n: usize = 0;
        while n < serializable_trees.len()
            invariant
                v == serializable_trees@,
                v == whole.0@,
                whole == serializable,
                seq_index == whole.1,
                seq_index.wf(),
                0 <= n <= v.len(),
                targets@ == v.subrange(0, n as int).map_values(|p: (u32, Vec<SerializableInterval>)| p.0),
                forall|a: int, b: int| 0 <= a < b < n ==> #[trigger] v[a].0 != #[trigger] v[b].0,
                forall|k: int| 0 <= k < n ==> (#[trigger] v[k]).1@.len() < u32::MAX,
                forall|k: int, m: int| 0 <= k < n && 0 <= m < v[k].1@.len() ==> interval_valid(#[trigger] v[k].1@[m]),
                forall|t: u32| #[trigger] trees@.contains_key(t) <==> targets@.contains(t),
                forall|t: u32| #[trigger] trees@.contains_key(t) ==> trees@[t].wf(),
                forall|k: int| 0 <= k < n ==> #[trigger] rebuilt_from(trees@, v, k),
            decreases v.len() - n,
        {
            let t = serializable_trees[n].0;
            let ivs = &serializable_trees[n].1;
            if trees.contains_key(&t) || ivs.len() >= u32::MAX as usize {
                proof {
                    if trees@.contains_key(t) {
                        let w = choose|w: int| 0 <= w < targets@.len() && targets@[w] == t;
                        assert(targets@[w] == v.subrange(0, n as int)[w].0);
                        assert(v[w].0 == v[n as int].0);
                    } else {
                        assert(v[n as int].1@.len() >= u32::MAX);
                    }
                    assert(!snapshot_valid(v));
                    assert(!snapshot_valid(whole.0@));
                }
                return Err(ParseErr::CorruptSnapshot);
            }
            let mut entries: Vec<QueryMetadata> = Vec::new();
            let mut m: usize = 0;
            while m < ivs.len()
                invariant
                    v == whole.0@,
                    whole == serializable,
                    0 <= n < v.len(),
                    ivs@ == v[n as int].1@,
                    0 <= m <= ivs@.len() < u32::MAX,
                    entries@.len() == m,
                    forall|x: int| 0 <= x < m ==> interval_valid(#[trigger] ivs@[x]),
                    forall|x: int|
                        0 <= x < m ==> (#[trigger] entries@[x]).same(&ivs@[x].metadata) && entries@[x].wf(),
                decreases ivs@.len() - m,
            {
                let iv = &ivs[m];
                if iv.first != iv.metadata.target_start || iv.last != iv.metadata.target_end
                    || !iv.metadata.is_well_formed() {
                    proof {
                        assert(!interval_valid(v[n as int].1@[m as int]));
                        assert(!snapshot_valid(v));
                        assert(!snapshot_valid(whole.0@));
                    }
                    return Err(ParseErr::CorruptSnapshot);
                }
                entries.push(iv.metadata.duplicate());
                m = m + 1;
            }
            let index = IntervalIndex::new(entries);
            let ghost old_targets = targets@;
            let ghost old_trees = trees@;
            let ghost new_entries = entries@;
            trees.insert(t, index);
            targets.push(t);
            proof {
                assert(v.subrange(0, n + 1) =~= v.subrange(0, n as int).push(v[n as int]));
                assert forall|x: u32| targets@.contains(x) <==> old_targets.contains(x) || x == t by {
                    if old_targets.contains(x) {
                        let w = choose|w: int| 0 <= w < old_targets.len() && old_targets[w] == x;
                        assert(targets@[w] == x);
                    }
                    if x == t {
                        assert(targets@[old_targets.len() as int] == x);
                    }
                }
                assert forall|a: int| 0 <= a < n implies v[a].0 != v[n as int].0 by {
                    assert(old_targets[a] == v.subrange(0, n as int)[a].0);
                    assert(old_targets.contains(v[a].0));
                }
                assert forall|k: int| 0 <= k < n + 1 implies #[trigger] rebuilt_from(trees@, v, k) by {
                    if k < n {
                        assert(v[k].0 != t);
                        assert(rebuilt_from(old_trees, v, k));
                        assert(trees@[v[k].0] == old_trees[v[k].0]);
                    } else {
                        assert(trees@[v[k].0].entries@ == new_entries);
                        assert(ivs@ == v[k].1@);
                    }
                }
                assert(targets@ =~= v.subrange(0, n + 1).map_values(|p: (u32, Vec<SerializableInterval>)| p.0));
            }
            n = n + 1;
        }
        proof {
            assert(v.subrange(0, v.len() as int) =~= v);
            assert forall|a: int, b: int| 0 <= a < b < targets@.len() implies targets@[a] != targets@[b] by {
                assert(targets@[a] == v[a].0 && targets@[b] == v[b].0);
            }
            assert(targets@.no_duplicates());
        }
        Ok(Impg { trees, targets, seq_index })
    }
}

} // verus!
