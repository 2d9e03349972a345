//! The record pipeline: batching, the frequency scan, and the tagger.
//!
//! Records reach the library as plain byte sequences; reading and writing the
//! alignment files themselves, and the threads and channels that move batches,
//! live outside the crate. The [`Batcher`] states the batching discipline,
//! the [`FrequencyScanner`] accumulates the offset histogram of the first
//! pass, and the [`Tagger`] decides, for the second pass, which label each
//! record receives.

use crate::metrics::Metrics;
use crate::seq::lookup_spec;
use crate::seq::LookupSpec;
use crate::seq::SequenceLookup;
use crate::seq::SequenceTable;
use crate::util::increment_frequency_of_target_start_pos;
use crate::util::Histogram;
use vstd::prelude::*;

verus! {

/// One alignment record as the library sees it: its read bytes, and the
/// label attached to it, if any.
pub struct RecordData {
    pub seq: Vec<u8>,
    pub tag: Option<String>,
}

/// Spec-level form of a record.
pub ghost struct RecordView {
    pub seq: Seq<u8>,
    pub tag: Option<Seq<char>>,
}

impl View for RecordData {
    type V = RecordView;

    open spec fn view(&self) -> RecordView {
        RecordView {
            seq: self.seq@,
            tag: match self.tag {
                Option::Some(t) => Option::Some(t@),
                Option::None => Option::None,
            },
        }
    }
}

/// Groups pushed records into batches of a fixed size, the last batch
/// possibly partial; what was pushed is exactly what the emitted batches
/// hold, in order.
pub struct Batcher<T> {
    /// Records accumulated toward the next batch.
    pub batch: Vec<T>,
    /// The number of records a full batch holds.
    pub batch_size: usize,
    /// Every record pushed so far, oldest first.
    pub pushed: Ghost<Seq<T>>,
    /// The batches emitted so far, in order.
    pub emitted: Ghost<Seq<Seq<T>>>,
}

impl<T> Batcher<T> {
    /// The emitted batches followed by the pending records are exactly the
    /// pushed records, and the pending batch is never full.
    pub open spec fn wf(&self) -> bool {
        &&& self.batch_size >= 1
        &&& self.batch@.len() < self.batch_size
        &&& self.emitted@.flatten() + self.batch@ == self.pushed@
    }

    /// An empty batcher emitting batches of `batch_size` records.
    pub fn new(batch_size: usize) -> (r: Self)
        requires
            batch_size >= 1,
        ensures
            r.wf(),
            r.batch_size == batch_size,
            r.pushed@ == Seq::<T>::empty(),
            r.emitted@ == Seq::<Seq<T>>::empty(),
            r.batch@.len() == 0,
    {
        let r = Batcher {
            batch: Vec::new(),
            batch_size,
            pushed: Ghost(Seq::empty()),
            emitted: Ghost(Seq::empty()),
        };
        proof {
            assert(r.emitted@.flatten() + r.batch@ =~= r.pushed@);
        }
        r
    }

    /// Accepts one record; hands back a full batch once `batch_size` records
    /// have accumulated.
    pub fn push(&mut self, record: T) -> (r: Option<Vec<T>>)
        requires
            old(self).wf(),
        ensures
            final(self).wf(),
            final(self).batch_size == old(self).batch_size,
            final(self).pushed@ == old(self).pushed@.push(record),
            match r {
                Some(b) => {
                    &&& b@ == old(self).batch@.push(record)
                    &&& b@.len() == old(self).batch_size
                    &&& final(self).emitted@ == old(self).emitted@.push(b@)
                    &&& final(self).batch@.len() == 0
                },
                None => {
                    &&& final(self).emitted@ == old(self).emitted@
                    &&& final(self).batch@ == old(self).batch@.push(record)
                },
            },
    {
        self.batch.push(record);
        proof {
            self.pushed@ = self.pushed@.push(record);
        }
        if self.batch.len() == self.batch_size {
            let mut full: Vec<T> = Vec::new();
            core::mem::swap(&mut full, &mut self.batch);
            proof {
                self.emitted@ = self.emitted@.push(full@);
                old(self).emitted@.lemma_flatten_push(full@);
                assert(self.emitted@.flatten() + self.batch@ =~= self.pushed@);
            }
            Some(full)
        } else {
            proof {
                assert(self.emitted@.flatten() + self.batch@ =~= self.pushed@);
            }
            None
        }
    }

    /// Hands back the final partial batch, if any records are pending.
    pub fn flush(&mut self) -> (r: Option<Vec<T>>)
        requires
            old(self).wf(),
        ensures
            final(self).wf(),
            final(self).batch_size == old(self).batch_size,
            final(self).pushed@ == old(self).pushed@,
            final(self).batch@.len() == 0,
            match r {
                Some(b) => {
                    &&& old(self).batch@.len() > 0
                    &&& b@ == old(self).batch@
                    &&& final(self).emitted@ == old(self).emitted@.push(b@)
                },
                None => {
                    &&& old(self).batch@.len() == 0
                    &&& final(self).emitted@ == old(self).emitted@
                },
            },
    {
        if self.batch.len() == 0 {
            return None;
        }
        let mut last: Vec<T> = Vec::new();
        core::mem::swap(&mut last, &mut self.batch);
        proof {
            self.emitted@ = self.emitted@.push(last@);
            old(self).emitted@.lemma_flatten_push(last@);
            assert(self.emitted@.flatten() + self.batch@ =~= self.pushed@);
        }
        Some(last)
    }
}

/// The score a window classification contributes to the histogram: exact
/// matches weigh 3, single-mismatch matches 1, anything else nothing.
pub open spec fn class_score(c: LookupSpec) -> int {
    match c {
        LookupSpec::Exact(_) => 3,
        LookupSpec::ErrorOf(_) => 1,
        _ => 0,
    }
}

/// The score one read contributes at window offset `k` against table map `t`
/// with window length `len`: the score of the window starting at `k`, or 0
/// when the read has no window there.
pub open spec fn offset_score(t: Map<Seq<u8>, LookupSpec>, len: int, s: Seq<u8>, k: int) -> int {
    if 0 <= len && 0 <= k && k + len <= s.len() {
        class_score(lookup_spec(t, s.subrange(k, k + len)))
    } else {
        0
    }
}

/// The score a sequence of reads contributes at offset `k`, summed in order.
pub open spec fn batch_score(t: Map<Seq<u8>, LookupSpec>, len: int, rs: Seq<Seq<u8>>, k: int) -> int
    decreases rs.len(),
{
    if rs.len() == 0 {
        0
    } else {
        batch_score(t, len, rs.drop_last(), k) + offset_score(t, len, rs.last(), k)
    }
}

/// The read bytes of a sequence of records.
pub open spec fn reads_of(rs: Seq<RecordData>) -> Seq<Seq<u8>> {
    rs.map_values(|r: RecordData| r.seq@)
}

/// The batches of records as a sequence of record sequences.
pub open spec fn batches_view(bs: Seq<Vec<RecordData>>) -> Seq<Seq<RecordData>> {
    bs.map_values(|b: Vec<RecordData>| b@)
}

/// The read bytes of a sequence of batches, concatenated in order.
pub open spec fn batch_reads(bs: Seq<Seq<RecordData>>) -> Seq<Seq<u8>>
    decreases bs.len(),
{
    if bs.len() == 0 {
        Seq::empty()
    } else {
        batch_reads(bs.drop_last()) + reads_of(bs.last())
    }
}

/// Scores are additive over concatenated read sequences.
proof fn lemma_batch_score_concat(
    t: Map<Seq<u8>, LookupSpec>,
    len: int,
    a: Seq<Seq<u8>>,
    b: Seq<Seq<u8>>,
    k: int,
)
    ensures
        batch_score(t, len, a + b, k) == batch_score(t, len, a, k) + batch_score(t, len, b, k),
    decreases b.len(),
{
    if b.len() == 0 {
        assert(a + b =~= a);
    } else {
        assert((a + b).drop_last() =~= a + b.drop_last());
        assert((a + b).last() == b.last());
        lemma_batch_score_concat(t, len, a, b.drop_last(), k);
    }
}

/// The reads of a batch prefix are a prefix of all the reads.
proof fn lemma_batch_reads_prefix(bs: Seq<Seq<RecordData>>, i: int)
    requires
        0 <= i <= bs.len(),
    ensures
        batch_reads(bs.take(i)).len() <= batch_reads(bs).len(),
        batch_reads(bs) == batch_reads(bs.take(i)) + batch_reads(bs.skip(i)),
    decreases bs.len() - i,
{
    if i == bs.len() {
        assert(bs.take(i) =~= bs);
        assert(batch_reads(bs.skip(i)) =~= Seq::<Seq<u8>>::empty());
        assert(batch_reads(bs.take(i)) + batch_reads(bs.skip(i)) =~= batch_reads(bs));
    } else {
        lemma_batch_reads_prefix(bs, i + 1);
        assert(bs.take(i + 1).drop_last() =~= bs.take(i));
        assert(bs.take(i + 1).last() == bs[i]);
        assert(bs.skip(i).drop_first() =~= bs.skip(i + 1));
        assert(batch_reads_front(bs.skip(i)) == batch_reads(bs.skip(i))) by {
            lemma_batch_reads_front(bs.skip(i));
        }
        lemma_batch_reads_front(bs.skip(i + 1));
        assert(batch_reads(bs.skip(i)) =~= reads_of(bs[i]) + batch_reads(bs.skip(i + 1)));
        assert(batch_reads(bs.take(i)) + batch_reads(bs.skip(i)) =~= batch_reads(bs.take(i + 1))
            + batch_reads(bs.skip(i + 1)));
    }
}

/// [`batch_reads`], peeled from the front instead of the back.
spec fn batch_reads_front(bs: Seq<Seq<RecordData>>) -> Seq<Seq<u8>>
    decreases bs.len(),
{
    if bs.len() == 0 {
        Seq::empty()
    } else {
        reads_of(bs.first()) + batch_reads_front(bs.drop_first())
    }
}

/// The two peeling orders agree.
proof fn lemma_batch_reads_front(bs: Seq<Seq<RecordData>>)
    ensures
        batch_reads_front(bs) == batch_reads(bs),
    decreases bs.len(),
{
    if bs.len() == 0 {
    } else if bs.len() == 1 {
        assert(bs.drop_first() =~= Seq::<Seq<RecordData>>::empty());
        assert(bs.drop_last() =~= Seq::<Seq<RecordData>>::empty());
        assert(batch_reads_front(bs.drop_first()) == Seq::<Seq<u8>>::empty());
        assert(batch_reads(bs.drop_last()) == Seq::<Seq<u8>>::empty());
        assert(bs.first() == bs.last());
        assert(batch_reads_front(bs) =~= batch_reads(bs));
    } else {
        lemma_batch_reads_front(bs.drop_first());
        lemma_batch_reads_front(bs.drop_last());
        lemma_batch_reads_front(bs.drop_first().drop_last());
        let dfdl = bs.drop_first().drop_last();
        assert(dfdl =~= bs.drop_last().drop_first());
        assert(bs.drop_last().first() == bs.first());
        assert(bs.drop_first().last() == bs.last());
        // Peel the front element off both sides, then the back one.
        assert(batch_reads_front(bs) == reads_of(bs.first()) + batch_reads(bs.drop_first()));
        assert(batch_reads(bs.drop_first()) == batch_reads(dfdl) + reads_of(bs.last()));
        assert(batch_reads(bs) == batch_reads(bs.drop_last()) + reads_of(bs.last()));
        assert(batch_reads(bs.drop_last()) == batch_reads_front(bs.drop_last()));
        assert(batch_reads_front(bs.drop_last()) == reads_of(bs.first()) + batch_reads_front(
            bs.drop_last().drop_first(),
        ));
        assert(batch_reads_front(bs.drop_last().drop_first()) == batch_reads_front(dfdl));
        assert(batch_reads_front(dfdl) == batch_reads(dfdl));
        assert(batch_reads_front(bs) =~= batch_reads(bs));
    }
}

/// Consumes an initial run of records and accumulates, per window offset, the
/// score of every read window classified against the table.
pub struct FrequencyScanner {
    /// The finished lookup table, shared read-only.
    pub target_map: SequenceTable,
    /// How many records the scan consumes before it stops.
    pub num_reads_to_find_start_pos: usize,
    /// How many records have been scanned.
    pub reads_seen: usize,
    /// The accumulated offset histogram.
    pub target_position_frequency: Histogram,
}

impl FrequencyScanner {
    /// The table and histogram are well-formed, the record cap has not been
    /// passed, and no offset has accumulated more than 3 per scanned record.
    pub open spec fn wf(&self) -> bool {
        &&& self.target_map.wf()
        &&& self.target_position_frequency.wf()
        &&& self.reads_seen <= self.num_reads_to_find_start_pos
        &&& self.num_reads_to_find_start_pos <= usize::MAX / 3
        &&& forall|k: usize| #[trigger]
            self.target_position_frequency.count(k) <= 3 * self.reads_seen
    }

    /// A fresh scanner over `target_map` that will consume up to
    /// `num_reads_to_find_start_pos` records.
    pub fn new(target_map: SequenceTable, num_reads_to_find_start_pos: usize) -> (r: Self)
        requires
            target_map.wf(),
            num_reads_to_find_start_pos <= usize::MAX / 3,
        ensures
            r.wf(),
            r.target_map == target_map,
            r.num_reads_to_find_start_pos == num_reads_to_find_start_pos,
            r.reads_seen == 0,
            r.target_position_frequency@ == Map::<usize, usize>::empty(),
    {
        FrequencyScanner {
            target_map,
            num_reads_to_find_start_pos,
            reads_seen: 0,
            target_position_frequency: Histogram::new(),
        }
    }

    /// Scores every window of one read: each offset whose window classifies
    /// `Exact` gains 3, each whose window classifies `ErrorOf` gains 1.
    pub fn scan_record(&mut self, read: &Vec<u8>)
        requires
            old(self).wf(),
            old(self).reads_seen < old(self).num_reads_to_find_start_pos,
        ensures
            final(self).wf(),
            final(self).target_map == old(self).target_map,
            final(self).num_reads_to_find_start_pos == old(self).num_reads_to_find_start_pos,
            final(self).reads_seen == old(self).reads_seen + 1,
            forall|k: usize| #[trigger] final(self).target_position_frequency.count(k) == old(
                self,
            ).target_position_frequency.count(k) + offset_score(
                old(self).target_map@,
                old(self).target_map.min_length as int,
                read@,
                k as int,
            ),
    {
        let ghost t = self.target_map@;
        let ghost tl = self.target_map.min_length as int;
        let ghost h0 = self.target_position_frequency;
        let target_len = self.target_map.min_length;
        let record_len = read.len();
        if record_len >= target_len {
            let end = record_len - target_len;
            let mut i: usize = 0;
            loop
                invariant_except_break
                    i <= end,
                    forall|k: usize| #[trigger] self.target_position_frequency.count(k) == h0.count(
                        k,
                    ) + if (k as int) < i as int {
                        offset_score(t, tl, read@, k as int)
                    } else {
                        0
                    },
                invariant
                    end == record_len - target_len,
                    record_len == read@.len(),
                    target_len == self.target_map.min_length,
                    t == self.target_map@,
                    tl == target_len as int,
                    self.target_map.wf(),
                    h0.wf(),
                    self.target_position_frequency.wf(),
                    self.reads_seen == old(self).reads_seen,
                    self.num_reads_to_find_start_pos == old(self).num_reads_to_find_start_pos,
                    self.reads_seen < self.num_reads_to_find_start_pos,
                    self.num_reads_to_find_start_pos <= usize::MAX / 3,
                    forall|k: usize| #[trigger] h0.count(k) <= 3 * self.reads_seen,
                    h0 == old(self).target_position_frequency,
                    self.target_map == old(self).target_map,
                ensures
                    forall|k: usize| #[trigger] self.target_position_frequency.count(k) == h0.count(
                        k,
                    ) + if (k as int) <= end as int {
                        offset_score(t, tl, read@, k as int)
                    } else {
                        0
                    },
                decreases end - i,
            {
                let window = &read.as_slice()[i..i + target_len];
                proof {
                    assert(window@ == read@.subrange(i as int, i as int + tl));
                    assert(offset_score(t, tl, read@, i as int) == class_score(
                        lookup_spec(t, window@),
                    ));
                    assert(self.target_position_frequency.count(i) == h0.count(i));
                }
                let class = self.target_map.lookup(window);
                match class {
                    SequenceLookup::Exact(_) => {
                        increment_frequency_of_target_start_pos(
                            &mut self.target_position_frequency,
                            i,
                            3,
                        );
                    },
                    SequenceLookup::ErrorOf(_) => {
                        increment_frequency_of_target_start_pos(
                            &mut self.target_position_frequency,
                            i,
                            1,
                        );
                    },
                    _ => {},
                }
                if i == end {
                    break;
                }
                i += 1;
            }
            proof {
                assert forall|k: usize| #[trigger] self.target_position_frequency.count(k)
                    == h0.count(k) + offset_score(t, tl, read@, k as int) by {
                    if !((k as int) <= end as int) {
                        assert(offset_score(t, tl, read@, k as int) == 0);
                    }
                }
            }
        } else {
            proof {
                assert forall|k: usize| #[trigger] self.target_position_frequency.count(k)
                    == h0.count(k) + offset_score(t, tl, read@, k as int) by {
                    assert(offset_score(t, tl, read@, k as int) == 0);
                }
            }
        }
        self.reads_seen += 1;
    }

    /// Scans the records of one batch, in order, stopping once the record cap
    /// is reached; reports whether the cap has been reached.
    pub fn scan_batch(&mut self, batch: &Vec<RecordData>) -> (done: bool)
        requires
            old(self).wf(),
        ensures
            final(self).wf(),
            final(self).target_map == old(self).target_map,
            final(self).num_reads_to_find_start_pos == old(self).num_reads_to_find_start_pos,
            ({
                let rs = reads_of(batch@);
                let nb = vstd::math::min(
                    rs.len() as int,
                    old(self).num_reads_to_find_start_pos - old(self).reads_seen,
                );
                &&& final(self).reads_seen == old(self).reads_seen + nb
                &&& forall|k: usize| #[trigger] final(self).target_position_frequency.count(k)
                    == old(self).target_position_frequency.count(k) + batch_score(
                    old(self).target_map@,
                    old(self).target_map.min_length as int,
                    rs.take(nb),
                    k as int,
                )
                &&& done == (final(self).reads_seen == final(self).num_reads_to_find_start_pos)
            }),
    {
        let ghost t = self.target_map@;
        let ghost tl = self.target_map.min_length as int;
        let ghost h0 = self.target_position_frequency;
        let ghost rs = reads_of(batch@);
        let ghost seen0 = self.reads_seen;
        let n = batch.len();
        let mut i: usize = 0;
        proof {
            assert(rs.take(0) =~= Seq::<Seq<u8>>::empty());
        }
        while i < n && self.reads_seen < self.num_reads_to_find_start_pos
            invariant
                i <= n,
                n == batch@.len(),
                rs == reads_of(batch@),
                t == self.target_map@,
                tl == self.target_map.min_length as int,
                h0 == old(self).target_position_frequency,
                seen0 == old(self).reads_seen,
                self.target_map == old(self).target_map,
                self.num_reads_to_find_start_pos == old(self).num_reads_to_find_start_pos,
                self.wf(),
                self.reads_seen == seen0 + i,
                forall|k: usize| #[trigger] self.target_position_frequency.count(k) == h0.count(k)
                    + batch_score(t, tl, rs.take(i as int), k as int),
            decreases n - i,
        {
            self.scan_record(&batch[i].seq);
            proof {
                assert(rs.take(i as int + 1).drop_last() =~= rs.take(i as int));
                assert(rs.take(i as int + 1).last() == rs[i as int]);
                assert(rs[i as int] == batch@[i as int].seq@);
            }
            i += 1;
        }
        proof {
            let nb = vstd::math::min(rs.len() as int, old(self).num_reads_to_find_start_pos - seen0);
            assert(i as int == nb);
        }
        self.reads_seen == self.num_reads_to_find_start_pos
    }

    /// Runs the whole frequency pass over the given batches: scans records in
    /// order until the cap or the input is exhausted and hands back the
    /// accumulated histogram.
    pub fn construct_target_start_pos_to_frequency_hashmap(
        self,
        batches: &Vec<Vec<RecordData>>,
    ) -> (r: Histogram)
        requires
            self.wf(),
        ensures
            r.wf(),
            ({
                let all = batch_reads(batches_view(batches@));
                let nb = vstd::math::min(
                    all.len() as int,
                    self.num_reads_to_find_start_pos - self.reads_seen,
                );
                forall|k: usize| #[trigger] r.count(k) == self.target_position_frequency.count(k)
                    + batch_score(
                    self.target_map@,
                    self.target_map.min_length as int,
                    all.take(nb),
                    k as int,
                )
            }),
    {
        let ghost t = self.target_map@;
        let ghost tl = self.target_map.min_length as int;
        let ghost h0 = self.target_position_frequency;
        let ghost seen0 = self.reads_seen;
        let ghost all = batch_reads(batches_view(batches@));
        let ghost cap = self.num_reads_to_find_start_pos as int;
        let mut scanner = self;
        let n = batches.len();
        let mut bi: usize = 0;
        proof {
            assert(all.take(0) =~= Seq::<Seq<u8>>::empty());
            assert(batch_reads(batches_view(batches@).take(0)) =~= Seq::<Seq<u8>>::empty());
        }
        while bi < n
            invariant
                bi <= n,
                n == batches@.len(),

                all == batch_reads(batches_view(batches@)),
                t == scanner.target_map@,
                tl == scanner.target_map.min_length as int,
                h0 == self.target_position_frequency,
                seen0 == self.reads_seen,
                cap == self.num_reads_to_find_start_pos as int,
                scanner.target_map == self.target_map,
                scanner.num_reads_to_find_start_pos == self.num_reads_to_find_start_pos,
                scanner.wf(),
                scanner.reads_seen - seen0 == vstd::math::min(
                    cap - seen0,
                    batch_reads(batches_view(batches@).take(bi as int)).len() as int,
                ),
                forall|k: usize| #[trigger] scanner.target_position_frequency.count(k) == h0.count(
                    k,
                ) + batch_score(t, tl, all.take(scanner.reads_seen - seen0), k as int),
            decreases n - bi,
        {
            let ghost d = scanner.reads_seen - seen0;
            let ghost pb = batch_reads(batches_view(batches@).take(bi as int));
            let ghost lb = reads_of(batches_view(batches@)[bi as int]);
            proof {
                lemma_batch_reads_prefix(batches_view(batches@), bi as int);
                lemma_batch_reads_prefix(batches_view(batches@), bi as int + 1);
                assert(batches_view(batches@).take(bi as int + 1).drop_last() =~= batches_view(batches@)
                    .take(bi as int));
                assert(batches_view(batches@).take(bi as int + 1).last() == batches_view(batches@)[
                    bi as int]);
                assert(batch_reads(batches_view(batches@).take(bi as int + 1)) == pb + lb);
                assert(batches_view(batches@)[bi as int] == batches@[bi as int]@);
                assert(reads_of(batches@[bi as int]@) =~= lb);
            }
            scanner.scan_batch(&batches[bi]);
            proof {
                let nb = vstd::math::min(lb.len() as int, cap - (seen0 + d));
                assert(scanner.reads_seen - seen0 == d + nb);
                if nb > 0 {
                    assert(d == pb.len());
                    assert(all.take(d + nb) =~= all.take(d) + lb.take(nb)) by {
                        assert(all == batch_reads(batches_view(batches@).take(bi as int + 1))
                            + batch_reads(batches_view(batches@).skip(bi as int + 1)));
                        assert forall|j: int| 0 <= j < nb implies all[d + j] == lb[j] by {
                            assert((pb + lb)[pb.len() + j] == lb[j]);
                        }
                    }
                    lemma_batch_score_concat(t, tl, all.take(d), lb.take(nb), 0);
                    assert forall|k: usize| #[trigger] scanner.target_position_frequency.count(k)
                        == h0.count(k) + batch_score(
                        t,
                        tl,
                        all.take(scanner.reads_seen - seen0),
                        k as int,
                    ) by {
                        lemma_batch_score_concat(t, tl, all.take(d), lb.take(nb), k as int);
                        assert(all.take(d + nb) == all.take(d) + lb.take(nb));
                    }
                } else {
                    assert(lb.take(0) =~= Seq::<Seq<u8>>::empty());
                    assert(all.take(d + nb) == all.take(d));
                }
            }
            bi += 1;
        }
        proof {
            assert(batches_view(batches@).take(n as int) =~= batches_view(batches@));
        }
        scanner.target_position_frequency
    }
}

/// The classification the tagger sees for a record: that of the window at
/// the chosen offset, or `NoMatch` when the read is too short to have one.
pub open spec fn tag_case(
    t: Map<Seq<u8>, LookupSpec>,
    len: int,
    pos: int,
    r: RecordView,
) -> LookupSpec {
    if 0 <= pos && 0 <= len && pos + len <= r.seq.len() {
        lookup_spec(t, r.seq.subrange(pos, pos + len))
    } else {
        LookupSpec::NoMatch
    }
}

/// What a record becomes after the tagger inspects it: the marker's label is
/// attached on an exact or one-mismatch match, and the record is untouched
/// otherwise. The read bytes are never altered.
pub open spec fn tag_outcome(
    t: Map<Seq<u8>, LookupSpec>,
    len: int,
    pos: int,
    r: RecordView,
) -> RecordView {
    match tag_case(t, len, pos, r) {
        LookupSpec::Exact(n) => RecordView { seq: r.seq, tag: Option::Some(n) },
        LookupSpec::ErrorOf(n) => RecordView { seq: r.seq, tag: Option::Some(n) },
        _ => r,
    }
}

/// A whole batch after tagging, record by record.
pub open spec fn tagged_records(
    t: Map<Seq<u8>, LookupSpec>,
    len: int,
    pos: int,
    rs: Seq<RecordView>,
) -> Seq<RecordView> {
    rs.map_values(|r: RecordView| tag_outcome(t, len, pos, r))
}

/// The views of a sequence of records.
pub open spec fn record_views(rs: Seq<RecordData>) -> Seq<RecordView> {
    rs.map_values(|r: RecordData| r@)
}

/// How many records of a batch classify as an exact match at the offset.
pub open spec fn count_exact(
    t: Map<Seq<u8>, LookupSpec>,
    len: int,
    pos: int,
    rs: Seq<RecordView>,
) -> int
    decreases rs.len(),
{
    if rs.len() == 0 {
        0
    } else {
        count_exact(t, len, pos, rs.drop_last()) + if tag_case(t, len, pos, rs.last()) is Exact {
            1int
        } else {
            0int
        }
    }
}

/// How many records of a batch classify as a one-mismatch match at the
/// offset.
pub open spec fn count_mismatch(
    t: Map<Seq<u8>, LookupSpec>,
    len: int,
    pos: int,
    rs: Seq<RecordView>,
) -> int
    decreases rs.len(),
{
    if rs.len() == 0 {
        0
    } else {
        count_mismatch(t, len, pos, rs.drop_last()) + if tag_case(
            t,
            len,
            pos,
            rs.last(),
        ) is ErrorOf {
            1int
        } else {
            0int
        }
    }
}

/// Match counts never exceed the number of records.
proof fn lemma_count_bounds(t: Map<Seq<u8>, LookupSpec>, len: int, pos: int, rs: Seq<RecordView>)
    ensures
        0 <= count_exact(t, len, pos, rs) <= rs.len(),
        0 <= count_mismatch(t, len, pos, rs) <= rs.len(),
    decreases rs.len(),
{
    if rs.len() > 0 {
        lemma_count_bounds(t, len, pos, rs.drop_last());
    }
}

/// Inspects each record of the tagging pass at the chosen offset and attaches
/// labels.
pub struct Tagger {
    /// The finished lookup table, shared read-only.
    pub target_map: SequenceTable,
}

impl Tagger {
    /// Decides the tag for one record: on an exact or one-mismatch window at
    /// the chosen offset the marker's label is attached and the matching
    /// counter stepped; otherwise the record is left unmodified. A read too
    /// short to have a window at the offset is left unmodified.
    pub fn compute_tag_to_add_to_bam_record(
        &self,
        record_to_write: &mut RecordData,
        most_freq_start_pos: usize,
        metrics: &mut Metrics,
    )
        requires
            self.target_map.wf(),
            old(metrics).exact_count < u64::MAX,
            old(metrics).mismatch_count < u64::MAX,
        ensures
            final(record_to_write)@ == tag_outcome(
                self.target_map@,
                self.target_map.min_length as int,
                most_freq_start_pos as int,
                old(record_to_write)@,
            ),
            final(metrics).exact_count == old(metrics).exact_count + if tag_case(
                self.target_map@,
                self.target_map.min_length as int,
                most_freq_start_pos as int,
                old(record_to_write)@,
            ) is Exact {
                1int
            } else {
                0int
            },
            final(metrics).mismatch_count == old(metrics).mismatch_count + if tag_case(
                self.target_map@,
                self.target_map.min_length as int,
                most_freq_start_pos as int,
                old(record_to_write)@,
            ) is ErrorOf {
                1int
            } else {
                0int
            },
            final(metrics).read_count == old(metrics).read_count,
            final(metrics).input_bam == old(metrics).input_bam,
            final(metrics).target_position_frequency == old(metrics).target_position_frequency,
    {
        let target_len = self.target_map.min_length;
        let record_len = record_to_write.seq.len();
        if most_freq_start_pos <= record_len && target_len <= record_len - most_freq_start_pos {
            let window = &record_to_write.seq.as_slice()[most_freq_start_pos..most_freq_start_pos
                + target_len];
            match self.target_map.lookup(window) {
                SequenceLookup::Exact(name) => {
                    record_to_write.tag = Some(name);
                    metrics.exact_count = metrics.exact_count + 1;
                },
                SequenceLookup::ErrorOf(name) => {
                    record_to_write.tag = Some(name);
                    metrics.mismatch_count = metrics.mismatch_count + 1;
                },
                _ => {},
            }
        }
    }

    /// Tags every record of one batch in place, counting each record toward
    /// the read total and stepping the match counters.
    pub fn tag_batch(
        &self,
        batch: &mut Vec<RecordData>,
        most_freq_start_pos: usize,
        metrics: &mut Metrics,
    )
        requires
            self.target_map.wf(),
            old(metrics).read_count + old(batch)@.len() <= u64::MAX,
            old(metrics).exact_count + old(batch)@.len() <= u64::MAX,
            old(metrics).mismatch_count + old(batch)@.len() <= u64::MAX,
        ensures
            record_views(final(batch)@) == tagged_records(
                self.target_map@,
                self.target_map.min_length as int,
                most_freq_start_pos as int,
                record_views(old(batch)@),
            ),
            final(batch)@.len() == old(batch)@.len(),
            final(metrics).read_count == old(metrics).read_count + old(batch)@.len(),
            final(metrics).exact_count == old(metrics).exact_count + count_exact(
                self.target_map@,
                self.target_map.min_length as int,
                most_freq_start_pos as int,
                record_views(old(batch)@),
            ),
            final(metrics).mismatch_count == old(metrics).mismatch_count + count_mismatch(
                self.target_map@,
                self.target_map.min_length as int,
                most_freq_start_pos as int,
                record_views(old(batch)@),
            ),
            final(metrics).input_bam == old(metrics).input_bam,
            final(metrics).target_position_frequency == old(metrics).target_position_frequency,
    {
        let ghost t = self.target_map@;
        let ghost tl = self.target_map.min_length as int;
        let ghost pos = most_freq_start_pos as int;
        let ghost rv0 = record_views(old(batch)@);
        let ghost m0 = *old(metrics);
        let mut work: Vec<RecordData> = Vec::new();
        core::mem::swap(&mut work, batch);
        let mut out: Vec<RecordData> = Vec::new();
        let n = work.len();
        let mut j: usize = 0;
        proof {
            assert(record_views(out@) =~= tagged_records(t, tl, pos, rv0.take(0)));
        }
        while j < n
            invariant
                j <= n,
                n == rv0.len(),
                work@.len() == n,
                rv0 == record_views(old(batch)@),
                forall|q: int| j <= q < n ==> work@[q] == old(batch)@[q],
                t == self.target_map@,
                tl == self.target_map.min_length as int,
                pos == most_freq_start_pos as int,
                self.target_map.wf(),
                out@.len() == j,
                record_views(out@) == tagged_records(t, tl, pos, rv0.take(j as int)),
                metrics.read_count == m0.read_count + j,
                metrics.exact_count == m0.exact_count + count_exact(t, tl, pos, rv0.take(j as int)),
                metrics.mismatch_count == m0.mismatch_count + count_mismatch(
                    t,
                    tl,
                    pos,
                    rv0.take(j as int),
                ),
                metrics.input_bam == m0.input_bam,
                metrics.target_position_frequency == m0.target_position_frequency,
                m0.read_count + n <= u64::MAX,
                m0.exact_count + n <= u64::MAX,
                m0.mismatch_count + n <= u64::MAX,
            decreases n - j,
        {
            proof {
                lemma_count_bounds(t, tl, pos, rv0.take(j as int));
            }
            metrics.read_count = metrics.read_count + 1;
            let mut record = RecordData { seq: Vec::new(), tag: None };
            // Take the record out of the working vector, tag it, and keep it.
            vstd::pervasive::VecAdditionalExecFns::set_and_swap(&mut work, j, &mut record);
            proof {
                assert(record@ == rv0[j as int]);
            }
            self.compute_tag_to_add_to_bam_record(&mut record, most_freq_start_pos, metrics);
            let ghost out_prev = out@;
            let ghost record_now = record@;
            out.push(record);
            proof {
                assert(rv0.take(j as int + 1).drop_last() =~= rv0.take(j as int));
                assert(rv0.take(j as int + 1).last() == rv0[j as int]);
                assert(record_now == tag_outcome(t, tl, pos, rv0[j as int]));
                let goal = tagged_records(t, tl, pos, rv0.take(j as int + 1));
                assert forall|q: int| 0 <= q < out@.len() implies record_views(out@)[q]
                    == goal[q] by {
                    assert(rv0.take(j as int + 1)[q] == rv0[q]);
                    if q < j as int {
                        assert(out@[q] == out_prev[q]);
                        assert(record_views(out_prev)[q] == tagged_records(
                            t,
                            tl,
                            pos,
                            rv0.take(j as int),
                        )[q]);
                        assert(rv0.take(j as int)[q] == rv0[q]);
                    } else {
                        assert(out@[q] == record);
                    }
                }
                assert(record_views(out@) =~= goal);
            }
            j += 1;
        }
        core::mem::swap(&mut out, batch);
        proof {
            assert(rv0.take(n as int) =~= rv0);
        }
    }
}

/// Running the tagger twice over the same records, with the same table and
/// the same chosen offset, produces identical tagged output both times: the
/// tagged form of a batch is a function of those inputs alone.
pub proof fn lemma_tagger_deterministic(
    t: Map<Seq<u8>, LookupSpec>,
    len: int,
    pos: int,
    rs1: Seq<RecordView>,
    rs2: Seq<RecordView>,
)
    requires
        rs1 == rs2,
    ensures
        tagged_records(t, len, pos, rs1) == tagged_records(t, len, pos, rs2),
{
}

/// A table that classifies every window as `Ambiguous` or `NoMatch` scores
/// nothing at any offset of any read.
pub proof fn lemma_never_matching_scores_nothing(
    t: Map<Seq<u8>, LookupSpec>,
    len: int,
    rs: Seq<Seq<u8>>,
    k: int,
)
    requires
        forall|w: Seq<u8>| class_score(#[trigger] lookup_spec(t, w)) == 0,
    ensures
        batch_score(t, len, rs, k) == 0,
    decreases rs.len(),
{
    if rs.len() > 0 {
        lemma_never_matching_scores_nothing(t, len, rs.drop_last(), k);
    }
}

/// The degenerate case: when the whitelist's markers never occur, exactly or
/// within one substitution, in any scanned read, every accumulated count is
/// zero and the histogram is the empty map, so the selector reports no offset
/// and the caller passes the file through unmodified instead of tagging.
pub proof fn lemma_degenerate_whitelist(
    t: Map<Seq<u8>, LookupSpec>,
    len: int,
    rs: Seq<Seq<u8>>,
    h: Histogram,
)
    requires
        forall|w: Seq<u8>| class_score(#[trigger] lookup_spec(t, w)) == 0,
        h.wf(),
        forall|k: usize| #[trigger] h.count(k) == batch_score(t, len, rs, k as int),
    ensures
        h@ == Map::<usize, usize>::empty(),
{
    assert forall|k: usize| !(#[trigger] h@.contains_key(k)) by {
        lemma_never_matching_scores_nothing(t, len, rs, k as int);
        assert(h.count(k) == 0);
        if h@.contains_key(k) {
            let i = choose|i: int| 0 <= i < h.counts@.len() && (#[trigger] h.counts@[i]).0 == k;
            assert(h.counts@[i].1 > 0);
            assert(h@[k] == h.counts@[choose|i: int|
                0 <= i < h.counts@.len() && (#[trigger] h.counts@[i]).0 == k].1);
        }
    }
    assert forall|k: usize| !(#[trigger] h@.dom().contains(k)) by {
        assert(!h@.contains_key(k));
    }
    assert(h@ =~= Map::<usize, usize>::empty());
}

/// The total number of records across a sequence of batches.
pub open spec fn sum_batch_lens<T>(bs: Seq<Seq<T>>) -> int
    decreases bs.len(),
{
    if bs.len() == 0 {
        0
    } else {
        sum_batch_lens(bs.drop_last()) + bs.last().len()
    }
}

/// The lengths of a sequence of batches sum to the length of their
/// concatenation.
proof fn lemma_sum_batch_lens_is_flatten_len<T>(bs: Seq<Seq<T>>)
    ensures
        sum_batch_lens(bs) == bs.flatten().len(),
    decreases bs.len(),
{
    if bs.len() > 0 {
        lemma_sum_batch_lens_is_flatten_len(bs.drop_last());
        bs.drop_last().lemma_flatten_push(bs.last());
        assert(bs.drop_last().push(bs.last()) =~= bs);
    }
}

/// Batch boundaries never drop or duplicate records: once the pending batch
/// has been flushed, the emitted batches hold, in order, exactly the records
/// pushed, so summing the batch lengths over a full pass gives the number of
/// records pushed.
pub proof fn lemma_batching_preserves_records<T>(b: Batcher<T>)
    requires
        b.wf(),
        b.batch@.len() == 0,
    ensures
        b.emitted@.flatten() == b.pushed@,
        sum_batch_lens(b.emitted@) == b.pushed@.len(),
{
    assert(b.emitted@.flatten() + b.batch@ =~= b.emitted@.flatten());
    lemma_sum_batch_lens_is_flatten_len(b.emitted@);
}

} // verus!
