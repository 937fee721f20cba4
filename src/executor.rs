//! The batch index scan: walks the key ranges in order, decodes each entry
//! the store yields, and hands out rows in batches of a requested size.
use vstd::prelude::*;
use crate::column::LazyBatchColumnVec;
use crate::error::{DecodeError, Error, StoreError};
use crate::index::{
    decode_index_entry, field_type_of, handle_last, has_handle, holds_rows, lemma_layout_width, non_handle_count, ColumnInfo,
    FieldType, IndexRow, IndexScanExecutorImpl,
};
use crate::range::{
    entries_view, key_less, lex_lt, range_pairs, range_view, Entry, KeyRange, RangeModel, Store,
};

verus! {

/// The ranges in the order a scan visits them.
pub open spec fn visit_order(rs: Seq<RangeModel>, desc: bool) -> Seq<RangeModel> {
    if desc {
        rs.reverse()
    } else {
        rs
    }
}

/// The entries that the ranges `rs[i..]` yield, one range after the other.
pub open spec fn pairs_from(es: Seq<Entry>, rs: Seq<RangeModel>, i: nat, desc: bool, point_get: bool) -> Seq<Entry>
    decreases rs.len() - i,
{
    if i >= rs.len() {
        Seq::empty()
    } else {
        range_pairs(es, rs[i as int], desc, point_get) + pairs_from(es, rs, i + 1, desc, point_get)
    }
}

/// The entries that a whole scan of `rs` over `es` yields.
pub open spec fn scan_pairs(es: Seq<Entry>, rs: Seq<RangeModel>, desc: bool, point_get: bool) -> Seq<Entry> {
    pairs_from(es, visit_order(rs, desc), 0, desc, point_get)
}

/// What decoding each entry gives.
pub open spec fn decode_entries(es: Seq<Entry>, n: nat, decode_handle: bool) -> Seq<Result<IndexRow, DecodeError>> {
    es.map_values(|e: Entry| decode_index_entry(e.0, e.1, n, decode_handle))
}

/// The rows of a sequence of successful decodes.
pub open spec fn ok_rows(s: Seq<Result<IndexRow, DecodeError>>) -> Seq<IndexRow> {
    s.map_values(|x: Result<IndexRow, DecodeError>| x->Ok_0)
}

/// How many rows a batch of at most `n` rows takes from the front of `p`: it
/// stops at `n`, at the end of `p`, or at the first decode error.
pub open spec fn batch_len(p: Seq<Result<IndexRow, DecodeError>>, n: nat) -> nat
    decreases n,
{
    if n == 0 || p.len() == 0 || p[0] is Err {
        0
    } else {
        1 + batch_len(p.drop_first(), (n - 1) as nat)
    }
}

/// `k` is the length of a batch of at most `n` rows taken from `p`.
pub proof fn lemma_batch_len_is(p: Seq<Result<IndexRow, DecodeError>>, n: nat, k: nat)
    requires
        k <= n,
        k <= p.len(),
        forall|j: int| 0 <= j < k ==> p[j] is Ok,
        k == n || k == p.len() || p[k as int] is Err,
    ensures
        batch_len(p, n) == k,
    decreases k,
{
    if k > 0 {
        assert forall|j: int| 0 <= j < k - 1 implies p.drop_first()[j] is Ok by {
            assert(p.drop_first()[j] == p[j + 1]);
        }
        if k < p.len() {
            assert(p.drop_first()[k - 1] == p[k as int]);
        }
        lemma_batch_len_is(p.drop_first(), (n - 1) as nat, (k - 1) as nat);
    }
}

/// A batch takes at most the rows asked for, only rows that decoded, and
/// stops short only at the end of the rows or at a decode error.
pub proof fn lemma_batch_len_bounds(p: Seq<Result<IndexRow, DecodeError>>, n: nat)
    ensures
        batch_len(p, n) <= n,
        batch_len(p, n) <= p.len(),
        forall|j: int| 0 <= j < batch_len(p, n) ==> p[j] is Ok,
        batch_len(p, n) < n && batch_len(p, n) < p.len() ==> p[batch_len(p, n) as int] is Err,
    decreases n,
{
    if n > 0 && p.len() > 0 && p[0] is Ok {
        lemma_batch_len_bounds(p.drop_first(), (n - 1) as nat);
        let k = batch_len(p, n);
        assert forall|j: int| 0 <= j < k implies p[j] is Ok by {
            if j > 0 {
                assert(p.drop_first()[j - 1] == p[j]);
            }
        }
        if k < p.len() && k < n {
            assert(p.drop_first()[k - 1] == p[k as int]);
        }
    }
}

/// Asking for `n` rows and then for `m` more yields the same rows, in the same
/// order, as asking for `n + m` rows at once.
pub proof fn lemma_batches_compose(p: Seq<Result<IndexRow, DecodeError>>, n: nat, m: nat)
    requires
        batch_len(p, n) == n,
    ensures
        batch_len(p, n + m) == n + batch_len(p.skip(n as int), m),
        p.take(n as int) + p.skip(n as int).take(batch_len(p.skip(n as int), m) as int) == p.take(
            batch_len(p, n + m) as int,
        ),
    decreases n,
{
    lemma_batch_len_bounds(p, n);
    if n > 0 {
        assert(p.drop_first().skip(n - 1) =~= p.skip(n as int));
        lemma_batches_compose(p.drop_first(), (n - 1) as nat, m);
        assert((n + m - 1) as nat == ((n - 1) as nat + m));
    } else {
        assert(p.skip(0) =~= p);
    }
    let k2 = batch_len(p.skip(n as int), m);
    lemma_batch_len_bounds(p.skip(n as int), m);
    assert(p.take(n as int) + p.skip(n as int).take(k2 as int) =~= p.take((n + k2) as int));
}

/// The entries of the first `m` ranges of `rs`, one range after the other, in
/// ascending order.
pub open spec fn prefix_pairs(es: Seq<Entry>, rs: Seq<RangeModel>, m: nat, point_get: bool) -> Seq<Entry>
    decreases m,
{
    if m == 0 {
        Seq::empty()
    } else {
        prefix_pairs(es, rs, (m - 1) as nat, point_get) + range_pairs(es, rs[m - 1], false, point_get)
    }
}

proof fn lemma_reverse_concat(a: Seq<Entry>, b: Seq<Entry>)
    ensures
        (a + b).reverse() == b.reverse() + a.reverse(),
{
    assert((a + b).reverse() =~= b.reverse() + a.reverse());
}

proof fn lemma_ascending_is_prefix(es: Seq<Entry>, rs: Seq<RangeModel>, i: nat, point_get: bool)
    requires
        i <= rs.len(),
    ensures
        prefix_pairs(es, rs, i, point_get) + pairs_from(es, rs, i, false, point_get) == prefix_pairs(
            es,
            rs,
            rs.len(),
            point_get,
        ),
    decreases rs.len() - i,
{
    if i < rs.len() {
        lemma_ascending_is_prefix(es, rs, i + 1, point_get);
        let a = prefix_pairs(es, rs, i, point_get);
        let b = range_pairs(es, rs[i as int], false, point_get);
        let c = pairs_from(es, rs, i + 1, false, point_get);
        assert(a + (b + c) =~= (a + b) + c);
    } else {
        assert(prefix_pairs(es, rs, i, point_get) + Seq::<Entry>::empty() =~= prefix_pairs(es, rs, i, point_get));
    }
}

proof fn lemma_descending_is_reverse(es: Seq<Entry>, rs: Seq<RangeModel>, i: nat, point_get: bool)
    requires
        i <= rs.len(),
    ensures
        pairs_from(es, rs.reverse(), i, true, point_get) == prefix_pairs(
            es,
            rs,
            (rs.len() - i) as nat,
            point_get,
        ).reverse(),
    decreases rs.len() - i,
{
    if i < rs.len() {
        lemma_descending_is_reverse(es, rs, i + 1, point_get);
        let j = rs.len() - 1 - i;
        assert(rs.reverse()[i as int] == rs[j]);
        lemma_reverse_concat(prefix_pairs(es, rs, j as nat, point_get), range_pairs(es, rs[j], false, point_get));
    } else {
        assert(prefix_pairs(es, rs, 0, point_get).reverse() =~= Seq::<Entry>::empty());
    }
}

/// A descending scan yields exactly the entries of an ascending scan of the
/// same ranges, in reverse order: ranges last to first, and keys within each
/// range last to first.
pub proof fn lemma_descending_scan_reverses(es: Seq<Entry>, rs: Seq<RangeModel>, point_get: bool)
    ensures
        scan_pairs(es, rs, true, point_get) == scan_pairs(es, rs, false, point_get).reverse(),
{
    lemma_ascending_is_prefix(es, rs, 0, point_get);
    lemma_descending_is_reverse(es, rs, 0, point_get);
    assert(Seq::<Entry>::empty() + pairs_from(es, rs, 0, false, point_get) =~= pairs_from(
        es,
        rs,
        0,
        false,
        point_get,
    ));
}

/// A prefix of rows that all decoded, no longer than asked for, is no longer
/// than the batch.
proof fn lemma_batch_len_bounds_for_prefix(p: Seq<Result<IndexRow, DecodeError>>, n: nat, k: nat)
    requires
        k <= n,
        k <= p.len(),
        forall|j: int| 0 <= j < k ==> p[j] is Ok,
    ensures
        k <= batch_len(p, n),
    decreases k,
{
    if k > 0 {
        assert forall|j: int| 0 <= j < k - 1 implies p.drop_first()[j] is Ok by {
            assert(p.drop_first()[j] == p[j + 1]);
        }
        lemma_batch_len_bounds_for_prefix(p.drop_first(), (n - 1) as nat, (k - 1) as nat);
    }
}

/// The error is a failure of the store.
pub open spec fn is_store_error(e: Option<Error>) -> bool {
    e matches Some(Error::Store(_))
}

/// Counters of a scan.
#[derive(Debug, Clone, Copy, PartialEq, Eq, Structural)]
pub struct BatchExecuteStatistics {
    /// Ranges whose scan was started.
    pub scanned_ranges: u64,
    /// Rows handed out.
    pub scanned_rows: u64,
}

/// `a + b`, or the largest `u64` where that does not fit.
pub open spec fn sat_add_spec(a: u64, b: u64) -> u64 {
    if a + b > u64::MAX {
        u64::MAX
    } else {
        (a + b) as u64
    }
}

fn sat_add(a: u64, b: u64) -> (r: u64)
    ensures
        r == sat_add_spec(a, b),
{
    if a > u64::MAX - b {
        u64::MAX
    } else {
        a + b
    }
}

impl BatchExecuteStatistics {
    pub fn new() -> (r: BatchExecuteStatistics)
        ensures
            r.scanned_ranges == 0 && r.scanned_rows == 0,
    {
        BatchExecuteStatistics { scanned_ranges: 0, scanned_rows: 0 }
    }
}

/// One batch of rows, with the error that ended it, if any.
#[derive(Debug)]
pub struct BatchExecuteResult {
    pub data: LazyBatchColumnVec,
    /// No more rows will come.
    pub is_drained: bool,
    /// The error that stopped the batch; the rows before it are in `data`.
    pub error: Option<Error>,
}

/// The batch index scan executor.
pub struct BatchIndexScanExecutor<S: Store> {
    imp: IndexScanExecutorImpl,
    store: S,
    ranges: Vec<KeyRange>,
    desc: bool,
    point_get: bool,
    /// Number of ranges whose scan was started.
    next_range: usize,
    /// The entries of the range being scanned, in the order they come.
    buffer: Vec<(Vec<u8>, Vec<u8>)>,
    pos: usize,
    is_ended: bool,
    stats: BatchExecuteStatistics,
}

/// Every range ends after it starts.
pub open spec fn ranges_valid(rs: Seq<RangeModel>) -> bool {
    forall|i: int| 0 <= i < rs.len() ==> lex_lt((#[trigger] rs[i]).0, rs[i].1)
}

pub open spec fn ranges_view(rs: Seq<KeyRange>) -> Seq<RangeModel> {
    rs.map_values(|r: KeyRange| range_view(r))
}

impl<S: Store> BatchIndexScanExecutor<S> {
    pub closed spec fn wf(&self) -> bool {
        &&& self.imp.schema@.len() == self.imp.columns_len_without_handle + if self.imp.decode_handle {
            1nat
        } else {
            0nat
        }
        &&& self.pos <= self.buffer@.len()
        &&& self.next_range <= self.ranges@.len()
    }

    /// The entries still to be decoded, in the order they come.
    pub closed spec fn pending_pairs(&self) -> Seq<Entry> {
        entries_view(self.buffer@).skip(self.pos as int) + pairs_from(
            self.store.entries(),
            visit_order(ranges_view(self.ranges@), self.desc),
            self.next_range as nat,
            self.desc,
            self.point_get,
        )
    }

    /// The entries that the ranges from the `i`-th visited on yield.
    pub closed spec fn pairs_after(&self, i: nat) -> Seq<Entry> {
        pairs_from(
            self.store.entries(),
            visit_order(ranges_view(self.ranges@), self.desc),
            i,
            self.desc,
            self.point_get,
        )
    }

    /// Number of ranges whose scan was started.
    pub closed spec fn ranges_started(&self) -> nat {
        self.next_range as nat
    }

    /// Number of ranges to scan in all.
    pub closed spec fn ranges_count(&self) -> nat {
        self.ranges@.len()
    }

    /// The store that the scan reads cannot fail.
    pub closed spec fn store_never_fails(&self) -> bool {
        self.store.never_fails()
    }

    /// Number of columns that are not the handle.
    pub closed spec fn columns_count(&self) -> nat {
        self.imp.columns_len_without_handle as nat
    }

    /// Whether the handle column is produced.
    pub closed spec fn decodes_handle(&self) -> bool {
        self.imp.decode_handle
    }

    pub closed spec fn schema_view(&self) -> Seq<FieldType> {
        self.imp.schema@
    }

    /// Whether the scan has ended, drained or stopped by an error.
    pub closed spec fn ended(&self) -> bool {
        self.is_ended
    }

    pub closed spec fn stats_view(&self) -> BatchExecuteStatistics {
        self.stats
    }

    /// What decoding each pending entry gives, in order.
    pub open spec fn pending_rows(&self) -> Seq<Result<IndexRow, DecodeError>> {
        decode_entries(self.pending_pairs(), self.columns_count(), self.decodes_handle())
    }

    /// A scan of `key_ranges` over `store` that decodes the columns
    /// `columns_info`. Ranges are visited last to first, and keys within a
    /// range from last to first, when `desc` holds. When `unique` holds, a
    /// range that holds one key only yields at most one entry.
    pub fn new(
        store: S,
        columns_info: Vec<ColumnInfo>,
        key_ranges: Vec<KeyRange>,
        desc: bool,
        unique: bool,
    ) -> (r: Result<BatchIndexScanExecutor<S>, Error>)
        ensures
            !ranges_valid(ranges_view(key_ranges@)) ==> r == Err::<BatchIndexScanExecutor<S>, Error>(
                Error::InvalidRange,
            ),
            ranges_valid(ranges_view(key_ranges@)) && !handle_last(columns_info@) ==> r
                == Err::<BatchIndexScanExecutor<S>, Error>(Error::InvalidSchema),
            r is Ok <==> ranges_valid(ranges_view(key_ranges@)) && handle_last(columns_info@),
            r matches Ok(e) ==> {
                &&& e.wf()
                &&& !e.ended()
                &&& e.pending_pairs() == scan_pairs(store.entries(), ranges_view(key_ranges@), desc, unique)
                &&& e.columns_count() == non_handle_count(columns_info@)
                &&& e.ranges_started() == 0
                &&& e.ranges_count() == key_ranges@.len()
                &&& e.store_never_fails() == store.never_fails()
                &&& e.decodes_handle() == has_handle(columns_info@)
                &&& e.schema_view() == columns_info@.map_values(|c: ColumnInfo| field_type_of(c))
                &&& e.stats_view() == (BatchExecuteStatistics { scanned_ranges: 0, scanned_rows: 0 })
            },
    {
        let mut i: usize = 0;
        while i < key_ranges.len()
            invariant
                i <= key_ranges@.len(),
                forall|j: int| 0 <= j < i ==> lex_lt(key_ranges@[j].start@, key_ranges@[j].end@),
            decreases key_ranges@.len() - i,
        {
            if !key_less(key_ranges[i].start.as_slice(), key_ranges[i].end.as_slice()) {
                assert(ranges_view(key_ranges@)[i as int] == range_view(key_ranges@[i as int]));
                return Err(Error::InvalidRange);
            }
            i = i + 1;
        }
        assert forall|j: int| 0 <= j < key_ranges@.len() implies lex_lt(
            (#[trigger] ranges_view(key_ranges@)[j]).0,
            ranges_view(key_ranges@)[j].1,
        ) by {
            assert(ranges_view(key_ranges@)[j] == range_view(key_ranges@[j]));
        }
        let mut c: usize = 0;
        while c < columns_info.len()
            invariant
                c <= columns_info@.len(),
                ranges_valid(ranges_view(key_ranges@)),
                forall|j: int| 0 <= j < c && (#[trigger] columns_info@[j]).pk_handle ==> j == columns_info@.len() - 1,
            decreases columns_info@.len() - c,
        {
            if columns_info[c].pk_handle && c != columns_info.len() - 1 {
                return Err(Error::InvalidSchema);
            }
            c = c + 1;
        }
        proof {
            lemma_layout_width(columns_info@);
        }
        let imp = IndexScanExecutorImpl::new(&columns_info);
        let e = BatchIndexScanExecutor {
            imp,
            store,
            ranges: key_ranges,
            desc,
            point_get: unique,
            next_range: 0,
            buffer: Vec::new(),
            pos: 0,
            is_ended: false,
            stats: BatchExecuteStatistics::new(),
        };
        assert(e.pending_pairs() =~= scan_pairs(e.store.entries(), ranges_view(e.ranges@), desc, unique));
        Ok(e)
    }

    /// The type of each output column.
    pub fn schema(&self) -> (r: &[FieldType])
        ensures
            r@ == self.schema_view(),
    {
        self.imp.schema.as_slice()
    }

    /// Starts the scan of the next range, when the current one has no entry
    /// left; stops at a failure of the store.
    fn fill_buffer(&mut self) -> (r: Result<(), StoreError>)
        requires
            old(self).wf(),
        ensures
            final(self).wf(),
            final(self).pending_pairs() == old(self).pending_pairs(),
            r is Ok ==> final(self).pos < final(self).buffer@.len() || final(self).next_range == final(self).ranges@.len(),
            r is Err ==> final(self).pos >= final(self).buffer@.len() && final(self).next_range < final(self).ranges@.len(),
            old(self).store.never_fails() ==> r is Ok,
            old(self).pos >= old(self).buffer@.len() && old(self).next_range == old(self).ranges@.len() ==> r is Ok,
            final(self).store == old(self).store,
            final(self).ranges == old(self).ranges,
            final(self).desc == old(self).desc,
            final(self).point_get == old(self).point_get,
            final(self).next_range >= old(self).next_range,
            final(self).imp == old(self).imp,
            final(self).is_ended == old(self).is_ended,
            final(self).stats.scanned_rows == old(self).stats.scanned_rows,
            final(self).stats.scanned_ranges >= old(self).stats.scanned_ranges,
    {
        while self.pos >= self.buffer.len() && self.next_range < self.ranges.len()
            invariant
                self.wf(),
                self.pending_pairs() == old(self).pending_pairs(),
                self.imp == old(self).imp,
                self.is_ended == old(self).is_ended,
                self.stats.scanned_rows == old(self).stats.scanned_rows,
                self.stats.scanned_ranges >= old(self).stats.scanned_ranges,
                self.store == old(self).store,
                self.ranges == old(self).ranges,
                self.desc == old(self).desc,
                self.point_get == old(self).point_get,
                self.next_range >= old(self).next_range,
            decreases self.ranges@.len() - self.next_range,
        {
            let ghost es = self.store.entries();
            let ghost rs = visit_order(ranges_view(self.ranges@), self.desc);
            let ghost nr = self.next_range as nat;
            let idx = if self.desc {
                self.ranges.len() - 1 - self.next_range
            } else {
                self.next_range
            };
            assert(rs[nr as int] == range_view(self.ranges@[idx as int]));
            let entries = match self.store.scan_range(&self.ranges[idx], self.desc, self.point_get) {
                Ok(v) => v,
                Err(e) => {
                    return Err(e);
                },
            };
            assert(entries_view(self.buffer@).skip(self.pos as int) =~= Seq::<Entry>::empty());
            self.buffer = entries;
            self.pos = 0;
            self.next_range = self.next_range + 1;
            self.stats.scanned_ranges = sat_add(self.stats.scanned_ranges, 1);
            assert(entries_view(self.buffer@).skip(0) =~= entries_view(self.buffer@));
            assert(Seq::<Entry>::empty() + (range_pairs(es, rs[nr as int], self.desc, self.point_get) + pairs_from(
                es,
                rs,
                nr + 1,
                self.desc,
                self.point_get,
            )) =~= range_pairs(es, rs[nr as int], self.desc, self.point_get) + pairs_from(
                es,
                rs,
                nr + 1,
                self.desc,
                self.point_get,
            ));
        }
        Ok(())
    }

    /// Produces a batch of at most `expect_rows` rows. It stops after
    /// `expect_rows` rows, at the end of the last range, or at the first entry
    /// that does not decode, or at a failure of the store, whose error is handed
    /// on unchanged; the rows before that point are kept. Once drained
    /// or stopped by an error, the scan yields no more rows. A request for no
    /// rows leaves the scan as it is.
    #[verifier::rlimit(100)]
    #[verifier::spinoff_prover]
    pub fn next_batch(&mut self, expect_rows: usize) -> (r: BatchExecuteResult)
        requires
            old(self).wf(),
        ensures
            final(self).wf(),
            final(self).columns_count() == old(self).columns_count(),
            final(self).decodes_handle() == old(self).decodes_handle(),
            final(self).schema_view() == old(self).schema_view(),
            r.data.wf(),
            r.data.columns@.len() == old(self).schema_view().len(),
            old(self).ended() ==> {
                &&& holds_rows(r.data, Seq::empty(), old(self).columns_count(), old(self).decodes_handle())
                &&& r.is_drained
                &&& r.error.is_none()
                &&& final(self).ended()
                &&& final(self).stats_view() == old(self).stats_view()
            },
            final(self).store_never_fails() == old(self).store_never_fails(),
            final(self).ranges_count() == old(self).ranges_count(),
            old(self).store_never_fails() ==> !is_store_error(r.error),
            expect_rows == 0 ==> !is_store_error(r.error),
            old(self).ranges_started() == old(self).ranges_count() ==> !is_store_error(r.error),
            !old(self).ended() && is_store_error(r.error) ==> {
                let p = old(self).pending_rows();
                &&& exists|j: int, i: int|
                    0 <= j <= batch_len(p, expect_rows as nat) && old(self).ranges_started() <= i
                        < old(self).ranges_count() && #[trigger] holds_rows(
                        r.data,
                        ok_rows(p.take(j)),
                        old(self).columns_count(),
                        old(self).decodes_handle(),
                    ) && old(self).pending_pairs().skip(j) == #[trigger] old(self).pairs_after(i as nat)
                        && final(self).stats_view().scanned_rows == sat_add_spec(
                        old(self).stats_view().scanned_rows,
                        j as u64,
                    )
                &&& r.is_drained
                &&& final(self).ended()
            },
            !old(self).ended() && !is_store_error(r.error) ==> {
                let p = old(self).pending_rows();
                let k = batch_len(p, expect_rows as nat);
                &&& holds_rows(r.data, ok_rows(p.take(k as int)), old(self).columns_count(), old(self).decodes_handle())
                &&& final(self).stats_view().scanned_rows == sat_add_spec(old(self).stats_view().scanned_rows, k as u64)
                &&& final(self).stats_view().scanned_ranges >= old(self).stats_view().scanned_ranges
                &&& k == expect_rows ==> {
                    &&& !r.is_drained
                    &&& r.error.is_none()
                    &&& !final(self).ended()
                    &&& final(self).pending_rows() == p.skip(k as int)
                }
                &&& k < expect_rows && k == p.len() ==> {
                    &&& r.is_drained
                    &&& r.error.is_none()
                    &&& final(self).ended()
                }
                &&& k < expect_rows && k < p.len() ==> {
                    &&& r.is_drained
                    &&& r.error == Some(Error::CorruptedData(p[k as int]->Err_0))
                    &&& final(self).ended()
                }
            },
    {
        let mut data = self.imp.build_column_vec(expect_rows);
        if self.is_ended {
            return BatchExecuteResult { data, is_drained: true, error: None };
        }
        let ghost pairs0 = self.pending_pairs();
        let ghost n = self.imp.columns_len_without_handle as nat;
        let ghost dh = self.imp.decode_handle;
        let ghost p = decode_entries(pairs0, n, dh);
        let ghost imp0 = self.imp;
        let ghost stats0 = self.stats;
        let mut k: usize = 0;
        proof {
            assert(pairs0.skip(0) =~= pairs0);
            assert(ok_rows(p.take(0)) =~= Seq::<IndexRow>::empty());
        }
        while k < expect_rows
            invariant
                self.wf(),
                !self.is_ended,
                self.imp == imp0,
                imp0 == old(self).imp,
                !old(self).is_ended,
                stats0 == old(self).stats,
                pairs0 == old(self).pending_pairs(),
                n == self.imp.columns_len_without_handle,
                dh == self.imp.decode_handle,
                p == decode_entries(pairs0, n, dh),
                k <= expect_rows,
                k <= pairs0.len(),
                self.pending_pairs() == pairs0.skip(k as int),
                forall|j: int| 0 <= j < k ==> p[j] is Ok,
                data.wf(),
                holds_rows(data, ok_rows(p.take(k as int)), n, dh),
                data.columns@.len() > 0 ==> data.rows_spec() == k,
                self.stats.scanned_rows == stats0.scanned_rows,
                self.stats.scanned_ranges >= stats0.scanned_ranges,
                self.store == old(self).store,
                self.ranges == old(self).ranges,
                self.desc == old(self).desc,
                self.point_get == old(self).point_get,
                self.next_range >= old(self).next_range,
            decreases expect_rows - k,
        {
            let ghost before = *self;
            if let Err(e) = self.fill_buffer() {
                self.is_ended = true;
                self.stats.scanned_rows = sat_add(self.stats.scanned_rows, k as u64);
                proof {
                    lemma_batch_len_bounds_for_prefix(p, expect_rows as nat, k as nat);
                    assert(old(self).pending_rows() == p);
                    assert(old(self).columns_count() == n);
                    assert(old(self).decodes_handle() == dh);
                    let i = self.next_range as int;
                    assert(entries_view(self.buffer@).skip(self.pos as int) =~= Seq::<Entry>::empty());
                    assert(self.pending_pairs() =~= self.pairs_after(i as nat));
                    assert(old(self).pairs_after(i as nat) == self.pairs_after(i as nat));
                    assert(old(self).pending_pairs().skip(k as int) == old(self).pairs_after(i as nat));
                }
                let r = BatchExecuteResult { data, is_drained: true, error: Some(Error::Store(e)) };
                assert(r.data == data);
                assert(holds_rows(
                        r.data,
                        ok_rows(old(self).pending_rows().take(k as int)),
                        old(self).columns_count(),
                        old(self).decodes_handle(),
                    ));
                assert(self.ended());
                assert(is_store_error(r.error));
                return r;
            }
            if self.pos >= self.buffer.len() {
                assert(self.pending_pairs() =~= Seq::<Entry>::empty());
                proof {
                    lemma_batch_len_is(p, expect_rows as nat, k as nat);
                }
                self.is_ended = true;
                self.stats.scanned_rows = sat_add(self.stats.scanned_rows, k as u64);
                return BatchExecuteResult { data, is_drained: true, error: None };
            }
            let ghost cur = entries_view(self.buffer@)[self.pos as int];
            assert(entries_view(self.buffer@).skip(self.pos as int).len() > 0);
            assert(self.pending_pairs()[0] == cur);
            assert(self.pending_pairs().len() > 0);
            assert(pairs0.skip(k as int).len() > 0);
            assert(pairs0.skip(k as int)[0] == pairs0[k as int]);
            assert(pairs0[k as int] == cur);
            let ghost rest_before = self.pending_pairs();
            let ghost data_before = data;
            let ghost rows_k = ok_rows(p.take(k as int));
            assert(holds_rows(data, rows_k, n, dh) && rows_k.len() == data.rows_spec() || data.columns@.len() == 0);
            let res = {
                let e = &self.buffer[self.pos];
                proof {
                    if data.columns@.len() == 0 {
                        assert(holds_rows(data, Seq::<IndexRow>::empty(), n, dh));
                    }
                }
                self.imp.process_kv_pair(e.0.as_slice(), e.1.as_slice(), &mut data)
            };
            match res {
                Ok(()) => {
                    self.pos = self.pos + 1;
                    proof {
                        assert(p[k as int] == decode_index_entry(cur.0, cur.1, n, dh));
                        assert(self.pending_pairs() =~= rest_before.drop_first());
                        assert(pairs0.skip(k as int).drop_first() =~= pairs0.skip(k + 1));
                        let row = p[k as int]->Ok_0;
                        assert(ok_rows(p.take(k + 1)) =~= rows_k.push(row));
                        if data_before.columns@.len() > 0 {
                            assert(holds_rows(data, rows_k.push(row), n, dh));
                        } else {
                            assert(holds_rows(data, ok_rows(p.take(k + 1)), n, dh));
                        }
                    }
                    k = k + 1;
                },
                Err(e) => {
                    proof {
                        assert(p[k as int] == decode_index_entry(cur.0, cur.1, n, dh));
                        lemma_batch_len_is(p, expect_rows as nat, k as nat);
                    }
                    self.pos = self.pos + 1;
                    self.is_ended = true;
                    self.stats.scanned_rows = sat_add(self.stats.scanned_rows, k as u64);
                    return BatchExecuteResult { data, is_drained: true, error: Some(Error::CorruptedData(e)) };
                },
            }
        }
        proof {
            lemma_batch_len_is(p, expect_rows as nat, k as nat);
            assert(self.pending_rows() =~= p.skip(k as int));
        }
        self.stats.scanned_rows = sat_add(self.stats.scanned_rows, k as u64);
        BatchExecuteResult { data, is_drained: false, error: None }
    }

    /// Adds this scan's counters to `destination` and sets them back to zero,
    /// so that a later call adds only what came after this one.
    pub fn collect_statistics(&mut self, destination: &mut BatchExecuteStatistics)
        requires
            old(self).wf(),
        ensures
            final(self).wf(),
            final(self).pending_pairs() == old(self).pending_pairs(),
            final(self).ended() == old(self).ended(),
            final(self).columns_count() == old(self).columns_count(),
            final(self).decodes_handle() == old(self).decodes_handle(),
            final(self).schema_view() == old(self).schema_view(),
            final(self).stats_view() == (BatchExecuteStatistics { scanned_ranges: 0, scanned_rows: 0 }),
            final(destination).scanned_ranges == sat_add_spec(
                old(destination).scanned_ranges,
                old(self).stats_view().scanned_ranges,
            ),
            final(destination).scanned_rows == sat_add_spec(
                old(destination).scanned_rows,
                old(self).stats_view().scanned_rows,
            ),
    {
        destination.scanned_ranges = sat_add(destination.scanned_ranges, self.stats.scanned_ranges);
        destination.scanned_rows = sat_add(destination.scanned_rows, self.stats.scanned_rows);
        self.stats = BatchExecuteStatistics::new();
    }
}

} // verus!
