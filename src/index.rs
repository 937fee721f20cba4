//! The layout of index entries: the column datums in the key, and the row
//! handle either at the end of the key or in the value.
use vstd::prelude::*;
use crate::codec::{
    as_signed, be_u64_of, cmp_i64_of, datum_len, decode_i64, decode_i64_be, decode_u64,
    split_datum_len, u64_as_i64, INT_FLAG, UINT_FLAG,
};
use crate::column::{EvalType, LazyBatchColumn, LazyBatchColumnVec};
use crate::error::DecodeError;

verus! {

/// Length of the index key prefix: the table prefix byte, the table id, the
/// index separator and the index id.
pub const INDEX_KEY_PREFIX_LEN: usize = 19;

/// A decoded index entry: the encoded datum of each column, and the handle
/// when it was asked for.
pub type IndexRow = (Seq<Seq<u8>>, Option<i64>);

/// Splits `n` datums off the front of `payload`: the datums and what is left.
pub open spec fn split_datums(payload: Seq<u8>, n: nat) -> Option<(Seq<Seq<u8>>, Seq<u8>)>
    decreases n,
{
    if n == 0 {
        Some((Seq::empty(), payload))
    } else {
        match datum_len(payload) {
            None => None,
            Some(l) => match split_datums(payload.skip(l as int), (n - 1) as nat) {
                None => None,
                Some(p) => Some((seq![payload.take(l as int)] + p.0, p.1)),
            },
        }
    }
}

/// The handle stored at the end of a non-unique index key: a flag byte and an
/// eight-byte signed or unsigned comparable integer, the unsigned one read
/// with its bits as a signed one.
pub open spec fn handle_in_key(rest: Seq<u8>) -> Result<i64, DecodeError> {
    let flag = rest[0];
    let body = rest.drop_first();
    if flag == INT_FLAG {
        if body.len() >= 8 {
            Ok(cmp_i64_of(body) as i64)
        } else {
            Err(DecodeError::HandleInKey)
        }
    } else if flag == UINT_FLAG {
        if body.len() >= 8 {
            Ok(as_signed(be_u64_of(body)) as i64)
        } else {
            Err(DecodeError::HandleInKey)
        }
    } else {
        Err(DecodeError::UnexpectedHandleFlag(flag))
    }
}

/// The handle stored in the value of a unique index entry: a big-endian
/// signed 64-bit integer.
pub open spec fn handle_in_value(value: Seq<u8>) -> Result<i64, DecodeError> {
    if value.len() >= 8 {
        Ok(as_signed(be_u64_of(value)) as i64)
    } else {
        Err(DecodeError::HandleInValue)
    }
}

/// The row that the index entry `key`, `value` holds, for `n` columns and,
/// when `decode_handle` holds, the handle.
pub open spec fn decode_index_entry(key: Seq<u8>, value: Seq<u8>, n: nat, decode_handle: bool) -> Result<
    IndexRow,
    DecodeError,
> {
    if key.len() < INDEX_KEY_PREFIX_LEN {
        Err(DecodeError::KeyTooShort)
    } else {
        match split_datums(key.skip(INDEX_KEY_PREFIX_LEN as int), n) {
            None => Err(DecodeError::DatumSplit),
            Some(p) => if !decode_handle {
                Ok((p.0, None))
            } else {
                let h = if p.1.len() == 0 {
                    handle_in_value(value)
                } else {
                    handle_in_key(p.1)
                };
                match h {
                    Ok(h) => Ok((p.0, Some(h))),
                    Err(e) => Err(e),
                }
            },
        }
    }
}

/// Puts the datums `ds` in front of a split.
pub open spec fn prepend_datums(ds: Seq<Seq<u8>>, o: Option<(Seq<Seq<u8>>, Seq<u8>)>) -> Option<
    (Seq<Seq<u8>>, Seq<u8>),
> {
    match o {
        None => None,
        Some(p) => Some((ds + p.0, p.1)),
    }
}

proof fn lemma_split_datums_len(payload: Seq<u8>, n: nat)
    ensures
        split_datums(payload, n) matches Some(p) ==> p.0.len() == n,
    decreases n,
{
    if n > 0 {
        if let Some(l) = datum_len(payload) {
            lemma_split_datums_len(payload.skip(l as int), (n - 1) as nat);
        }
    }
}

/// Splits `n` datums off the front of `payload`.
fn split_datums_exec(payload: &[u8], n: usize) -> (r: Option<(Vec<Vec<u8>>, usize)>)
    ensures
        match split_datums(payload@, n as nat) {
            None => r.is_none(),
            Some(p) => r matches Some(q) && q.0@.map_values(|d: Vec<u8>| d@) == p.0 && q.1
                <= payload@.len() && payload@.skip(q.1 as int) == p.1,
        },
{
    let mut out: Vec<Vec<u8>> = Vec::with_capacity(n);
    let mut pos: usize = 0;
    let mut i: usize = 0;
    proof {
        assert(payload@.skip(0) =~= payload@);
        assert(out@.map_values(|d: Vec<u8>| d@) =~= Seq::<Seq<u8>>::empty());
        if let Some(p) = split_datums(payload@, n as nat) {
            assert(Seq::<Seq<u8>>::empty() + p.0 =~= p.0);
        }
    }
    while i < n
        invariant
            i <= n,
            pos <= payload@.len(),
            split_datums(payload@, n as nat) == prepend_datums(
                out@.map_values(|d: Vec<u8>| d@),
                split_datums(payload@.skip(pos as int), (n - i) as nat),
            ),
        decreases n - i,
    {
        let rest = vstd::slice::slice_subrange(payload, pos, payload.len());
        assert(rest@ =~= payload@.skip(pos as int));
        match split_datum_len(rest) {
            None => {
                return None;
            },
            Some(l) => {
                let d = vstd::slice::slice_subrange(rest, 0, l);
                let ghost before = out@.map_values(|d: Vec<u8>| d@);
                out.push(vstd::slice::slice_to_vec(d));
                proof {
                    assert(out@.map_values(|d: Vec<u8>| d@) =~= before.push(d@));
                    assert(rest@.skip(l as int) =~= payload@.skip(pos + l));
                    assert(d@ =~= rest@.take(l as int));
                    match split_datums(payload@.skip(pos + l), (n - i - 1) as nat) {
                        None => {},
                        Some(p) => {
                            assert(before + (seq![d@] + p.0) =~= before.push(d@) + p.0);
                        },
                    }
                }
                pos = pos + l;
            },
        }
        i = i + 1;
    }
    assert(out@.map_values(|d: Vec<u8>| d@) + Seq::<Seq<u8>>::empty() =~= out@.map_values(
        |d: Vec<u8>| d@,
    ));
    Some((out, pos))
}

/// Decodes the handle at the end of a non-unique index key.
fn decode_handle_in_key(rest: &[u8]) -> (r: Result<i64, DecodeError>)
    requires
        rest@.len() > 0,
    ensures
        r == handle_in_key(rest@),
{
    let flag = rest[0];
    let body = vstd::slice::slice_subrange(rest, 1, rest.len());
    assert(body@ =~= rest@.drop_first());
    if flag == INT_FLAG {
        match decode_i64(body) {
            Some(v) => Ok(v),
            None => Err(DecodeError::HandleInKey),
        }
    } else if flag == UINT_FLAG {
        match decode_u64(body) {
            Some(u) => Ok(u64_as_i64(u)),
            None => Err(DecodeError::HandleInKey),
        }
    } else {
        Err(DecodeError::UnexpectedHandleFlag(flag))
    }
}

/// Decodes an index entry into the encoded datums of its `n` columns and,
/// when `decode_handle` holds, its handle.
pub fn decode_index_kv(key: &[u8], value: &[u8], n: usize, decode_handle: bool) -> (r: Result<
    (Vec<Vec<u8>>, Option<i64>),
    DecodeError,
>)
    ensures
        match decode_index_entry(key@, value@, n as nat, decode_handle) {
            Ok(row) => r matches Ok(q) && q.0@.map_values(|d: Vec<u8>| d@) == row.0 && q.1 == row.1
                && row.0.len() == n,
            Err(e) => r == Err::<(Vec<Vec<u8>>, Option<i64>), DecodeError>(e),
        },
{
    if key.len() < INDEX_KEY_PREFIX_LEN {
        return Err(DecodeError::KeyTooShort);
    }
    let payload = vstd::slice::slice_subrange(key, INDEX_KEY_PREFIX_LEN, key.len());
    assert(payload@ =~= key@.skip(INDEX_KEY_PREFIX_LEN as int));
    proof {
        lemma_split_datums_len(payload@, n as nat);
    }
    match split_datums_exec(payload, n) {
        None => Err(DecodeError::DatumSplit),
        Some((datums, pos)) => {
            if !decode_handle {
                return Ok((datums, None));
            }
            let rest = vstd::slice::slice_subrange(payload, pos, payload.len());
            assert(rest@ =~= payload@.skip(pos as int));
            let h = if rest.len() == 0 {
                match decode_i64_be(value) {
                    Some(h) => Ok(h),
                    None => Err(DecodeError::HandleInValue),
                }
            } else {
                decode_handle_in_key(rest)
            };
            match h {
                Ok(h) => Ok((datums, Some(h))),
                Err(e) => Err(e),
            }
        },
    }
}


/// The unsigned 64-bit value with the same bits as the signed value `h`.
pub open spec fn as_unsigned(h: i64) -> nat {
    if h >= 0 {
        h as nat
    } else {
        (h + 0x1_0000_0000_0000_0000) as nat
    }
}

/// A handle written at the end of a non-unique index key as a signed
/// comparable integer reads back as itself.
pub proof fn lemma_handle_in_key_signed_round_trip(key: Seq<u8>, value: Seq<u8>, n: nat, h: i64)
    requires
        key.len() >= INDEX_KEY_PREFIX_LEN,
        split_datums(key.skip(INDEX_KEY_PREFIX_LEN as int), n) matches Some(p) && p.1 == seq![INT_FLAG]
            + crate::codec::cmp_i64_bytes(h as int),
    ensures
        decode_index_entry(key, value, n, true) matches Ok(row) && row.1 == Some(h),
{
    let p = split_datums(key.skip(INDEX_KEY_PREFIX_LEN as int), n).unwrap();
    crate::codec::lemma_be_bytes_round_trip((h + 0x8000_0000_0000_0000) as nat);
    assert(p.1.drop_first() =~= crate::codec::cmp_i64_bytes(h as int));
}

/// A handle written at the end of a non-unique index key as an unsigned
/// comparable integer, with its bits, reads back as itself.
pub proof fn lemma_handle_in_key_unsigned_round_trip(key: Seq<u8>, value: Seq<u8>, n: nat, h: i64)
    requires
        key.len() >= INDEX_KEY_PREFIX_LEN,
        split_datums(key.skip(INDEX_KEY_PREFIX_LEN as int), n) matches Some(p) && p.1 == seq![UINT_FLAG]
            + crate::codec::be_bytes(as_unsigned(h)),
    ensures
        decode_index_entry(key, value, n, true) matches Ok(row) && row.1 == Some(h),
{
    let p = split_datums(key.skip(INDEX_KEY_PREFIX_LEN as int), n).unwrap();
    crate::codec::lemma_be_bytes_round_trip(as_unsigned(h));
    assert(p.1.drop_first() =~= crate::codec::be_bytes(as_unsigned(h)));
}

/// When the column datums take up the whole key payload, the handle is the
/// big-endian integer at the front of the value, whatever follows it there.
pub proof fn lemma_handle_in_value_round_trip(
    key: Seq<u8>,
    value: Seq<u8>,
    n: nat,
    h: i64,
    tail: Seq<u8>,
)
    requires
        key.len() >= INDEX_KEY_PREFIX_LEN,
        split_datums(key.skip(INDEX_KEY_PREFIX_LEN as int), n) matches Some(p) && p.1.len() == 0,
        value == crate::codec::be_bytes(as_unsigned(h)) + tail,
    ensures
        decode_index_entry(key, value, n, true) matches Ok(row) && row.1 == Some(h),
{
    crate::codec::lemma_be_bytes_round_trip(as_unsigned(h));
    assert(value.take(8) =~= crate::codec::be_bytes(as_unsigned(h)));
}

/// A handle flag that is neither the signed nor the unsigned integer flag is
/// a decode error that names the flag.
pub proof fn lemma_unexpected_handle_flag(key: Seq<u8>, value: Seq<u8>, n: nat)
    requires
        key.len() >= INDEX_KEY_PREFIX_LEN,
        split_datums(key.skip(INDEX_KEY_PREFIX_LEN as int), n) matches Some(p) && p.1.len() > 0
            && p.1[0] != INT_FLAG && p.1[0] != UINT_FLAG,
    ensures
        decode_index_entry(key, value, n, true) == Err::<IndexRow, DecodeError>(
            DecodeError::UnexpectedHandleFlag(
                split_datums(key.skip(INDEX_KEY_PREFIX_LEN as int), n).unwrap().1[0],
            ),
        ),
{
}

/// The type of a column as the scan reports it.
#[derive(Debug, Clone, Copy, PartialEq, Eq, Structural)]
pub struct FieldType {
    pub tp: i32,
    pub flag: u32,
    pub flen: i32,
    pub decimal: i32,
    pub collation: i32,
}

/// What the scan is told of a column of the table.
#[derive(Debug, Clone, Copy, PartialEq, Eq, Structural)]
pub struct ColumnInfo {
    pub column_id: i64,
    pub tp: i32,
    pub flag: u32,
    pub flen: i32,
    pub decimal: i32,
    pub collation: i32,
    /// Whether the column is the table's primary-key handle.
    pub pk_handle: bool,
}

/// The field type of a column.
pub open spec fn field_type_of(ci: ColumnInfo) -> FieldType {
    FieldType { tp: ci.tp, flag: ci.flag, flen: ci.flen, decimal: ci.decimal, collation: ci.collation }
}

pub fn field_type_from_column_info(ci: &ColumnInfo) -> (r: FieldType)
    ensures
        r == field_type_of(*ci),
{
    FieldType { tp: ci.tp, flag: ci.flag, flen: ci.flen, decimal: ci.decimal, collation: ci.collation }
}

/// The number of columns that are not the handle.
pub open spec fn non_handle_count(cols: Seq<ColumnInfo>) -> nat
    decreases cols.len(),
{
    if cols.len() == 0 {
        0
    } else {
        non_handle_count(cols.drop_last()) + if cols.last().pk_handle {
            0nat
        } else {
            1nat
        }
    }
}

/// Whether one of the columns is the handle.
pub open spec fn has_handle(cols: Seq<ColumnInfo>) -> bool {
    exists|i: int| 0 <= i < cols.len() && (#[trigger] cols[i]).pk_handle
}

/// The handle column, if any, is the last column, so there is at most one.
pub open spec fn handle_last(cols: Seq<ColumnInfo>) -> bool {
    forall|i: int| 0 <= i < cols.len() && (#[trigger] cols[i]).pk_handle ==> i == cols.len() - 1
}

proof fn lemma_no_handle_count(cols: Seq<ColumnInfo>)
    requires
        forall|i: int| 0 <= i < cols.len() ==> !(#[trigger] cols[i]).pk_handle,
    ensures
        non_handle_count(cols) == cols.len(),
    decreases cols.len(),
{
    if cols.len() > 0 {
        let d = cols.drop_last();
        assert forall|i: int| 0 <= i < d.len() implies !(#[trigger] d[i]).pk_handle by {
            assert(d[i] == cols[i]);
        }
        lemma_no_handle_count(d);
        assert(!cols[cols.len() - 1].pk_handle);
    }
}

/// With the handle last, the layout has one column per schema entry.
pub proof fn lemma_layout_width(cols: Seq<ColumnInfo>)
    requires
        handle_last(cols),
    ensures
        non_handle_count(cols) + (if has_handle(cols) {
            1nat
        } else {
            0nat
        }) == cols.len(),
{
    if cols.len() > 0 {
        let d = cols.drop_last();
        assert forall|i: int| 0 <= i < d.len() implies !(#[trigger] d[i]).pk_handle by {
            assert(d[i] == cols[i]);
        }
        lemma_no_handle_count(d);
        if !cols.last().pk_handle {
            assert(!has_handle(cols));
        } else {
            assert(cols[cols.len() - 1].pk_handle);
        }
    }
}

/// The batch `b` holds the rows `rows` in the index layout: one raw column of
/// datums for each of the `n` columns, then the decoded handle column when
/// `decode_handle` holds.
pub open spec fn holds_rows(b: LazyBatchColumnVec, rows: Seq<IndexRow>, n: nat, decode_handle: bool) -> bool {
    &&& b.columns@.len() == n + if decode_handle {
        1nat
    } else {
        0nat
    }
    &&& forall|c: int|
        0 <= c < n ==> (#[trigger] b.columns@[c]).is_raw_spec() && b.columns@[c].raw_view() == rows.map_values(
            |row: IndexRow| row.0[c],
        )
    &&& decode_handle ==> !b.columns@[n as int].is_raw_spec() && b.columns@[n as int].decoded_view()
        == rows.map_values(|row: IndexRow| row.1)
}

/// The index-specific part of the scan: its schema, and how an index entry
/// becomes a row of the batch.
pub struct IndexScanExecutorImpl {
    /// The type of each output column, in the order the columns were given.
    pub schema: Vec<FieldType>,
    /// Number of columns that are not the handle.
    pub columns_len_without_handle: usize,
    /// Whether the handle is asked for. It is always the last column.
    pub decode_handle: bool,
}

impl IndexScanExecutorImpl {
    /// The layout that `columns_info` asks for.
    pub open spec fn built_from(&self, cols: Seq<ColumnInfo>) -> bool {
        &&& self.schema@ == cols.map_values(|c: ColumnInfo| field_type_of(c))
        &&& self.columns_len_without_handle == non_handle_count(cols)
        &&& self.decode_handle == has_handle(cols)
    }

    /// The type of each output column.
    pub fn schema(&self) -> (r: &[FieldType])
        ensures
            r@ == self.schema@,
    {
        self.schema.as_slice()
    }

    pub fn new(columns_info: &Vec<ColumnInfo>) -> (r: IndexScanExecutorImpl)
        ensures
            r.built_from(columns_info@),
    {
        let mut schema: Vec<FieldType> = Vec::with_capacity(columns_info.len());
        let mut columns_len_without_handle: usize = 0;
        let mut decode_handle = false;
        let mut i: usize = 0;
        while i < columns_info.len()
            invariant
                i <= columns_info@.len(),
                schema@ == columns_info@.take(i as int).map_values(|c: ColumnInfo| field_type_of(c)),
                columns_len_without_handle == non_handle_count(columns_info@.take(i as int)),
                columns_len_without_handle <= i,
                decode_handle == has_handle(columns_info@.take(i as int)),
            decreases columns_info@.len() - i,
        {
            let ci = &columns_info[i];
            let ghost pre = columns_info@.take(i as int);
            let ghost next = columns_info@.take(i + 1);
            assert(next.drop_last() =~= pre);
            schema.push(field_type_from_column_info(ci));
            assert(schema@ =~= next.map_values(|c: ColumnInfo| field_type_of(c)));
            if ci.pk_handle {
                decode_handle = true;
                assert(next[i as int].pk_handle);
            } else {
                columns_len_without_handle = columns_len_without_handle + 1;
            }
            assert(has_handle(next) == (has_handle(pre) || ci.pk_handle)) by {
                if has_handle(next) && !ci.pk_handle {
                    let j = choose|j: int| 0 <= j < next.len() && (#[trigger] next[j]).pk_handle;
                    assert(pre[j] == next[j]);
                }
                if has_handle(pre) {
                    let j = choose|j: int| 0 <= j < pre.len() && (#[trigger] pre[j]).pk_handle;
                    assert(pre[j] == next[j]);
                }
            }
            i = i + 1;
        }
        assert(columns_info@.take(i as int) =~= columns_info@);
        IndexScanExecutorImpl { schema, columns_len_without_handle, decode_handle }
    }

    /// An empty batch in the index layout.
    pub fn build_column_vec(&self, expect_rows: usize) -> (r: LazyBatchColumnVec)
        ensures
            r.wf(),
            r.rows_spec() == 0,
            holds_rows(r, Seq::empty(), self.columns_len_without_handle as nat, self.decode_handle),
    {
        let mut columns: Vec<LazyBatchColumn> = Vec::with_capacity(self.schema.len());
        let mut i: usize = 0;
        while i < self.columns_len_without_handle
            invariant
                i <= self.columns_len_without_handle,
                columns@.len() == i,
                forall|c: int|
                    0 <= c < i ==> (#[trigger] columns@[c]).is_raw_spec() && columns@[c].raw_view()
                        == Seq::<Seq<u8>>::empty() && columns@[c].rows() == 0,
            decreases self.columns_len_without_handle - i,
        {
            columns.push(LazyBatchColumn::raw_with_capacity(expect_rows));
            i = i + 1;
        }
        if self.decode_handle {
            columns.push(LazyBatchColumn::decoded_with_capacity_and_tp(expect_rows, EvalType::Int));
        }
        let r = LazyBatchColumnVec::from_columns(columns);
        assert forall|c: int| 0 <= c < self.columns_len_without_handle implies (#[trigger] r.columns@[c]).raw_view()
            == Seq::<IndexRow>::empty().map_values(|row: IndexRow| row.0[c]) by {
            assert(Seq::<IndexRow>::empty().map_values(|row: IndexRow| row.0[c]) =~= Seq::<Seq<u8>>::empty());
        }
        assert(Seq::<IndexRow>::empty().map_values(|row: IndexRow| row.1) =~= Seq::<Option<i64>>::empty());
        r
    }

    /// Decodes the index entry `key`, `value` and appends its row to `columns`.
    /// On a decode error `columns` is left as it is.
    pub fn process_kv_pair(&self, key: &[u8], value: &[u8], columns: &mut LazyBatchColumnVec) -> (r: Result<
        (),
        DecodeError,
    >)
        requires
            old(columns).wf(),
            exists|rows: Seq<IndexRow>|
                #[trigger] holds_rows(*old(columns), rows, self.columns_len_without_handle as nat, self.decode_handle)
                    && rows.len() == old(columns).rows_spec(),
        ensures
            match decode_index_entry(key@, value@, self.columns_len_without_handle as nat, self.decode_handle) {
                Ok(row) => r is Ok && forall|rows: Seq<IndexRow>|
                    #[trigger] holds_rows(*old(columns), rows, self.columns_len_without_handle as nat, self.decode_handle)
                        && rows.len() == old(columns).rows_spec() ==> holds_rows(
                        *final(columns),
                        rows.push(row),
                        self.columns_len_without_handle as nat,
                        self.decode_handle,
                    ),
                Err(e) => r == Err::<(), DecodeError>(e) && *final(columns) == *old(columns),
            },
            final(columns).wf(),
            r is Ok && old(columns).columns@.len() > 0 ==> final(columns).rows_spec() == old(columns).rows_spec() + 1,
            r is Err ==> final(columns).rows_spec() == old(columns).rows_spec(),
    {
        let n = self.columns_len_without_handle;
        let (datums, handle) = match decode_index_kv(key, value, n, self.decode_handle) {
            Ok(p) => p,
            Err(e) => {
                return Err(e);
            },
        };
        let ghost row = decode_index_entry(key@, value@, n as nat, self.decode_handle)->Ok_0;
        let ghost old_cols = *columns;
        let ghost rows0 = choose|rows: Seq<IndexRow>|
            #[trigger] holds_rows(old_cols, rows, n as nat, self.decode_handle) && rows.len()
                == old_cols.rows_spec();
        assert(holds_rows(old_cols, rows0, n as nat, self.decode_handle));
        let mut i: usize = 0;
        while i < n
            invariant
                i <= n,
                datums@.len() == n,
                datums@.map_values(|d: Vec<u8>| d@) == row.0,
                columns.columns@.len() == old_cols.columns@.len(),
                old_cols.columns@.len() == n + if self.decode_handle {
                    1nat
                } else {
                    0nat
                },
                forall|c: int|
                    0 <= c < i ==> (#[trigger] columns.columns@[c]).is_raw_spec() && columns.columns@[c].raw_view()
                        == old_cols.columns@[c].raw_view().push(row.0[c]) && columns.columns@[c].rows()
                        == old_cols.columns@[c].rows() + 1,
                forall|c: int| i <= c < old_cols.columns@.len() ==> columns.columns@[c] == old_cols.columns@[c],
                forall|c: int| 0 <= c < n ==> (#[trigger] old_cols.columns@[c]).is_raw_spec(),
            decreases n - i,
        {
            assert(datums@[i as int]@ == row.0[i as int]);
            assert(old_cols.columns@[i as int].is_raw_spec());
            assert(columns.columns@[i as int] == old_cols.columns@[i as int]);
            columns.push_raw_at(i, datums[i].as_slice());
            i = i + 1;
        }
        if self.decode_handle {
            columns.push_int_at(n, handle);
        }
        proof {
            assert forall|rows: Seq<IndexRow>|
                #[trigger] holds_rows(old_cols, rows, n as nat, self.decode_handle) && rows.len()
                    == old_cols.rows_spec() implies holds_rows(*columns, rows.push(row), n as nat, self.decode_handle) by {
                assert forall|c: int| 0 <= c < n implies (#[trigger] columns.columns@[c]).raw_view()
                    == rows.push(row).map_values(|row: IndexRow| row.0[c]) by {
                    assert(rows.push(row).map_values(|row: IndexRow| row.0[c]) =~= rows.map_values(
                        |row: IndexRow| row.0[c],
                    ).push(row.0[c]));
                }
                if self.decode_handle {
                    assert(rows.push(row).map_values(|row: IndexRow| row.1) =~= rows.map_values(
                        |row: IndexRow| row.1,
                    ).push(row.1));
                }
            }
            assert forall|c: int| 0 <= c < columns.columns@.len() implies #[trigger] columns.columns@[c].rows()
                == old_cols.rows_spec() + 1 by {
                assert(old_cols.columns@[c].rows() == old_cols.rows_spec());
                if c == n {
                    assert(old_cols.columns@[c].decoded_view().len() == rows0.len());
                } else {
                    assert(old_cols.columns@[c].raw_view().len() == rows0.len());
                }
            }
        }
        Ok(())
    }
}

} // verus!
