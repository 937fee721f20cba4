use index_scan::codec::{decode_i64, decode_i64_be, decode_u64, split_datum_len, u64_as_i64};
use index_scan::column::{decode_int_datum, EvalType, LazyBatchColumn};
use index_scan::error::{DecodeError, Error};
use index_scan::executor::{BatchExecuteStatistics, BatchIndexScanExecutor};
use index_scan::index::{decode_index_kv, ColumnInfo};
use index_scan::range::{is_point, key_less, KeyRange, MemStore};

const TABLE_ID: i64 = 1;
const INDEX_ID: i64 = 2;

fn cmp_i64(v: i64) -> Vec<u8> {
    ((v as u64) ^ 0x8000_0000_0000_0000).to_be_bytes().to_vec()
}

fn int_datum(v: i64) -> Vec<u8> {
    let mut d = vec![3u8];
    d.extend_from_slice(&cmp_i64(v));
    d
}

fn uint_datum(v: u64) -> Vec<u8> {
    let mut d = vec![4u8];
    d.extend_from_slice(&v.to_be_bytes());
    d
}

fn index_prefix() -> Vec<u8> {
    let mut k = vec![b't'];
    k.extend_from_slice(&cmp_i64(TABLE_ID));
    k.extend_from_slice(b"_i");
    k.extend_from_slice(&cmp_i64(INDEX_ID));
    k
}

fn key_of(datums: &[Vec<u8>]) -> Vec<u8> {
    let mut k = index_prefix();
    for d in datums {
        k.extend_from_slice(d);
    }
    k
}

fn column(id: i64, pk: bool) -> ColumnInfo {
    ColumnInfo { column_id: id, tp: 3, flag: 0, flen: 11, decimal: 0, collation: 0, pk_handle: pk }
}

fn three_columns() -> Vec<ColumnInfo> {
    vec![column(1, false), column(2, false), column(3, true)]
}

fn full_range() -> KeyRange {
    let mut end = index_prefix();
    end.push(0xFF);
    KeyRange { start: index_prefix(), end }
}

fn point_range(key: &[u8]) -> KeyRange {
    let mut end = key.to_vec();
    end.push(0);
    KeyRange { start: key.to_vec(), end }
}

/// 100 non-unique index entries: columns c1 = h, c2 = 2h, and handle h in the key.
fn non_unique_store(n: i64) -> MemStore {
    let mut entries = Vec::new();
    for h in 0..n {
        let key = key_of(&[int_datum(h), int_datum(2 * h), int_datum(h)]);
        entries.push((key, vec![b'0']));
    }
    MemStore::new(entries).unwrap()
}

fn handles(data: &index_scan::column::LazyBatchColumnVec) -> Vec<i64> {
    let last = data.columns_len() - 1;
    data.column(last).decoded().as_int_slice().iter().map(|h| h.unwrap()).collect()
}

fn drain(exec: &mut BatchIndexScanExecutor<MemStore>, n: usize) -> (Vec<i64>, usize) {
    let mut all = Vec::new();
    let mut calls = 0;
    loop {
        let r = exec.next_batch(n);
        calls += 1;
        assert!(r.error.is_none());
        assert!(r.data.rows_len() <= n);
        if r.data.rows_len() == 0 {
            assert!(r.is_drained);
            break;
        }
        all.extend(handles(&r.data));
    }
    (all, calls)
}

#[test]
fn non_unique_index_batches_of_ten() {
    let mut exec =
        BatchIndexScanExecutor::new(non_unique_store(100), three_columns(), vec![full_range()], false, false)
            .unwrap();
    let mut seen = Vec::new();
    for _ in 0..10 {
        let r = exec.next_batch(10);
        assert!(r.error.is_none());
        assert!(!r.is_drained);
        assert_eq!(r.data.columns_len(), 3);
        assert_eq!(r.data.rows_len(), 10);
        assert!(r.data.column(0).is_raw());
        assert!(r.data.column(1).is_raw());
        assert!(!r.data.column(2).is_raw());
        seen.extend(handles(&r.data));
    }
    let last = exec.next_batch(10);
    assert!(last.error.is_none());
    assert!(last.is_drained);
    assert_eq!(last.data.rows_len(), 0);
    assert_eq!(seen, (0..100).collect::<Vec<i64>>());
}

#[test]
fn raw_columns_hold_the_key_datums() {
    let mut exec =
        BatchIndexScanExecutor::new(non_unique_store(5), three_columns(), vec![full_range()], false, false)
            .unwrap();
    let r = exec.next_batch(5);
    assert_eq!(r.data.column(0).raw()[3], int_datum(3));
    assert_eq!(r.data.column(1).raw()[3], int_datum(6));
}

#[test]
fn unique_point_range_reads_handle_from_value() {
    let key = key_of(&[int_datum(7), int_datum(8)]);
    let other = key_of(&[int_datum(9), int_datum(10)]);
    let store =
        MemStore::new(vec![(key.clone(), 42i64.to_be_bytes().to_vec()), (other, 43i64.to_be_bytes().to_vec())]).unwrap();
    let mut exec =
        BatchIndexScanExecutor::new(store, three_columns(), vec![point_range(&key)], false, true).unwrap();
    let r = exec.next_batch(1);
    assert!(r.error.is_none());
    assert_eq!(r.data.rows_len(), 1);
    assert_eq!(handles(&r.data), vec![42]);
}

#[test]
fn unique_point_range_yields_at_most_one_row() {
    let key = key_of(&[int_datum(7), int_datum(8)]);
    let mut longer = key.clone();
    longer.push(0);
    let store = || {
        MemStore::new(vec![
            (key.clone(), 1i64.to_be_bytes().to_vec()),
            (longer.clone(), 2i64.to_be_bytes().to_vec()),
        ])
        .unwrap()
    };
    for desc in [false, true] {
        let mut unique =
            BatchIndexScanExecutor::new(store(), three_columns(), vec![point_range(&key)], desc, true).unwrap();
        assert_eq!(drain(&mut unique, 10).0, vec![1]);
    }
    let mut plain =
        BatchIndexScanExecutor::new(store(), three_columns(), vec![point_range(&key)], false, false).unwrap();
    assert_eq!(drain(&mut plain, 10).0, vec![1]);
}

#[test]
fn store_rejects_keys_out_of_order() {
    let a = key_of(&[int_datum(1)]);
    let b = key_of(&[int_datum(2)]);
    assert!(matches!(MemStore::new(vec![(a.clone(), vec![]), (a.clone(), vec![])]), Err(Error::UnorderedKeys)));
    assert!(matches!(MemStore::new(vec![(b.clone(), vec![]), (a.clone(), vec![])]), Err(Error::UnorderedKeys)));
    assert!(MemStore::new(vec![(a, vec![]), (b, vec![])]).is_ok());
    assert!(MemStore::new(vec![]).is_ok());
}

#[test]
fn store_scan_orders_keys_by_direction() {
    let store = non_unique_store(10);
    let r = KeyRange { start: key_of(&[int_datum(2)]), end: key_of(&[int_datum(5)]) };
    let up = store.scan(&r, false, false);
    let down = store.scan(&r, true, false);
    assert_eq!(up.len(), 3);
    assert!(up.windows(2).all(|w| w[0].0 < w[1].0));
    let mut rev = down.clone();
    rev.reverse();
    assert_eq!(rev, up);
}

#[test]
fn schema_with_handle_not_last_is_rejected() {
    let bad = vec![column(1, true), column(2, false)];
    assert!(matches!(
        BatchIndexScanExecutor::new(non_unique_store(1), bad, vec![full_range()], false, false),
        Err(Error::InvalidSchema)
    ));
    let twice = vec![column(1, false), column(2, true), column(3, true)];
    assert!(matches!(
        BatchIndexScanExecutor::new(non_unique_store(1), twice, vec![full_range()], false, false),
        Err(Error::InvalidSchema)
    ));
    let bad_range = KeyRange { start: vec![5], end: vec![5] };
    assert!(matches!(
        BatchIndexScanExecutor::new(non_unique_store(1), vec![column(1, true), column(2, true)], vec![bad_range], false, false),
        Err(Error::InvalidRange)
    ));
}

#[test]
fn unsigned_handle_in_key_keeps_its_bits() {
    let key = key_of(&[int_datum(1), int_datum(2), uint_datum(u64::MAX)]);
    let r = decode_index_kv(&key, b"", 2, true).unwrap();
    assert_eq!(r.1, Some(-1));
    let key = key_of(&[int_datum(1), int_datum(2), uint_datum(12345)]);
    assert_eq!(decode_index_kv(&key, b"", 2, true).unwrap().1, Some(12345));
}

#[test]
fn signed_handle_in_key_round_trips() {
    for h in [i64::MIN, -1, 0, 1, 99, i64::MAX] {
        let key = key_of(&[int_datum(5), int_datum(6), int_datum(h)]);
        let (datums, handle) = decode_index_kv(&key, b"", 2, true).unwrap();
        assert_eq!(handle, Some(h));
        assert_eq!(datums, vec![int_datum(5), int_datum(6)]);
    }
}

#[test]
fn handle_in_value_is_big_endian() {
    let key = key_of(&[int_datum(5), int_datum(6)]);
    for h in [i64::MIN, -42, 0, 42, i64::MAX] {
        let mut value = h.to_be_bytes().to_vec();
        value.push(0xAB);
        assert_eq!(decode_index_kv(&key, &value, 2, true).unwrap().1, Some(h));
    }
    assert_eq!(decode_index_kv(&key, &[0, 1, 2], 2, true), Err(DecodeError::HandleInValue));
}

#[test]
fn handle_not_requested_is_not_decoded() {
    let key = key_of(&[int_datum(5), int_datum(6)]);
    let (datums, handle) = decode_index_kv(&key, b"", 2, false).unwrap();
    assert_eq!(datums.len(), 2);
    assert_eq!(handle, None);
}

#[test]
fn unexpected_handle_flag_is_an_error() {
    let mut key = key_of(&[int_datum(5), int_datum(6)]);
    key.push(1);
    key.extend_from_slice(&[0; 8]);
    assert_eq!(decode_index_kv(&key, b"", 2, true), Err(DecodeError::UnexpectedHandleFlag(1)));
}

#[test]
fn decode_errors_by_kind() {
    assert_eq!(decode_index_kv(b"t_i", b"", 0, true), Err(DecodeError::KeyTooShort));
    let mut bad = index_prefix();
    bad.push(200);
    assert_eq!(decode_index_kv(&bad, b"", 1, true), Err(DecodeError::DatumSplit));
    let mut short = key_of(&[int_datum(5)]);
    short.extend_from_slice(&[3, 0, 0]);
    assert_eq!(decode_index_kv(&short, b"", 1, true), Err(DecodeError::HandleInKey));
}

#[test]
fn error_keeps_earlier_rows_and_ends_the_scan() {
    let mut entries = Vec::new();
    for h in 0..3 {
        entries.push((key_of(&[int_datum(h), int_datum(h), int_datum(h)]), vec![b'0']));
    }
    let mut bad = key_of(&[int_datum(3), int_datum(3)]);
    bad.extend_from_slice(&[7, 0, 0, 0, 0, 0, 0, 0, 0]);
    entries.push((bad, vec![b'0']));
    entries.push((key_of(&[int_datum(4), int_datum(4), int_datum(4)]), vec![b'0']));
    let mut exec =
        BatchIndexScanExecutor::new(MemStore::new(entries).unwrap(), three_columns(), vec![full_range()], false, false)
            .unwrap();
    let r = exec.next_batch(10);
    assert_eq!(handles(&r.data), vec![0, 1, 2]);
    assert_eq!(r.error, Some(Error::CorruptedData(DecodeError::UnexpectedHandleFlag(7))));
    let after = exec.next_batch(10);
    assert!(after.error.is_none());
    assert!(after.is_drained);
    assert_eq!(after.data.rows_len(), 0);
}

#[test]
fn batches_match_one_unbounded_call() {
    for desc in [false, true] {
        let ranges = || {
            let p = index_prefix();
            let mid = key_of(&[int_datum(50)]);
            let mut end = p.clone();
            end.push(0xFF);
            vec![KeyRange { start: p, end: mid.clone() }, KeyRange { start: mid, end }]
        };
        let mut one =
            BatchIndexScanExecutor::new(non_unique_store(100), three_columns(), ranges(), desc, false).unwrap();
        let (all, _) = drain(&mut one, 1000);
        for n in [1usize, 3, 7, 10, 33] {
            let mut exec =
                BatchIndexScanExecutor::new(non_unique_store(100), three_columns(), ranges(), desc, false)
                    .unwrap();
            let (got, calls) = drain(&mut exec, n);
            assert_eq!(got, all);
            assert_eq!(calls, 100 / n + 1 + usize::from(100 % n != 0));
        }
        assert_eq!(all.len(), 100);
    }
}

#[test]
fn descending_scan_reverses_ranges_and_keys() {
    let ranges = || {
        let p = index_prefix();
        let a = key_of(&[int_datum(10)]);
        let b = key_of(&[int_datum(20)]);
        let c = key_of(&[int_datum(30)]);
        vec![KeyRange { start: p, end: a.clone() }, KeyRange { start: b, end: c }]
    };
    let mut asc = BatchIndexScanExecutor::new(non_unique_store(40), three_columns(), ranges(), false, false).unwrap();
    let mut desc = BatchIndexScanExecutor::new(non_unique_store(40), three_columns(), ranges(), true, false).unwrap();
    let (up, _) = drain(&mut asc, 7);
    let (down, _) = drain(&mut desc, 7);
    let mut expected: Vec<i64> = (0..10).chain(20..30).collect();
    assert_eq!(up, expected);
    expected.reverse();
    assert_eq!(down, expected);
}

#[test]
fn zero_rows_probe_does_not_advance() {
    let mut exec =
        BatchIndexScanExecutor::new(non_unique_store(5), three_columns(), vec![full_range()], false, false)
            .unwrap();
    let probe = exec.next_batch(0);
    assert_eq!(probe.data.columns_len(), 3);
    assert_eq!(probe.data.rows_len(), 0);
    assert!(!probe.is_drained);
    assert!(probe.error.is_none());
    assert_eq!(drain(&mut exec, 2).0, vec![0, 1, 2, 3, 4]);
}

#[test]
fn invalid_range_is_rejected() {
    let r = KeyRange { start: vec![5], end: vec![5] };
    assert!(matches!(
        BatchIndexScanExecutor::new(non_unique_store(1), three_columns(), vec![full_range(), r], false, false),
        Err(Error::InvalidRange)
    ));
    let r = KeyRange { start: vec![6], end: vec![5, 9] };
    assert!(matches!(
        BatchIndexScanExecutor::new(non_unique_store(1), three_columns(), vec![r], true, false),
        Err(Error::InvalidRange)
    ));
}

#[test]
fn schema_follows_column_order() {
    let cols = vec![column(1, false), column(9, true)];
    let exec = BatchIndexScanExecutor::new(non_unique_store(1), cols, vec![full_range()], false, false).unwrap();
    assert_eq!(exec.schema().len(), 2);
    assert_eq!(exec.schema()[0].tp, 3);
    assert_eq!(exec.schema()[1].flen, 11);
}

#[test]
fn statistics_are_drained_into_destination() {
    let mut exec =
        BatchIndexScanExecutor::new(non_unique_store(10), three_columns(), vec![full_range()], false, false)
            .unwrap();
    let _ = exec.next_batch(4);
    let mut dest = BatchExecuteStatistics { scanned_ranges: 1, scanned_rows: 100 };
    exec.collect_statistics(&mut dest);
    assert_eq!(dest, BatchExecuteStatistics { scanned_ranges: 2, scanned_rows: 104 });
    exec.collect_statistics(&mut dest);
    assert_eq!(dest, BatchExecuteStatistics { scanned_ranges: 2, scanned_rows: 104 });
    let _ = exec.next_batch(100);
    exec.collect_statistics(&mut dest);
    assert_eq!(dest.scanned_rows, 110);
}

#[test]
fn decoding_a_column_twice_changes_nothing() {
    let mut col = LazyBatchColumn::raw_with_capacity(2);
    col.push_raw(&int_datum(-5));
    col.push_raw(&[0]);
    col.push_raw(&uint_datum(7));
    assert!(col.decode(EvalType::Int).is_ok());
    assert_eq!(col.decoded().as_int_slice(), &[Some(-5), None, Some(7)]);
    assert!(col.decode(EvalType::Int).is_ok());
    assert_eq!(col.decoded().as_int_slice(), &[Some(-5), None, Some(7)]);
    assert_eq!(col.len(), 3);
}

#[test]
fn decoding_a_bad_datum_leaves_column_raw() {
    let mut col = LazyBatchColumn::raw_with_capacity(1);
    col.push_raw(&int_datum(1));
    col.push_raw(&[8, 1]);
    assert_eq!(col.decode(EvalType::Int), Err(Error::CorruptedData(DecodeError::DatumValue)));
    assert!(col.is_raw());
    assert_eq!(col.raw().len(), 2);
}

#[test]
fn int_datums_decode_by_flag() {
    assert_eq!(decode_int_datum(&int_datum(-3)), Ok(Some(-3)));
    assert_eq!(decode_int_datum(&uint_datum(u64::MAX)), Ok(Some(-1)));
    assert_eq!(decode_int_datum(&[0]), Ok(None));
    assert_eq!(decode_int_datum(&[3, 1]), Err(DecodeError::DatumValue));
}

#[test]
fn integer_codecs() {
    assert_eq!(decode_i64(&cmp_i64(-7)), Some(-7));
    assert_eq!(decode_i64(&[0x80, 0, 0, 0, 0, 0, 0, 0]), Some(0));
    assert_eq!(decode_i64(&[1, 2, 3]), None);
    assert_eq!(decode_u64(&[0, 0, 0, 0, 0, 0, 1, 2, 9]), Some(258));
    assert_eq!(decode_i64_be(&[0x80, 0, 0, 0, 0, 0, 0, 0]), Some(i64::MIN));
    assert_eq!(decode_i64_be(&[0, 0, 0, 0, 0, 0, 0, 42]), Some(42));
    assert_eq!(decode_i64_be(&[0; 7]), None);
    assert_eq!(u64_as_i64(u64::MAX - 1), -2);
}

#[test]
fn datum_lengths_by_flag() {
    assert_eq!(split_datum_len(&[0, 9, 9]), Some(1));
    assert_eq!(split_datum_len(&[250]), Some(1));
    assert_eq!(split_datum_len(&int_datum(4)), Some(9));
    assert_eq!(split_datum_len(&[3, 0, 0]), None);
    let mut bytes = vec![1u8];
    bytes.extend_from_slice(&[1, 2, 3, 4, 5, 6, 7, 8, 255]);
    bytes.extend_from_slice(&[9, 0, 0, 0, 0, 0, 0, 0, 248]);
    bytes.push(77);
    assert_eq!(split_datum_len(&bytes), Some(19));
    assert_eq!(split_datum_len(&bytes[..15]), None);
    assert_eq!(split_datum_len(&[8, 0x80, 0x81, 0x01, 5]), Some(4));
    assert_eq!(split_datum_len(&[9, 0x80]), None);
    assert_eq!(split_datum_len(&[6, 1, 1]), None);
    assert_eq!(split_datum_len(&[6, 5, 2, 1, 2, 3, 99]), Some(6));
    let mut dec = vec![6u8, 20, 0];
    dec.extend_from_slice(&[0; 9]);
    assert_eq!(split_datum_len(&dec), Some(12));
    assert_eq!(split_datum_len(&dec[..11]), None);
    assert_eq!(split_datum_len(&[6, 1, 2, 0, 0]), None);
    assert_eq!(split_datum_len(&[]), None);
}

#[test]
fn key_order_and_point_ranges() {
    assert!(key_less(b"ab", b"b"));
    assert!(key_less(b"a", b"ab"));
    assert!(!key_less(b"ab", b"ab"));
    assert!(!key_less(b"b", b"ab"));
    assert!(is_point(&KeyRange { start: vec![1, 2], end: vec![1, 2, 0] }));
    assert!(!is_point(&KeyRange { start: vec![1, 2], end: vec![1, 3] }));
    assert!(!is_point(&KeyRange { start: vec![1, 2], end: vec![1, 2, 1] }));
}

#[test]
fn no_ranges_is_drained_at_once() {
    let mut exec = BatchIndexScanExecutor::new(non_unique_store(5), three_columns(), vec![], false, false).unwrap();
    for n in [0usize, 1, 10] {
        let r = exec.next_batch(n);
        assert!(r.error.is_none());
        assert_eq!(r.data.rows_len(), 0);
        assert_eq!(r.data.columns_len(), 3);
    }
}
