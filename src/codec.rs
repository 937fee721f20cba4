//! The datum and integer encodings found in index keys and values.
use vstd::prelude::*;
use byteorder::ByteOrder;

verus! {

/// Flag of a null datum.
pub const NIL_FLAG: u8 = 0;
/// Flag of a memory-comparable byte string datum.
pub const BYTES_FLAG: u8 = 1;
/// Flag of a length-prefixed byte string datum.
pub const COMPACT_BYTES_FLAG: u8 = 2;
/// Flag of a memory-comparable signed integer datum.
pub const INT_FLAG: u8 = 3;
/// Flag of a memory-comparable unsigned integer datum.
pub const UINT_FLAG: u8 = 4;
/// Flag of a floating-point datum.
pub const FLOAT_FLAG: u8 = 5;
/// Flag of a decimal datum.
pub const DECIMAL_FLAG: u8 = 6;
/// Flag of a duration datum.
pub const DURATION_FLAG: u8 = 7;
/// Flag of a variable-length signed integer datum.
pub const VAR_INT_FLAG: u8 = 8;
/// Flag of a variable-length unsigned integer datum.
pub const VAR_UINT_FLAG: u8 = 9;
/// Flag of a JSON datum.
pub const JSON_FLAG: u8 = 10;
/// Flag of the datum that sorts after every other.
pub const MAX_FLAG: u8 = 250;

/// Bytes of data in one group of a memory-comparable byte string.
pub const ENC_GROUP_SIZE: usize = 8;
/// Marker byte of a full group of a memory-comparable byte string.
pub const ENC_MARKER: u8 = 255;

/// 2^63, the offset that turns the comparable form of a signed integer into its value.
pub const SIGN_OFFSET: u64 = 0x8000_0000_0000_0000;

/// The unsigned number whose big-endian bytes are `s`.
pub open spec fn be_nat(s: Seq<u8>) -> nat
    decreases s.len(),
{
    if s.len() == 0 {
        0
    } else {
        be_nat(s.drop_last()) * 256 + s.last() as nat
    }
}

/// The signed 64-bit value with the same bits as the unsigned 64-bit value `u`.
pub open spec fn as_signed(u: nat) -> int {
    if u >= 0x8000_0000_0000_0000 {
        u - 0x1_0000_0000_0000_0000
    } else {
        u as int
    }
}

/// The unsigned integer held in the first eight bytes of `s`.
pub open spec fn be_u64_of(s: Seq<u8>) -> nat {
    be_nat(s.take(8))
}

/// The signed integer whose memory-comparable encoding starts `s`.
pub open spec fn cmp_i64_of(s: Seq<u8>) -> int {
    be_u64_of(s) - 0x8000_0000_0000_0000
}

/// The `n` big-endian bytes of the low `n` bytes of `u`.
pub open spec fn be_digits(u: nat, n: nat) -> Seq<u8>
    decreases n,
{
    if n == 0 {
        Seq::empty()
    } else {
        be_digits(u / 256, (n - 1) as nat).push((u % 256) as u8)
    }
}

/// The eight big-endian bytes of the unsigned integer `u`.
pub open spec fn be_bytes(u: nat) -> Seq<u8> {
    be_digits(u, 8)
}

/// The memory-comparable encoding of the signed integer `v`.
pub open spec fn cmp_i64_bytes(v: int) -> Seq<u8> {
    be_bytes((v + 0x8000_0000_0000_0000) as nat)
}

/// 256 to the power `n`.
pub open spec fn pow256(n: nat) -> nat
    decreases n,
{
    if n == 0 {
        1
    } else {
        pow256((n - 1) as nat) * 256
    }
}

/// Reading back the `n` bytes of a value below 256^n gives the value.
pub proof fn lemma_be_digits_round_trip(u: nat, n: nat)
    requires
        u < pow256(n),
    ensures
        be_nat(be_digits(u, n)) == u,
        be_digits(u, n).len() == n,
    decreases n,
{
    if n > 0 {
        let p = pow256((n - 1) as nat);
        assert(u / 256 < p) by (nonlinear_arith)
            requires u < p * 256;
        lemma_be_digits_round_trip(u / 256, (n - 1) as nat);
        let s = be_digits(u, n);
        assert(s.drop_last() =~= be_digits(u / 256, (n - 1) as nat));
        assert(u == (u / 256) * 256 + u % 256) by (nonlinear_arith);
    }
}

/// Reading back the eight bytes of an unsigned 64-bit value gives the value.
pub proof fn lemma_be_bytes_round_trip(u: nat)
    requires
        u < 0x1_0000_0000_0000_0000,
    ensures
        be_nat(be_bytes(u)) == u,
        be_bytes(u).len() == 8,
        be_u64_of(be_bytes(u)) == u,
{
    reveal_with_fuel(pow256, 9);
    lemma_be_digits_round_trip(u, 8);
    assert(be_bytes(u).take(8) =~= be_bytes(u));
}

/// Relies on byteorder's `BigEndian::read_u64`: the first eight bytes of `buf`
/// read as a big-endian unsigned integer. It panics on fewer than eight bytes.
#[verifier::external_body]
fn read_be_u64(buf: &[u8]) -> (r: u64)
    requires
        buf@.len() >= 8,
    ensures
        r as nat == be_u64_of(buf@),
{
    byteorder::BigEndian::read_u64(buf)
}

/// Decodes a memory-comparable signed integer from the front of `buf`.
pub fn decode_i64(buf: &[u8]) -> (r: Option<i64>)
    ensures
        buf@.len() < 8 ==> r.is_none(),
        buf@.len() >= 8 ==> r == Some(cmp_i64_of(buf@) as i64) && r.unwrap() as int == cmp_i64_of(buf@),
{
    if buf.len() < 8 {
        return None;
    }
    let u = read_be_u64(buf);
    if u >= SIGN_OFFSET {
        Some((u - SIGN_OFFSET) as i64)
    } else {
        Some((u as i64) - 0x7fff_ffff_ffff_ffff - 1)
    }
}

/// Decodes a memory-comparable unsigned integer from the front of `buf`.
pub fn decode_u64(buf: &[u8]) -> (r: Option<u64>)
    ensures
        buf@.len() < 8 ==> r.is_none(),
        buf@.len() >= 8 ==> r == Some(be_u64_of(buf@) as u64) && r.unwrap() as nat == be_u64_of(buf@),
{
    if buf.len() < 8 {
        return None;
    }
    Some(read_be_u64(buf))
}

/// Reads a big-endian signed 64-bit integer from the front of `buf`, as a row
/// handle is stored in the value of a unique index entry.
pub fn decode_i64_be(buf: &[u8]) -> (r: Option<i64>)
    ensures
        buf@.len() < 8 ==> r.is_none(),
        buf@.len() >= 8 ==> r.is_some() && r.unwrap() as int == as_signed(be_u64_of(buf@)),
{
    if buf.len() < 8 {
        return None;
    }
    Some(u64_as_i64(read_be_u64(buf)))
}

/// The signed integer with the same 64 bits as `u`.
pub fn u64_as_i64(u: u64) -> (r: i64)
    ensures
        r as int == as_signed(u as nat),
{
    if u >= SIGN_OFFSET {
        ((u - SIGN_OFFSET) as i64) - 0x7fff_ffff_ffff_ffff - 1
    } else {
        u as i64
    }
}


/// Adds `k` to a length, if there is one.
pub open spec fn opt_add(o: Option<nat>, k: nat) -> Option<nat> {
    match o {
        Some(n) => Some(n + k),
        None => None,
    }
}

/// Length of a memory-comparable byte string at the front of `s`: whole groups
/// of eight data bytes and a marker, up to the first marker that is not
/// `ENC_MARKER`. `None` when `s` ends before that group.
pub open spec fn bytes_body_len(s: Seq<u8>) -> Option<nat>
    decreases s.len(),
{
    if s.len() < 9 {
        None
    } else if s[8] != ENC_MARKER {
        Some(9)
    } else {
        opt_add(bytes_body_len(s.skip(9)), 9)
    }
}

/// Length of a variable-length integer that starts at `s[i]`, counted from the
/// front of `s`: it ends at the first byte below 128, within ten bytes.
pub open spec fn varint_len_from(s: Seq<u8>, i: nat) -> Option<nat>
    decreases 10 - i,
{
    if i >= 10 || i >= s.len() {
        None
    } else if s[i as int] < 128 {
        Some(i + 1)
    } else {
        varint_len_from(s, i + 1)
    }
}

/// Bytes that a group of `d` decimal digits, `d < 9`, takes in a decimal.
pub open spec fn dig_to_bytes(d: nat) -> nat {
    if d == 0 {
        0
    } else if d <= 2 {
        1
    } else if d <= 4 {
        2
    } else if d <= 6 {
        3
    } else {
        4
    }
}

/// Length of a decimal body: a precision byte, a fraction-digit count byte,
/// then four bytes per nine digits and a shorter group for the digits left,
/// for the integer part and for the fraction part.
pub open spec fn decimal_body_len(s: Seq<u8>) -> Option<nat> {
    if s.len() < 2 || s[0] < s[1] {
        None
    } else {
        let int_cnt = (s[0] - s[1]) as nat;
        let frac_cnt = s[1] as nat;
        let l = 2 + (int_cnt / 9) * 4 + dig_to_bytes(int_cnt % 9) + (frac_cnt / 9) * 4 + dig_to_bytes(
            frac_cnt % 9,
        );
        if l <= s.len() {
            Some(l)
        } else {
            None
        }
    }
}

/// Length of the body that follows the flag `flag` of a datum, read from `body`.
/// Index keys hold memory-comparable datums only: compact byte strings and
/// JSON are encodings of row values, never of index keys, so a key datum with
/// one of those flags is corrupted data.
pub open spec fn datum_body_len(flag: u8, body: Seq<u8>) -> Option<nat> {
    if flag == NIL_FLAG || flag == MAX_FLAG {
        Some(0)
    } else if flag == INT_FLAG || flag == UINT_FLAG || flag == FLOAT_FLAG || flag == DURATION_FLAG {
        if body.len() >= 8 {
            Some(8)
        } else {
            None
        }
    } else if flag == BYTES_FLAG {
        bytes_body_len(body)
    } else if flag == VAR_INT_FLAG || flag == VAR_UINT_FLAG {
        varint_len_from(body, 0)
    } else if flag == DECIMAL_FLAG {
        decimal_body_len(body)
    } else {
        None
    }
}

/// Length of the datum, flag included, at the front of `s`; `None` when no
/// datum of a supported kind can be split off it.
pub open spec fn datum_len(s: Seq<u8>) -> Option<nat> {
    if s.len() == 0 {
        None
    } else {
        opt_add(datum_body_len(s[0], s.drop_first()), 1)
    }
}

proof fn lemma_bytes_body_len_bound(s: Seq<u8>)
    ensures
        bytes_body_len(s) matches Some(n) ==> 9 <= n <= s.len(),
    decreases s.len(),
{
    if s.len() >= 9 && s[8] == ENC_MARKER {
        lemma_bytes_body_len_bound(s.skip(9));
    }
}

proof fn lemma_varint_len_bound(s: Seq<u8>, i: nat)
    ensures
        varint_len_from(s, i) matches Some(n) ==> i < n <= s.len(),
    decreases 10 - i,
{
    if i < 10 && i < s.len() && s[i as int] >= 128 {
        lemma_varint_len_bound(s, i + 1);
    }
}

/// A datum that can be split is non-empty and lies within `s`.
pub proof fn lemma_datum_len_bound(s: Seq<u8>)
    ensures
        datum_len(s) matches Some(n) ==> 1 <= n <= s.len(),
{
    if s.len() > 0 {
        lemma_bytes_body_len_bound(s.drop_first());
        lemma_varint_len_bound(s.drop_first(), 0);
    }
}

fn bytes_datum_len(buf: &[u8]) -> (r: Option<usize>)
    requires
        buf@.len() >= 1,
    ensures
        r matches Some(n) ==> n <= buf@.len(),
        opt_add(bytes_body_len(buf@.drop_first()), 1) == match r {
            Some(n) => Some(n as nat),
            None => None::<nat>,
        },
{
    assert(buf@.drop_first() =~= buf@.skip(1));
    let mut idx: usize = 1;
    loop
        invariant
            1 <= idx <= buf@.len(),
            opt_add(bytes_body_len(buf@.drop_first()), 1) == opt_add(
                bytes_body_len(buf@.skip(idx as int)),
                idx as nat,
            ),
        decreases buf@.len() - idx,
    {
        if buf.len() - idx < 9 {
            return None;
        }
        assert(buf@.skip(idx as int)[8] == buf@[idx + 8]);
        if buf[idx + 8] != ENC_MARKER {
            return Some(idx + 9);
        }
        assert(buf@.skip(idx as int).skip(9) =~= buf@.skip(idx + 9));
        idx = idx + 9;
    }
}

fn dig_to_bytes_exec(d: u8) -> (r: usize)
    ensures
        r == dig_to_bytes(d as nat),
{
    if d == 0 {
        0
    } else if d <= 2 {
        1
    } else if d <= 4 {
        2
    } else if d <= 6 {
        3
    } else {
        4
    }
}

fn decimal_datum_len(buf: &[u8]) -> (r: Option<usize>)
    requires
        buf@.len() >= 1,
    ensures
        r matches Some(n) ==> n <= buf@.len(),
        opt_add(decimal_body_len(buf@.drop_first()), 1) == match r {
            Some(n) => Some(n as nat),
            None => None::<nat>,
        },
{
    if buf.len() < 3 || buf[1] < buf[2] {
        return None;
    }
    let int_cnt = buf[1] - buf[2];
    let frac_cnt = buf[2];
    let l: usize = 2 + (int_cnt / 9) as usize * 4 + dig_to_bytes_exec(int_cnt % 9) + (frac_cnt / 9) as usize * 4
        + dig_to_bytes_exec(frac_cnt % 9);
    if l <= buf.len() - 1 {
        Some(l + 1)
    } else {
        None
    }
}

fn varint_datum_len(buf: &[u8]) -> (r: Option<usize>)
    requires
        buf@.len() >= 1,
    ensures
        r matches Some(n) ==> n <= buf@.len(),
        opt_add(varint_len_from(buf@.drop_first(), 0), 1) == match r {
            Some(n) => Some(n as nat),
            None => None::<nat>,
        },
{
    let ghost body = buf@.drop_first();
    assert(body.len() == buf@.len() - 1);
    let mut i: usize = 0;
    while i < 10 && i + 1 < buf.len()
        invariant
            i <= 10,
            i < buf@.len(),
            body == buf@.drop_first(),
            varint_len_from(body, 0) == varint_len_from(body, i as nat),
        decreases 10 - i,
    {
        assert(body[i as int] == buf@[i + 1]);
        if buf[i + 1] < 128 {
            return Some(i + 2);
        }
        i = i + 1;
    }
    None
}

/// Returns the length of the datum, flag included, at the front of `buf`.
pub fn split_datum_len(buf: &[u8]) -> (r: Option<usize>)
    ensures
        r matches Some(n) ==> 1 <= n <= buf@.len(),
        datum_len(buf@) == match r {
            Some(n) => Some(n as nat),
            None => None::<nat>,
        },
{
    proof {
        lemma_datum_len_bound(buf@);
    }
    if buf.len() == 0 {
        return None;
    }
    let flag = buf[0];
    if flag == NIL_FLAG || flag == MAX_FLAG {
        Some(1)
    } else if flag == INT_FLAG || flag == UINT_FLAG || flag == FLOAT_FLAG || flag == DURATION_FLAG {
        if buf.len() >= 9 {
            Some(9)
        } else {
            None
        }
    } else if flag == BYTES_FLAG {
        bytes_datum_len(buf)
    } else if flag == VAR_INT_FLAG || flag == VAR_UINT_FLAG {
        varint_datum_len(buf)
    } else if flag == DECIMAL_FLAG {
        decimal_datum_len(buf)
    } else {
        None
    }
}

} // verus!
