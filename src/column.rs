//! Columns that hold either still-encoded datums or decoded values, and the
//! batch of equally long columns that a scan produces.
use vstd::prelude::*;
use crate::codec::{
    as_signed, be_u64_of, cmp_i64_of, decode_i64, decode_u64, u64_as_i64, INT_FLAG, NIL_FLAG, UINT_FLAG,
};
use crate::error::{DecodeError, Error};

verus! {

/// The logical type of a decoded column.
#[derive(Debug, Clone, Copy, PartialEq, Eq, Structural)]
pub enum EvalType {
    /// Signed 64-bit integers.
    Int,
}

/// Decoded values of a column, one per row, `None` for null.
#[derive(Debug)]
pub enum VectorValue {
    Int(Vec<Option<i64>>),
}

impl VectorValue {
    pub open spec fn int_view(&self) -> Seq<Option<i64>> {
        match self {
            VectorValue::Int(v) => v@,
        }
    }

    pub fn len(&self) -> (r: usize)
        ensures
            r == self.int_view().len(),
    {
        match self {
            VectorValue::Int(v) => v.len(),
        }
    }

    /// The integer values of the column.
    pub fn as_int_slice(&self) -> (r: &[Option<i64>])
        ensures
            r@ == self.int_view(),
    {
        match self {
            VectorValue::Int(v) => v.as_slice(),
        }
    }

    pub fn push_int(&mut self, v: Option<i64>)
        ensures
            final(self).int_view() == old(self).int_view().push(v),
    {
        match self {
            VectorValue::Int(vals) => vals.push(v),
        }
    }
}

/// The value of type `EvalType::Int` that the encoded datum `d` holds: `None`
/// for null, `Some(v)` for an integer, and no value at all (`Err`) otherwise.
pub open spec fn int_datum_value(d: Seq<u8>) -> Result<Option<i64>, DecodeError> {
    if d.len() == 1 && d[0] == NIL_FLAG {
        Ok(None)
    } else if d.len() == 9 && d[0] == INT_FLAG {
        Ok(Some(cmp_i64_of(d.drop_first()) as i64))
    } else if d.len() == 9 && d[0] == UINT_FLAG {
        Ok(Some(as_signed(be_u64_of(d.drop_first())) as i64))
    } else {
        Err(DecodeError::DatumValue)
    }
}

/// Decodes one datum as an integer or null.
pub fn decode_int_datum(d: &[u8]) -> (r: Result<Option<i64>, DecodeError>)
    ensures
        r == int_datum_value(d@),
{
    if d.len() == 1 && d[0] == NIL_FLAG {
        Ok(None)
    } else if d.len() == 9 && d[0] == INT_FLAG {
        let body = vstd::slice::slice_subrange(d, 1, 9);
        assert(body@ =~= d@.drop_first());
        match decode_i64(body) {
            Some(v) => Ok(Some(v)),
            None => Err(DecodeError::DatumValue),
        }
    } else if d.len() == 9 && d[0] == UINT_FLAG {
        let body = vstd::slice::slice_subrange(d, 1, 9);
        assert(body@ =~= d@.drop_first());
        match decode_u64(body) {
            Some(u) => Ok(Some(u64_as_i64(u))),
            None => Err(DecodeError::DatumValue),
        }
    } else {
        Err(DecodeError::DatumValue)
    }
}

/// A column in one of two states: raw, a still-encoded datum per row; or
/// decoded, a typed value per row.
#[derive(Debug)]
pub enum LazyBatchColumn {
    Raw(Vec<Vec<u8>>),
    Decoded(VectorValue),
}

impl LazyBatchColumn {
    pub open spec fn is_raw_spec(&self) -> bool {
        self is Raw
    }

    /// The encoded datums of a raw column.
    pub open spec fn raw_view(&self) -> Seq<Seq<u8>> {
        match self {
            LazyBatchColumn::Raw(v) => v@.map_values(|d: Vec<u8>| d@),
            LazyBatchColumn::Decoded(_) => Seq::empty(),
        }
    }

    /// The values of a decoded column.
    pub open spec fn decoded_view(&self) -> Seq<Option<i64>> {
        match self {
            LazyBatchColumn::Raw(_) => Seq::empty(),
            LazyBatchColumn::Decoded(v) => v.int_view(),
        }
    }

    /// The number of rows of the column.
    pub open spec fn rows(&self) -> nat {
        match self {
            LazyBatchColumn::Raw(v) => v@.len(),
            LazyBatchColumn::Decoded(v) => v.int_view().len(),
        }
    }

    /// An empty raw column with room for `capacity` rows.
    pub fn raw_with_capacity(capacity: usize) -> (r: LazyBatchColumn)
        ensures
            r.is_raw_spec(),
            r.raw_view() == Seq::<Seq<u8>>::empty(),
            r.rows() == 0,
    {
        let r = LazyBatchColumn::Raw(Vec::with_capacity(capacity));
        assert(r.raw_view() =~= Seq::<Seq<u8>>::empty());
        r
    }

    /// An empty decoded column of type `tp` with room for `capacity` rows.
    pub fn decoded_with_capacity_and_tp(capacity: usize, tp: EvalType) -> (r: LazyBatchColumn)
        ensures
            !r.is_raw_spec(),
            r.decoded_view() == Seq::<Option<i64>>::empty(),
            r.rows() == 0,
    {
        match tp {
            EvalType::Int => LazyBatchColumn::Decoded(VectorValue::Int(Vec::with_capacity(capacity))),
        }
    }

    pub fn is_raw(&self) -> (r: bool)
        ensures
            r == self.is_raw_spec(),
    {
        match self {
            LazyBatchColumn::Raw(_) => true,
            LazyBatchColumn::Decoded(_) => false,
        }
    }

    pub fn len(&self) -> (r: usize)
        ensures
            r == self.rows(),
    {
        match self {
            LazyBatchColumn::Raw(v) => v.len(),
            LazyBatchColumn::Decoded(v) => v.len(),
        }
    }

    /// The encoded datums of a raw column.
    pub fn raw(&self) -> (r: &Vec<Vec<u8>>)
        requires
            self.is_raw_spec(),
        ensures
            r@.map_values(|d: Vec<u8>| d@) == self.raw_view(),
    {
        match self {
            LazyBatchColumn::Raw(v) => v,
            LazyBatchColumn::Decoded(_) => {
                vstd::pervasive::unreached()
            },
        }
    }

    /// The values of a decoded column.
    pub fn decoded(&self) -> (r: &VectorValue)
        requires
            !self.is_raw_spec(),
        ensures
            r.int_view() == self.decoded_view(),
    {
        match self {
            LazyBatchColumn::Decoded(v) => v,
            LazyBatchColumn::Raw(_) => {
                vstd::pervasive::unreached()
            },
        }
    }

    /// Appends an encoded datum to a raw column.
    pub fn push_raw(&mut self, d: &[u8])
        requires
            old(self).is_raw_spec(),
        ensures
            final(self).is_raw_spec(),
            final(self).raw_view() == old(self).raw_view().push(d@),
            final(self).rows() == old(self).rows() + 1,
    {
        match self {
            LazyBatchColumn::Raw(v) => {
                v.push(vstd::slice::slice_to_vec(d));
                assert(v@.map_values(|x: Vec<u8>| x@) =~= old(self).raw_view().push(d@));
            },
            LazyBatchColumn::Decoded(_) => {},
        }
    }

    /// Appends a value to a decoded column.
    pub fn push_int(&mut self, val: Option<i64>)
        requires
            !old(self).is_raw_spec(),
        ensures
            !final(self).is_raw_spec(),
            final(self).decoded_view() == old(self).decoded_view().push(val),
            final(self).rows() == old(self).rows() + 1,
    {
        match self {
            LazyBatchColumn::Decoded(v) => v.push_int(val),
            LazyBatchColumn::Raw(_) => {},
        }
    }

    /// Decodes a raw column in place into values of type `tp`. A decoded
    /// column is left as it is. On a datum that holds no value of the type the
    /// column is left raw and unchanged.
    pub fn decode(&mut self, tp: EvalType) -> (r: Result<(), Error>)
        ensures
            !old(self).is_raw_spec() ==> r is Ok && *final(self) == *old(self),
            old(self).is_raw_spec() ==> {
                let raws = old(self).raw_view();
                if exists|i: int| 0 <= i < raws.len() && int_datum_value(raws[i]) is Err {
                    r == Err::<(), Error>(Error::CorruptedData(DecodeError::DatumValue))
                        && *final(self) == *old(self)
                } else {
                    &&& r is Ok
                    &&& !final(self).is_raw_spec()
                    &&& final(self).decoded_view() == raws.map_values(
                        |d: Seq<u8>| int_datum_value(d)->Ok_0,
                    )
                }
            },
            final(self).rows() == old(self).rows(),
    {
        match tp {
            EvalType::Int => {},
        }
        let decoded = match &*self {
            LazyBatchColumn::Decoded(_) => {
                return Ok(());
            },
            LazyBatchColumn::Raw(raws) => {
                let ghost rv = self.raw_view();
                let mut out: Vec<Option<i64>> = Vec::with_capacity(raws.len());
                let mut i: usize = 0;
                while i < raws.len()
                    invariant
                        i <= raws@.len(),
                        rv == raws@.map_values(|d: Vec<u8>| d@),
                        rv == old(self).raw_view(),
                        *self == *old(self),
                        out@ == rv.take(i as int).map_values(
                            |d: Seq<u8>| int_datum_value(d)->Ok_0,
                        ),
                        forall|j: int| 0 <= j < i ==> int_datum_value(rv[j]) is Ok,
                    decreases raws@.len() - i,
                {
                    match decode_int_datum(raws[i].as_slice()) {
                        Ok(v) => {
                            out.push(v);
                            assert(rv.take(i + 1).map_values(|d: Seq<u8>| int_datum_value(d)->Ok_0)
                                =~= rv.take(i as int).map_values(
                                |d: Seq<u8>| int_datum_value(d)->Ok_0,
                            ).push(v));
                        },
                        Err(_) => {
                            assert(int_datum_value(rv[i as int]) is Err);
                            return Err(Error::CorruptedData(DecodeError::DatumValue));
                        },
                    }
                    i = i + 1;
                }
                assert(rv.take(i as int) =~= rv);
                out
            },
        };
        *self = LazyBatchColumn::Decoded(VectorValue::Int(decoded));
        Ok(())
    }
}


/// A batch of columns that all hold the same number of rows.
#[derive(Debug)]
pub struct LazyBatchColumnVec {
    pub columns: Vec<LazyBatchColumn>,
}

impl LazyBatchColumnVec {
    /// The number of rows: that of the first column, or 0 without columns.
    pub open spec fn rows_spec(&self) -> nat {
        if self.columns@.len() == 0 {
            0
        } else {
            self.columns@[0].rows()
        }
    }

    /// Every column holds the same number of rows.
    pub open spec fn wf(&self) -> bool {
        forall|i: int| 0 <= i < self.columns@.len() ==> #[trigger] self.columns@[i].rows() == self.rows_spec()
    }

    /// A batch of the given columns, which must hold equally many rows.
    pub fn from_columns(columns: Vec<LazyBatchColumn>) -> (r: LazyBatchColumnVec)
        requires
            forall|i: int| 0 <= i < columns@.len() ==> #[trigger] columns@[i].rows() == columns@[0].rows(),
        ensures
            r.columns@ == columns@,
            r.wf(),
    {
        LazyBatchColumnVec { columns }
    }

    pub fn columns_len(&self) -> (r: usize)
        ensures
            r == self.columns@.len(),
    {
        self.columns.len()
    }

    pub fn rows_len(&self) -> (r: usize)
        ensures
            r == self.rows_spec(),
    {
        if self.columns.len() == 0 {
            0
        } else {
            self.columns[0].len()
        }
    }

    /// The column at position `i`.
    pub fn column(&self, i: usize) -> (r: &LazyBatchColumn)
        requires
            i < self.columns@.len(),
        ensures
            *r == self.columns@[i as int],
    {
        &self.columns[i]
    }

    /// Appends an encoded datum to the raw column at position `i`.
    pub fn push_raw_at(&mut self, i: usize, d: &[u8])
        requires
            i < old(self).columns@.len(),
            old(self).columns@[i as int].is_raw_spec(),
        ensures
            final(self).columns@.len() == old(self).columns@.len(),
            final(self).columns@[i as int].is_raw_spec(),
            final(self).columns@[i as int].raw_view() == old(self).columns@[i as int].raw_view().push(d@),
            final(self).columns@[i as int].rows() == old(self).columns@[i as int].rows() + 1,
            forall|j: int| 0 <= j < old(self).columns@.len() && j != i ==> final(self).columns@[j] == old(self).columns@[j],
    {
        let mut c = self.columns.remove(i);
        c.push_raw(d);
        self.columns.insert(i, c);
    }

    /// Appends a value to the decoded column at position `i`.
    pub fn push_int_at(&mut self, i: usize, v: Option<i64>)
        requires
            i < old(self).columns@.len(),
            !old(self).columns@[i as int].is_raw_spec(),
        ensures
            final(self).columns@.len() == old(self).columns@.len(),
            !final(self).columns@[i as int].is_raw_spec(),
            final(self).columns@[i as int].decoded_view() == old(self).columns@[i as int].decoded_view().push(v),
            final(self).columns@[i as int].rows() == old(self).columns@[i as int].rows() + 1,
            forall|j: int| 0 <= j < old(self).columns@.len() && j != i ==> final(self).columns@[j] == old(self).columns@[j],
    {
        let mut c = self.columns.remove(i);
        c.push_int(v);
        self.columns.insert(i, c);
    }
}

} // verus!
