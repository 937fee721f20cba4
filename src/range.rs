//! Key ranges, the byte order of keys, and an ordered snapshot of index
//! entries that yields the entries of one range at a time.
use vstd::prelude::*;
use crate::error::{Error, StoreError};

verus! {

/// A range of keys: from `start`, included, to `end`, excluded.
#[derive(Debug)]
pub struct KeyRange {
    pub start: Vec<u8>,
    pub end: Vec<u8>,
}

/// A key range as a pair of byte sequences.
pub type RangeModel = (Seq<u8>, Seq<u8>);

/// An entry of the store: a key and a value.
pub type Entry = (Seq<u8>, Seq<u8>);

pub open spec fn range_view(r: KeyRange) -> RangeModel {
    (r.start@, r.end@)
}

/// `a` sorts strictly before `b` in the byte order of keys.
pub open spec fn lex_lt(a: Seq<u8>, b: Seq<u8>) -> bool
    decreases a.len(),
{
    if b.len() == 0 {
        false
    } else if a.len() == 0 {
        true
    } else if a[0] != b[0] {
        a[0] < b[0]
    } else {
        lex_lt(a.drop_first(), b.drop_first())
    }
}

/// Whether `a` sorts strictly before `b`.
pub fn key_less(a: &[u8], b: &[u8]) -> (r: bool)
    ensures
        r == lex_lt(a@, b@),
{
    let mut i: usize = 0;
    assert(a@.skip(0) =~= a@);
    assert(b@.skip(0) =~= b@);
    loop
        invariant
            i <= a@.len(),
            i <= b@.len(),
            lex_lt(a@, b@) == lex_lt(a@.skip(i as int), b@.skip(i as int)),
        decreases a@.len() - i,
    {
        if i == b.len() {
            return false;
        }
        if i == a.len() {
            return true;
        }
        assert(a@.skip(i as int)[0] == a@[i as int]);
        assert(b@.skip(i as int)[0] == b@[i as int]);
        if a[i] != b[i] {
            return a[i] < b[i];
        }
        assert(a@.skip(i as int).drop_first() =~= a@.skip(i + 1));
        assert(b@.skip(i as int).drop_first() =~= b@.skip(i + 1));
        i = i + 1;
    }
}

/// A range that holds one key only: its end is its start followed by a zero byte.
pub open spec fn is_point_spec(r: RangeModel) -> bool {
    r.1 == r.0.push(0u8)
}

/// Whether the range holds one key only.
pub fn is_point(r: &KeyRange) -> (b: bool)
    ensures
        b == is_point_spec(range_view(*r)),
{
    let n = r.start.len();
    if r.end.len() == 0 || r.end.len() - 1 != n || r.end[n] != 0 {
        proof {
            if r.end.len() == n + 1 {
                assert(r.start@.push(0u8)[n as int] == 0);
            }
        }
        return false;
    }
    let mut i: usize = 0;
    while i < n
        invariant
            i <= n,
            n == r.start@.len(),
            r.end@.len() == n + 1,
            r.end@[n as int] == 0,
            forall|j: int| 0 <= j < i ==> r.start@[j] == r.end@[j],
        decreases n - i,
    {
        if r.start[i] != r.end[i] {
            assert(r.start@.push(0u8)[i as int] != r.end@[i as int]);
            return false;
        }
        i = i + 1;
    }
    assert(r.end@ =~= r.start@.push(0u8));
    true
}

/// The key `k` lies in the range `r`.
pub open spec fn in_range(k: Seq<u8>, r: RangeModel) -> bool {
    !lex_lt(k, r.0) && lex_lt(k, r.1)
}

/// The entries of `es` whose keys lie in `r`, in the order of `es`.
pub open spec fn filter_range(es: Seq<Entry>, r: RangeModel) -> Seq<Entry>
    decreases es.len(),
{
    if es.len() == 0 {
        Seq::empty()
    } else {
        let prev = filter_range(es.drop_last(), r);
        if in_range(es.last().0, r) {
            prev.push(es.last())
        } else {
            prev
        }
    }
}

/// The entries that a scan of `r` yields: those in the range, only the first
/// of them for a point range when `point_get` holds, last to first when
/// `desc` holds.
pub open spec fn range_pairs(es: Seq<Entry>, r: RangeModel, desc: bool, point_get: bool) -> Seq<Entry> {
    let f = filter_range(es, r);
    let b = if point_get && is_point_spec(r) && f.len() > 1 {
        f.take(1)
    } else {
        f
    };
    if desc {
        b.reverse()
    } else {
        b
    }
}

/// A scan of a point range, when point gets are on, yields at most one entry.
pub proof fn lemma_point_range_at_most_one(es: Seq<Entry>, r: RangeModel, desc: bool)
    requires
        is_point_spec(r),
    ensures
        range_pairs(es, r, desc, true).len() <= 1,
{
}

/// `a` before `b` and `b` before `c` put `a` before `c`.
pub proof fn lemma_lex_lt_transitive(a: Seq<u8>, b: Seq<u8>, c: Seq<u8>)
    requires
        lex_lt(a, b),
        lex_lt(b, c),
    ensures
        lex_lt(a, c),
    decreases a.len(),
{
    if a.len() > 0 && a[0] == b[0] && b[0] == c[0] {
        lemma_lex_lt_transitive(a.drop_first(), b.drop_first(), c.drop_first());
    }
}

/// No key sorts before itself.
pub proof fn lemma_lex_lt_irreflexive(a: Seq<u8>)
    ensures
        !lex_lt(a, a),
    decreases a.len(),
{
    if a.len() > 0 {
        lemma_lex_lt_irreflexive(a.drop_first());
    }
}

/// The keys of `es` strictly increase.
pub open spec fn keys_ascending(es: Seq<Entry>) -> bool {
    forall|i: int, j: int| 0 <= i < j < es.len() ==> lex_lt(es[i].0, es[j].0)
}

/// The keys of `es` strictly decrease.
pub open spec fn keys_descending(es: Seq<Entry>) -> bool {
    forall|i: int, j: int| 0 <= i < j < es.len() ==> lex_lt(es[j].0, es[i].0)
}

proof fn lemma_filter_range_ascending(es: Seq<Entry>, r: RangeModel)
    requires
        keys_ascending(es),
    ensures
        keys_ascending(filter_range(es, r)),
        forall|x: Entry| filter_range(es, r).contains(x) ==> es.contains(x),
    decreases es.len(),
{
    if es.len() > 0 {
        let d = es.drop_last();
        assert(keys_ascending(d));
        lemma_filter_range_ascending(d, r);
        let f = filter_range(d, r);
        assert forall|x: Entry| f.contains(x) implies es.contains(x) && lex_lt(x.0, es.last().0) by {
            assert(d.contains(x));
            let i = choose|i: int| 0 <= i < d.len() && d[i] == x;
            assert(es[i] == x);
            assert(lex_lt(es[i].0, es[es.len() - 1].0));
        }
        if in_range(es.last().0, r) {
            let g = f.push(es.last());
            assert forall|i: int, j: int| 0 <= i < j < g.len() implies lex_lt(g[i].0, g[j].0) by {
                if j == g.len() - 1 {
                    assert(f.contains(g[i]));
                }
            }
            assert forall|x: Entry| g.contains(x) implies es.contains(x) by {
                if x != es.last() {
                    let i = choose|i: int| 0 <= i < g.len() && g[i] == x;
                    assert(f.contains(x));
                } else {
                    assert(es[es.len() - 1] == x);
                }
            }
        }
    }
}

/// Over keys that strictly increase, a scan yields keys that strictly
/// increase, or strictly decrease when `desc` holds.
pub proof fn lemma_range_pairs_ordered(es: Seq<Entry>, r: RangeModel, desc: bool, point_get: bool)
    requires
        keys_ascending(es),
    ensures
        !desc ==> keys_ascending(range_pairs(es, r, desc, point_get)),
        desc ==> keys_descending(range_pairs(es, r, desc, point_get)),
{
    lemma_filter_range_ascending(es, r);
    let f = filter_range(es, r);
    let b = if point_get && is_point_spec(r) && f.len() > 1 {
        f.take(1)
    } else {
        f
    };
    assert(keys_ascending(b));
    if desc {
        assert forall|i: int, j: int| 0 <= i < j < b.reverse().len() implies lex_lt(
            b.reverse()[j].0,
            b.reverse()[i].0,
        ) by {
            assert(b.reverse()[j] == b[b.len() - 1 - j]);
            assert(b.reverse()[i] == b[b.len() - 1 - i]);
        }
    }
}

/// A read view of index entries that yields the entries of one range at a time.
pub trait Store {
    /// The entries of the view, in key order.
    spec fn entries(&self) -> Seq<Entry>;

    /// The store cannot fail: every scan succeeds.
    spec fn never_fails(&self) -> bool;

    /// The entries of `range`, as `range_pairs` gives them, or the store's
    /// failure.
    fn scan_range(&self, range: &KeyRange, desc: bool, point_get: bool) -> (r: Result<
        Vec<(Vec<u8>, Vec<u8>)>,
        StoreError,
    >)
        ensures
            self.never_fails() ==> r is Ok,
            r matches Ok(v) ==> entries_view(v@) == range_pairs(self.entries(), range_view(*range), desc, point_get),
            r matches Ok(v) ==> (!desc ==> keys_ascending(entries_view(v@))) && (desc ==> keys_descending(
                entries_view(v@),
            )),
    ;
}

/// A snapshot of the index entries, with keys in strictly increasing order.
#[derive(Debug)]
pub struct MemStore {
    entries: Vec<(Vec<u8>, Vec<u8>)>,
}

pub open spec fn entries_view(es: Seq<(Vec<u8>, Vec<u8>)>) -> Seq<Entry> {
    es.map_values(|e: (Vec<u8>, Vec<u8>)| (e.0@, e.1@))
}

/// Reverses a vector of entries.
fn reverse_entries(v: Vec<(Vec<u8>, Vec<u8>)>) -> (r: Vec<(Vec<u8>, Vec<u8>)>)
    ensures
        entries_view(r@) == entries_view(v@).reverse(),
{
    let mut v = v;
    let mut out: Vec<(Vec<u8>, Vec<u8>)> = Vec::with_capacity(v.len());
    let ghost orig = entries_view(v@);
    while v.len() > 0
        invariant
            v@.len() <= orig.len(),
            entries_view(v@) == orig.take(v@.len() as int),
            entries_view(out@) == orig.reverse().take(orig.len() - v@.len()),
        decreases v@.len(),
    {
        let ghost len = v@.len();
        let ghost old_v = v@;
        let ghost old_out = out@;
        let e = v.pop().unwrap();
        assert(old_v[len - 1] == e);
        assert(entries_view(old_v)[len - 1] == orig[len - 1]);
        out.push(e);
        assert(entries_view(out@) =~= entries_view(old_out).push((e.0@, e.1@)));
        assert(entries_view(v@) =~= orig.take(v@.len() as int));
        assert(entries_view(out@) =~= orig.reverse().take(orig.len() - v@.len()));
    }
    assert(orig.reverse().take(orig.len() as int) =~= orig.reverse());
    out
}

impl MemStore {
    /// The entries of the snapshot, in key order.
    pub closed spec fn view(&self) -> Seq<Entry> {
        entries_view(self.entries@)
    }

    #[verifier::type_invariant]
    spec fn keys_in_order(&self) -> bool {
        keys_ascending(entries_view(self.entries@))
    }

    /// A snapshot of `entries`, which must come in strictly increasing key
    /// order (so with no key twice); `Err(UnorderedKeys)` otherwise.
    pub fn new(entries: Vec<(Vec<u8>, Vec<u8>)>) -> (r: Result<MemStore, Error>)
        ensures
            r is Ok <==> keys_ascending(entries_view(entries@)),
            r matches Ok(st) ==> st.view() == entries_view(entries@),
            r is Err ==> r == Err::<MemStore, Error>(Error::UnorderedKeys),
    {
        let ghost ev = entries_view(entries@);
        let mut i: usize = 1;
        while i < entries.len()
            invariant
                1 <= i,
                ev == entries_view(entries@),
                i <= entries@.len() || entries@.len() == 0,
                forall|a: int, b: int| 0 <= a < b < i && b < ev.len() ==> lex_lt(ev[a].0, ev[b].0),
            decreases entries@.len() - i,
        {
            assert(ev[i - 1].0 == entries@[i - 1].0@);
            assert(ev[i as int].0 == entries@[i as int].0@);
            if !key_less(entries[i - 1].0.as_slice(), entries[i].0.as_slice()) {
                return Err(Error::UnorderedKeys);
            }
            assert forall|a: int, b: int| 0 <= a < b < i + 1 && b < ev.len() implies lex_lt(ev[a].0, ev[b].0) by {
                if b == i && a < i - 1 {
                    lemma_lex_lt_transitive(ev[a].0, ev[i - 1].0, ev[b].0);
                }
            }
            i = i + 1;
        }
        Ok(MemStore { entries })
    }

    /// The entries that a scan of `range` yields.
    pub fn scan(&self, range: &KeyRange, desc: bool, point_get: bool) -> (r: Vec<(Vec<u8>, Vec<u8>)>)
        ensures
            entries_view(r@) == range_pairs(self.view(), range_view(*range), desc, point_get),
            !desc ==> keys_ascending(entries_view(r@)),
            desc ==> keys_descending(entries_view(r@)),
    {
        proof {
            use_type_invariant(self);
            lemma_range_pairs_ordered(self.view(), range_view(*range), desc, point_get);
        }
        let ghost es = self.view();
        let ghost rm = range_view(*range);
        let mut out: Vec<(Vec<u8>, Vec<u8>)> = Vec::new();
        let mut i: usize = 0;
        while i < self.entries.len()
            invariant
                i <= self.entries@.len(),
                es == self.view(),
                rm == range_view(*range),
                entries_view(out@) == filter_range(es.take(i as int), rm),
            decreases self.entries@.len() - i,
        {
            let e = &self.entries[i];
            let ghost pre = es.take(i as int);
            assert(es.take(i + 1).drop_last() =~= pre);
            assert(es.take(i + 1).last() == (e.0@, e.1@));
            if !key_less(e.0.as_slice(), range.start.as_slice()) && key_less(e.0.as_slice(), range.end.as_slice()) {
                let k = vstd::slice::slice_to_vec(e.0.as_slice());
                let v = vstd::slice::slice_to_vec(e.1.as_slice());
                out.push((k, v));
                assert(entries_view(out@) =~= filter_range(pre, rm).push((e.0@, e.1@)));
            }
            i = i + 1;
        }
        assert(es.take(i as int) =~= es);
        if point_get && out.len() > 1 && is_point(range) {
            out.truncate(1);
            assert(entries_view(out@) =~= filter_range(es, rm).take(1));
        }
        if desc {
            reverse_entries(out)
        } else {
            out
        }
    }
}

impl Store for MemStore {
    open spec fn entries(&self) -> Seq<Entry> {
        self.view()
    }

    open spec fn never_fails(&self) -> bool {
        true
    }

    /// An in-memory snapshot never fails.
    fn scan_range(&self, range: &KeyRange, desc: bool, point_get: bool) -> (r: Result<
        Vec<(Vec<u8>, Vec<u8>)>,
        StoreError,
    >) {
        Ok(self.scan(range, desc, point_get))
    }
}

} // verus!
