//! An ordered map from non-overlapping ranges of an unsigned key space to
//! values.
//!
//! The entries of a [`RangeMap`] partition `[0, size)`: they are contiguous,
//! non-empty and sorted, so every key below `size` belongs to exactly one
//! entry.  The map supports point-splitting — dividing the entry containing a
//! key into two entries carrying the same value — and has no knowledge of
//! what the values mean.

use vstd::prelude::*;

verus! {

/// One entry of a [`RangeMap`]: the half-open key range `[start, end)` and
/// the value attached to every key in it.
#[derive(Clone, Copy, Debug, PartialEq, Eq)]
pub struct RangeEntry<V> {
    /// First key of the range.
    pub start: u64,
    /// One past the last key of the range.
    pub end: u64,
    /// The value attached to every key in `[start, end)`.
    pub value: V,
}

/// The entries are non-empty and contiguous: each begins where the previous
/// one ended.
pub open spec fn entries_wf<V>(s: Seq<RangeEntry<V>>) -> bool {
    &&& forall|i: int| 0 <= i < s.len() ==> (#[trigger] s[i]).start < s[i].end
    &&& forall|i: int| 1 <= i < s.len() ==> (#[trigger] s[i]).start == s[i - 1].end
}

/// The value the entry sequence attaches to key `k`: the value of the first
/// entry whose range ends beyond `k`, or of the last entry if none does.
pub open spec fn seq_val_at<V>(s: Seq<RangeEntry<V>>, k: int) -> V
    decreases s.len(),
{
    if s.len() <= 1 {
        s[0].value
    } else if k < s[0].end {
        s[0].value
    } else {
        seq_val_at(s.drop_first(), k)
    }
}

/// `p` does not fall strictly inside any entry of `s`.
pub open spec fn boundary_aligned<V>(s: Seq<RangeEntry<V>>, p: u64) -> bool {
    forall|j: int| 0 <= j < s.len() ==> !((#[trigger] s[j]).start < p < s[j].end)
}

/// The partition that splitting `s` at point `p` produces: the entry with
/// `p` strictly inside it, if any, is replaced by its two halves, both
/// carrying the original value; every other entry is kept as it is.
pub open spec fn spec_split<V>(s: Seq<RangeEntry<V>>, p: u64) -> Seq<RangeEntry<V>>
    decreases s.len(),
{
    if s.len() == 0 {
        s
    } else if s[0].start < p < s[0].end {
        seq![
            (RangeEntry { start: s[0].start, end: p, value: s[0].value }),
            (RangeEntry { start: p, end: s[0].end, value: s[0].value }),
        ] + s.drop_first()
    } else {
        seq![s[0]] + spec_split(s.drop_first(), p)
    }
}

pub(crate) proof fn lemma_drop_first_wf<V>(s: Seq<RangeEntry<V>>)
    requires
        entries_wf(s),
        s.len() > 0,
    ensures
        entries_wf(s.drop_first()),
{
    assert forall|i: int| 0 <= i < s.drop_first().len() implies (#[trigger] s.drop_first()[i]).start
        < s.drop_first()[i].end by {
        assert(s.drop_first()[i] == s[i + 1]);
    }
    assert forall|i: int| 1 <= i < s.drop_first().len() implies (#[trigger] s.drop_first()[i]).start
        == s.drop_first()[i - 1].end by {
        assert(s.drop_first()[i] == s[i + 1]);
        assert(s.drop_first()[i - 1] == s[i]);
    }
}

/// In a well-formed entry sequence the ranges appear in increasing key order.
pub(crate) proof fn lemma_wf_ordered<V>(s: Seq<RangeEntry<V>>, i: int, j: int)
    requires
        entries_wf(s),
        0 <= i <= j < s.len(),
    ensures
        s[i].start <= s[j].start,
        s[i].end <= s[j].end,
        i < j ==> s[i].end <= s[j].start,
    decreases j - i,
{
    if i < j {
        lemma_wf_ordered(s, i, j - 1);
    }
}

/// Every key of an entry's range is attached to that entry's value.
pub(crate) proof fn lemma_val_at_entry<V>(s: Seq<RangeEntry<V>>, i: int, k: int)
    requires
        entries_wf(s),
        0 <= i < s.len(),
        s[i].start <= k < s[i].end,
    ensures
        seq_val_at(s, k) == s[i].value,
    decreases s.len(),
{
    if i > 0 {
        lemma_wf_ordered(s, 0, i);
        lemma_drop_first_wf(s);
        lemma_val_at_entry(s.drop_first(), i - 1, k);
    }
}

/// Every key below the last entry's end lies in exactly one entry; this
/// returns its index.
pub(crate) proof fn lemma_covering_entry<V>(s: Seq<RangeEntry<V>>, k: int) -> (i: int)
    requires
        entries_wf(s),
        s.len() > 0,
        s[0].start <= k < s.last().end,
    ensures
        0 <= i < s.len(),
        s[i].start <= k < s[i].end,
        seq_val_at(s, k) == s[i].value,
    decreases s.len(),
{
    if s.len() == 1 || k < s[0].end {
        lemma_val_at_entry(s, 0, k);
        0
    } else {
        lemma_drop_first_wf(s);
        assert(s.drop_first().last() == s.last());
        let t = lemma_covering_entry(s.drop_first(), k);
        lemma_val_at_entry(s, t + 1, k);
        t + 1
    }
}

/// Splitting keeps the entries well formed, keeps the first start and the
/// last end, attaches the same value to every key as before, and leaves no
/// entry with the split point strictly inside it.
pub(crate) proof fn lemma_split_props<V>(s: Seq<RangeEntry<V>>, p: u64)
    requires
        entries_wf(s),
    ensures
        entries_wf(spec_split(s, p)),
        s.len() <= spec_split(s, p).len() <= s.len() + 1,
        s.len() > 0 ==> spec_split(s, p)[0].start == s[0].start,
        s.len() > 0 ==> spec_split(s, p).last().end == s.last().end,
        forall|k: int| #[trigger] seq_val_at(spec_split(s, p), k) == seq_val_at(s, k),
        boundary_aligned(spec_split(s, p), p),
    decreases s.len(),
{
    if s.len() == 0 {
    } else if s[0].start < p < s[0].end {
        let l = RangeEntry { start: s[0].start, end: p, value: s[0].value };
        let r = RangeEntry { start: p, end: s[0].end, value: s[0].value };
        let t = seq![l, r] + s.drop_first();
        assert(t.drop_first() =~= seq![r] + s.drop_first());
        assert(t.drop_first().drop_first() =~= s.drop_first());
        assert(entries_wf(t)) by {
            assert forall|i: int| 0 <= i < t.len() implies (#[trigger] t[i]).start < t[i].end by {
                if i >= 2 {
                    assert(t[i] == s[i - 1]);
                }
            }
            assert forall|i: int| 1 <= i < t.len() implies (#[trigger] t[i]).start == t[i - 1].end by {
                if i >= 2 {
                    assert(t[i] == s[i - 1]);
                }
                if i == 2 {
                    assert(t[i] == s[1]);
                }
            }
        }
        assert(t.last().end == s.last().end) by {
            if s.len() > 1 {
                assert(t.last() == s.last());
            }
        }
        assert forall|k: int| #[trigger] seq_val_at(t, k) == seq_val_at(s, k) by {
            if k < p {
            } else if s.len() == 1 {
                assert(seq_val_at(t.drop_first(), k) == r.value);
            } else if k < s[0].end {
                assert(seq_val_at(t.drop_first(), k) == r.value);
            } else {
                assert(seq_val_at(t.drop_first(), k) == seq_val_at(s.drop_first(), k));
            }
        }
        assert(boundary_aligned(t, p)) by {
            assert forall|j: int| 0 <= j < t.len() implies !((#[trigger] t[j]).start < p
                < t[j].end) by {
                if j >= 2 {
                    assert(t[j] == s[j - 1]);
                    lemma_wf_ordered(s, 0, j - 1);
                }
            }
        }
    } else {
        lemma_drop_first_wf(s);
        lemma_split_props(s.drop_first(), p);
        let u = spec_split(s.drop_first(), p);
        let t = seq![s[0]] + u;
        assert(t.drop_first() =~= u);
        assert(entries_wf(t)) by {
            assert forall|i: int| 0 <= i < t.len() implies (#[trigger] t[i]).start < t[i].end by {
                if i >= 1 {
                    assert(t[i] == u[i - 1]);
                }
            }
            assert forall|i: int| 1 <= i < t.len() implies (#[trigger] t[i]).start == t[i - 1].end by {
                if i >= 2 {
                    assert(t[i] == u[i - 1]);
                    assert(t[i - 1] == u[i - 2]);
                }
                if i == 1 && s.len() > 1 {
                    assert(t[1] == u[0]);
                    assert(u[0].start == s.drop_first()[0].start);
                }
            }
        }
        assert(t.last().end == s.last().end) by {
            if s.len() > 1 {
                assert(t.last() == u.last());
                assert(s.drop_first().last() == s.last());
            }
        }
        assert forall|k: int| #[trigger] seq_val_at(t, k) == seq_val_at(s, k) by {
            if s.len() == 1 {
                assert(u.len() == 0);
                assert(t.len() == 1);
            } else if k < s[0].end {
            } else {
                assert(seq_val_at(t, k) == seq_val_at(u, k));
                assert(seq_val_at(u, k) == seq_val_at(s.drop_first(), k));
            }
        }
        assert(boundary_aligned(t, p)) by {
            assert forall|j: int| 0 <= j < t.len() implies !((#[trigger] t[j]).start < p
                < t[j].end) by {
                if j >= 1 {
                    assert(t[j] == u[j - 1]);
                }
            }
        }
    }
}

/// Splitting at a point that is already a boundary of every entry changes
/// nothing.
pub(crate) proof fn lemma_split_noop<V>(s: Seq<RangeEntry<V>>, p: u64)
    requires
        boundary_aligned(s, p),
    ensures
        spec_split(s, p) == s,
    decreases s.len(),
{
    if s.len() > 0 {
        assert(forall|j: int|
            0 <= j < s.drop_first().len() ==> !((#[trigger] s.drop_first()[j]).start < p
                < s.drop_first()[j].end)) by {
            assert(forall|j: int|
                0 <= j < s.drop_first().len() ==> s.drop_first()[j] == s[j + 1]);
        }
        lemma_split_noop(s.drop_first(), p);
        assert(seq![s[0]] + s.drop_first() =~= s);
    }
}

/// Splitting at one point leaves every point that was already a boundary a
/// boundary.
pub(crate) proof fn lemma_split_keeps_alignment<V>(s: Seq<RangeEntry<V>>, p: u64, q: u64)
    requires
        boundary_aligned(s, q),
    ensures
        boundary_aligned(spec_split(s, p), q),
    decreases s.len(),
{
    if s.len() == 0 {
    } else if s[0].start < p < s[0].end {
        let l = RangeEntry { start: s[0].start, end: p, value: s[0].value };
        let r = RangeEntry { start: p, end: s[0].end, value: s[0].value };
        let t = seq![l, r] + s.drop_first();
        assert forall|j: int| 0 <= j < t.len() implies !((#[trigger] t[j]).start < q < t[j].end) by {
            if j >= 2 {
                assert(t[j] == s[j - 1]);
            }
        }
    } else {
        assert(forall|j: int|
            0 <= j < s.drop_first().len() ==> !((#[trigger] s.drop_first()[j]).start < q
                < s.drop_first()[j].end)) by {
            assert(forall|j: int|
                0 <= j < s.drop_first().len() ==> s.drop_first()[j] == s[j + 1]);
        }
        lemma_split_keeps_alignment(s.drop_first(), p, q);
        let u = spec_split(s.drop_first(), p);
        let t = seq![s[0]] + u;
        assert forall|j: int| 0 <= j < t.len() implies !((#[trigger] t[j]).start < q < t[j].end) by {
            if j >= 1 {
                assert(t[j] == u[j - 1]);
            }
        }
    }
}

/// Partitioning is idempotent: splitting a well-formed partition twice at
/// the same point produces exactly the partition that one split produces.
pub proof fn lemma_split_idempotent<V>(s: Seq<RangeEntry<V>>, p: u64)
    requires
        entries_wf(s),
    ensures
        spec_split(spec_split(s, p), p) == spec_split(s, p),
{
    lemma_split_props(s, p);
    lemma_split_noop(spec_split(s, p), p);
}

/// Scanning past entries that `p` does not fall inside leaves them untouched
/// by the split.
pub(crate) proof fn lemma_split_skip<V>(s: Seq<RangeEntry<V>>, p: u64, i: int)
    requires
        0 <= i <= s.len(),
        forall|j: int| 0 <= j < i ==> !((#[trigger] s[j]).start < p < s[j].end),
    ensures
        spec_split(s, p) == s.take(i) + spec_split(s.skip(i), p),
    decreases i,
{
    if i == 0 {
        assert(s.skip(0) =~= s);
        assert(s.take(0) + spec_split(s, p) =~= spec_split(s, p));
    } else {
        assert(forall|j: int|
            0 <= j < i - 1 ==> !((#[trigger] s.drop_first()[j]).start < p
                < s.drop_first()[j].end)) by {
            assert(forall|j: int|
                0 <= j < s.drop_first().len() ==> s.drop_first()[j] == s[j + 1]);
        }
        lemma_split_skip(s.drop_first(), p, i - 1);
        assert(s.drop_first().take(i - 1) =~= s.take(i).drop_first());
        assert(s.drop_first().skip(i - 1) =~= s.skip(i));
        assert(seq![s[0]] + (s.take(i).drop_first() + spec_split(s.skip(i), p)) =~= s.take(i)
            + spec_split(s.skip(i), p));
    }
}

/// Splitting the first entry that `p` falls strictly inside amounts to
/// shrinking that entry to its left half and inserting the right half after
/// it.
pub(crate) proof fn lemma_split_shape<V>(s: Seq<RangeEntry<V>>, p: u64, i: int)
    requires
        0 <= i < s.len(),
        forall|j: int| 0 <= j < i ==> !((#[trigger] s[j]).start < p < s[j].end),
        s[i].start < p < s[i].end,
    ensures
        spec_split(s, p) == s.update(
            i,
            RangeEntry { start: s[i].start, end: p, value: s[i].value },
        ).insert(i + 1, RangeEntry { start: p, end: s[i].end, value: s[i].value }),
{
    let l = RangeEntry { start: s[i].start, end: p, value: s[i].value };
    let r = RangeEntry { start: p, end: s[i].end, value: s[i].value };
    lemma_split_skip(s, p, i);
    assert(s.skip(i)[0] == s[i]);
    assert(s.skip(i).drop_first() =~= s.skip(i + 1));
    assert(s.update(i, l).insert(i + 1, r) =~= s.take(i) + (seq![l, r] + s.skip(i + 1)));
}

/// An ordered map from non-overlapping, gapless ranges of `u64` keys to
/// values: its entries partition the key space `[0, size)`.
#[derive(Debug)]
pub struct RangeMap<V> {
    entries: Vec<RangeEntry<V>>,
}

impl<V> View for RangeMap<V> {
    type V = Seq<RangeEntry<V>>;

    closed spec fn view(&self) -> Seq<RangeEntry<V>> {
        self.entries@
    }
}

impl<V> RangeMap<V> {
    /// The entries partition `[0, size)`: contiguous, non-empty, starting
    /// at key 0.
    pub open spec fn wf(self) -> bool {
        &&& entries_wf(self@)
        &&& self@.len() > 0
        &&& self@[0].start == 0
    }

    /// One past the largest key the map covers.
    pub open spec fn size(self) -> int {
        self@.last().end as int
    }

    /// The value attached to key `k`.
    pub open spec fn val_at(self, k: int) -> V {
        seq_val_at(self@, k)
    }
}

impl<V: Copy> RangeMap<V> {
    /// Creates a map whose single entry attaches `value` to all of
    /// `[0, size)`.
    pub fn new(size: u64, value: V) -> (m: Self)
        requires
            size > 0,
        ensures
            m.wf(),
            m.size() == size,
            m@.len() == 1,
            m@[0] == (RangeEntry { start: 0u64, end: size, value }),
            forall|k: int| #[trigger] m.val_at(k) == value,
    {
        let mut entries: Vec<RangeEntry<V>> = Vec::new();
        entries.push(RangeEntry { start: 0, end: size, value });
        RangeMap { entries }
    }

    /// The number of entries in the partition.
    pub fn num_entries(&self) -> (n: usize)
        ensures
            n == self@.len(),
    {
        self.entries.len()
    }

    /// The `i`-th entry of the partition, in increasing key order.
    pub fn entry(&self, i: usize) -> (e: RangeEntry<V>)
        requires
            i < self@.len(),
        ensures
            e == self@[i as int],
    {
        self.entries[i]
    }

    /// Replaces the value of the `i`-th entry, leaving its range unchanged.
    pub fn set_value(&mut self, i: usize, value: V)
        requires
            i < old(self)@.len(),
        ensures
            final(self)@ == old(self)@.update(
                i as int,
                (RangeEntry {
                    start: old(self)@[i as int].start,
                    end: old(self)@[i as int].end,
                    value,
                }),
            ),
    {
        let e = self.entries[i];
        self.entries[i] = RangeEntry { start: e.start, end: e.end, value };
    }

    /// Finds the entry that `point` falls strictly inside, if any.
    fn find_interior_entry(&self, point: u64) -> (r: Option<usize>)
        ensures
            (match r {
                Some(i) => i < self@.len() && self@[i as int].start < point < self@[i as int].end
                    && (forall|j: int|
                    0 <= j < i ==> !((#[trigger] self@[j]).start < point < self@[j].end)),
                None => boundary_aligned(self@, point),
            }),
    {
        let n = self.entries.len();
        let mut i: usize = 0;
        while i < n
            invariant
                n == self@.len(),
                i <= n,
                forall|j: int| 0 <= j < i ==> !((#[trigger] self@[j]).start < point < self@[j].end),
            decreases n - i,
        {
            let e = self.entries[i];
            if e.start < point && point < e.end {
                return Some(i);
            }
            i += 1;
        }
        None
    }

    /// Splits the entry containing `point` into two entries carrying copies
    /// of the same value; a no-op if `point` is already a boundary between
    /// entries or outside the covered key space.
    #[verifier::rlimit(80)]
    pub fn split_at(&mut self, point: u64)
        requires
            old(self).wf(),
        ensures
            final(self).wf(),
            final(self)@ == spec_split(old(self)@, point),
            final(self).size() == old(self).size(),
            forall|k: int| #[trigger] final(self).val_at(k) == old(self).val_at(k),
            boundary_aligned(final(self)@, point),
    {
        match self.find_interior_entry(point) {
            Some(i) => {
                proof {
                    lemma_split_shape(old(self)@, point, i as int);
                }
                let _n = self.entries.len();
                proof {
                    assert(i < _n);
                }
                let e = self.entries[i];
                self.entries[i] = RangeEntry { start: e.start, end: point, value: e.value };
                self.entries.insert(i + 1, RangeEntry { start: point, end: e.end, value: e.value });
            },
            None => {
                proof {
                    lemma_split_noop(old(self)@, point);
                }
            },
        }
        proof {
            lemma_split_props(old(self)@, point);
        }
    }

    /// Looks up the value attached to `point`.
    pub fn value_at(&self, point: u64) -> (v: V)
        requires
            self.wf(),
            point < self.size(),
        ensures
            v == self.val_at(point as int),
    {
        let n = self.entries.len();
        let mut i: usize = 0;
        while i + 1 < n
            invariant
                self.wf(),
                n == self@.len(),
                i < n,
                point < self.size(),
                self@[i as int].start <= point,
            decreases n - i,
        {
            let e = self.entries[i];
            if point < e.end {
                proof {
                    lemma_val_at_entry(self@, i as int, point as int);
                }
                return e.value;
            }
            i += 1;
        }
        let e = self.entries[i];
        proof {
            assert(self@[i as int] == self@.last());
            lemma_val_at_entry(self@, i as int, point as int);
        }
        e.value
    }
}

} // verus!
