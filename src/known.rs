use vstd::prelude::*;

use crate::codec::{decode_at, decoded_value, encode, encoding, ByteOrder, Scalar};
use crate::error::Error;
use crate::unknown::{buffer_slots, read_slots, snapshot};
use crate::region::{
    fits, lemma_value_in_covered, some_read_covers, value_at, value_in, RegionBytes,
};

verus! {

/// A write the caller is to perform on the target: `bytes` at `address`.
#[derive(Clone, Debug)]
pub struct WriteRequest {
    /// Where the first byte goes.
    pub address: usize,
    /// The bytes to write.
    pub bytes: Vec<u8>,
}

/// Addresses of the slots among the first `n` aligned slots of `bytes`, read
/// at `base`, whose value of type `T` is `value`, in address order.
pub open spec fn matches_in<T: Scalar>(bytes: Seq<u8>, base: int, value: int, order: ByteOrder, n: nat) -> Seq<usize>
    decreases n,
{
    if n == 0 {
        Seq::empty()
    } else {
        let prev = matches_in::<T>(bytes, base, value, order, (n - 1) as nat);
        let off = (n - 1) * T::width();
        if decoded_value::<T>(bytes.subrange(off, off + T::width()), order) == value {
            prev.push((base + off) as usize)
        } else {
            prev
        }
    }
}

/// Addresses of the aligned slots of the read `r` that hold `value`; none for
/// a read that does not fit in the address space.
pub open spec fn matches_of<T: Scalar>(r: RegionBytes, value: int, order: ByteOrder) -> Seq<usize> {
    if fits(r) {
        matches_in::<T>(r.bytes@, r.base_address as int, value, order, r.bytes@.len() / T::width())
    } else {
        Seq::empty()
    }
}

/// Addresses of the slots of all reads that hold `value`, read by read.
pub open spec fn scan<T: Scalar>(reads: Seq<RegionBytes>, value: int, order: ByteOrder) -> Seq<usize>
    decreases reads.len(),
{
    if reads.len() == 0 {
        Seq::empty()
    } else {
        scan::<T>(reads.drop_last(), value, order) + matches_of::<T>(reads.last(), value, order)
    }
}

/// Whether the current value of type `T` at an address is `value`.
pub open spec fn still_holds<T: Scalar>(reads: Seq<RegionBytes>, value: int, order: ByteOrder) -> spec_fn(usize) -> bool {
    |a: usize| value_in::<T>(reads, a as int, order) == Some(value)
}

/// The candidates whose current value is `value`, in their order.
pub open spec fn refined<T: Scalar>(candidates: Seq<usize>, reads: Seq<RegionBytes>, value: int, order: ByteOrder) -> Seq<usize> {
    candidates.filter(still_holds::<T>(reads, value, order))
}

/// Addresses, from `base_address` on, of the aligned slots of `buffer` that
/// hold `value`. A trailing part shorter than the width is not a slot.
pub fn first_search<T: Scalar>(buffer: &[u8], value: T, base_address: usize, order: ByteOrder) -> (r: Vec<usize>)
    requires
        base_address + buffer@.len() <= usize::MAX,
    ensures
        r@ == matches_in::<T>(buffer@, base_address as int, value.value(), order, buffer@.len() / T::width()),
{
    let width = T::byte_width();
    proof {
        T::lemma_width();
    }
    let len = buffer.len();
    let n = len / width;
    let mut found: Vec<usize> = Vec::new();
    let mut k: usize = 0;
    let mut off: usize = 0;
    while k < n
        invariant
            width == T::width(),
            1 <= width <= 8,
            len == buffer@.len(),
            n == len / width,
            k <= n,
            off == k * width,
            base_address + len <= usize::MAX,
            found@ == matches_in::<T>(buffer@, base_address as int, value.value(), order, k as nat),
        decreases n - k,
    {
        assert(off + width <= len) by (nonlinear_arith)
            requires
                off == k * width,
                k < n,
                n == len / width,
                1 <= width,
        ;
        let x = decode_at::<T>(buffer, off, order);
        if x.same(value) {
            found.push(base_address + off);
        }
        assert((k + 1) * width == off + width) by (nonlinear_arith)
            requires
                off == k * width,
        ;
        k = k + 1;
        off = off + width;
    }
    found
}

/// Addresses of the aligned slots of every read that hold `value`, read by
/// read. A read that does not fit in the address space is skipped.
pub fn search_everywhere<T: Scalar>(reads: &[RegionBytes], value: T, order: ByteOrder) -> (r: Vec<usize>)
    ensures
        r@ == scan::<T>(reads@, value.value(), order),
{
    let mut found: Vec<usize> = Vec::new();
    let mut i: usize = 0;
    while i < reads.len()
        invariant
            i <= reads@.len(),
            found@ == scan::<T>(reads@.subrange(0, i as int), value.value(), order),
        decreases reads@.len() - i,
    {
        let r = &reads[i];
        assert(reads@.subrange(0, i + 1).drop_last() =~= reads@.subrange(0, i as int));
        if r.bytes.len() <= usize::MAX - r.base_address {
            let mut more = first_search(r.bytes.as_slice(), value, r.base_address, order);
            found.append(&mut more);
        }
        i = i + 1;
    }
    assert(reads@.subrange(0, reads@.len() as int) =~= reads@);
    found
}

/// The candidates whose current value, read from `reads`, is `value`, in
/// their order. A candidate is checked against the first read that holds all
/// its bytes; one that no read holds, such as one that lies past the end of a
/// read taken at another width, is dropped without reading out of bounds.
pub fn refine_search<T: Scalar>(candidates: &[usize], value: T, reads: &[RegionBytes], order: ByteOrder) -> (r: Vec<usize>)
    ensures
        r@ == refined::<T>(candidates@, reads@, value.value(), order),
{
    let ghost pred = still_holds::<T>(reads@, value.value(), order);
    let mut kept: Vec<usize> = Vec::new();
    let mut i: usize = 0;
    while i < candidates.len()
        invariant
            i <= candidates@.len(),
            pred == still_holds::<T>(reads@, value.value(), order),
            kept@ == candidates@.subrange(0, i as int).filter(pred),
        decreases candidates@.len() - i,
    {
        let a = candidates[i];
        proof {
            assert(candidates@.subrange(0, i + 1) =~= candidates@.subrange(0, i as int).push(a));
            candidates@.subrange(0, i as int).lemma_filter_push(a, pred);
        }
        match value_at::<T>(reads, a, order) {
            Some(current) => {
                if current.same(value) {
                    kept.push(a);
                }
            },
            None => {},
        }
        i = i + 1;
    }
    assert(candidates@.subrange(0, candidates@.len() as int) =~= candidates@);
    kept
}

/// A search for a value known to the caller: the addresses that held each
/// value it was told, at the width of `T`.
pub struct KnownValueSearch<T: Scalar> {
    candidates: Vec<usize>,
    expected: T,
    order: ByteOrder,
}

impl<T: Scalar> KnownValueSearch<T> {
    /// The candidate addresses, in the order the first scan found them.
    pub closed spec fn candidates(&self) -> Seq<usize> {
        self.candidates@
    }

    /// The value the candidates held at the last scan.
    pub closed spec fn expected(&self) -> T {
        self.expected
    }

    /// Byte order of the target.
    pub closed spec fn order(&self) -> ByteOrder {
        self.order
    }

    /// A search over the candidates that hold `expected`.
    fn new(candidates: Vec<usize>, expected: T, order: ByteOrder) -> (r: Self)
        ensures
            r.candidates() == candidates@,
            r.expected() == expected,
            r.order() == order,
    {
        KnownValueSearch { candidates, expected, order }
    }

    /// Scans `reads` for the aligned slots that hold `value`.
    pub fn start(reads: &[RegionBytes], value: T, order: ByteOrder) -> (r: Self)
        ensures
            r.candidates() == scan::<T>(reads@, value.value(), order),
            r.expected() == value,
            r.order() == order,
    {
        let candidates = search_everywhere(reads, value, order);
        Self::new(candidates, value, order)
    }

    /// Number of candidates.
    pub fn count(&self) -> (r: usize)
        ensures
            r == self.candidates().len(),
    {
        self.candidates.len()
    }

    /// The candidate addresses, in order.
    pub fn addresses(&self) -> (r: &[usize])
        ensures
            r@ == self.candidates(),
    {
        self.candidates.as_slice()
    }

    /// Keeps the candidates whose current value, read again in `reads`, is
    /// `new_value`.
    pub fn refine(&mut self, new_value: T, reads: &[RegionBytes])
        ensures
            final(self).candidates() == refined::<T>(old(self).candidates(), reads@, new_value.value(), old(self).order()),
            final(self).expected() == new_value,
            final(self).order() == old(self).order(),
            final(self).candidates().len() <= old(self).candidates().len(),
    {
        let kept = refine_search(self.candidates.as_slice(), new_value, reads, self.order);
        proof {
            lemma_refine_shrinks::<T>(self.candidates@, reads@, new_value.value(), self.order);
        }
        self.candidates = kept;
        self.expected = new_value;
    }

    /// The write that puts `value` at the first candidate, the only one that
    /// is written; `NoCandidate` when there is none.
    pub fn modify(&self, value: T) -> (r: Result<WriteRequest, Error>)
        ensures
            self.candidates().len() > 0 <==> r is Ok,
            r matches Ok(w) ==> w.address == self.candidates()[0] && w.bytes@ == encoding(value, self.order()),
            r matches Err(e) ==> e == Error::NoCandidate,
    {
        if self.candidates.len() == 0 {
            return Err(Error::NoCandidate);
        }
        let bytes = encode(value, self.order);
        Ok(WriteRequest { address: self.candidates[0], bytes })
    }
}

/// Refining never adds a candidate.
pub proof fn lemma_refine_shrinks<T: Scalar>(candidates: Seq<usize>, reads: Seq<RegionBytes>, value: int, order: ByteOrder)
    ensures
        refined::<T>(candidates, reads, value, order).len() <= candidates.len(),
{
    candidates.lemma_filter_len(still_holds::<T>(reads, value, order));
}

proof fn lemma_filter_idempotent(s: Seq<usize>, p: spec_fn(usize) -> bool)
    ensures
        s.filter(p).filter(p) == s.filter(p),
    decreases s.len(),
{
    if s.len() > 0 {
        let init = s.drop_last();
        lemma_filter_idempotent(init, p);
        assert(init.push(s.last()) =~= s);
        init.lemma_filter_push(s.last(), p);
        if p(s.last()) {
            init.filter(p).lemma_filter_push(s.last(), p);
        }
    }
}

/// Refining twice with the same value against unchanged memory keeps every
/// candidate that the first refine kept: the count does not change.
pub proof fn lemma_refine_idempotent<T: Scalar>(candidates: Seq<usize>, reads: Seq<RegionBytes>, value: int, order: ByteOrder)
    ensures
        refined::<T>(refined::<T>(candidates, reads, value, order), reads, value, order)
            == refined::<T>(candidates, reads, value, order),
{
    lemma_filter_idempotent(candidates, still_holds::<T>(reads, value, order));
}

/// Every candidate that a refine keeps lies, with all the bytes of its value,
/// inside one of the reads it was checked against, whatever width the
/// candidates were found at.
pub proof fn lemma_refine_in_bounds<T: Scalar>(candidates: Seq<usize>, reads: Seq<RegionBytes>, value: int, order: ByteOrder)
    ensures
        forall|i: int|
            0 <= i < refined::<T>(candidates, reads, value, order).len() ==> some_read_covers::<T>(
                reads,
                #[trigger] refined::<T>(candidates, reads, value, order)[i] as int,
            ),
{
    let p = still_holds::<T>(reads, value, order);
    assert forall|i: int| 0 <= i < refined::<T>(candidates, reads, value, order).len() implies some_read_covers::<T>(
        reads,
        #[trigger] refined::<T>(candidates, reads, value, order)[i] as int,
    ) by {
        candidates.lemma_filter_pred(p, i);
        lemma_value_in_covered::<T>(reads, candidates.filter(p)[i] as int, order);
    }
}

/// Addresses of the slots of `slots` whose value is `value`, in their order.
pub open spec fn matching(slots: Seq<(int, int)>, value: int) -> Seq<usize>
    decreases slots.len(),
{
    if slots.len() == 0 {
        Seq::empty()
    } else {
        let prev = matching(slots.drop_last(), value);
        if slots.last().1 == value {
            prev.push(slots.last().0 as usize)
        } else {
            prev
        }
    }
}

proof fn lemma_matching_append(a: Seq<(int, int)>, b: Seq<(int, int)>, value: int)
    ensures
        matching(a + b, value) == matching(a, value) + matching(b, value),
    decreases b.len(),
{
    if b.len() == 0 {
        assert(a + b =~= a);
        assert(matching(a, value) + matching(b, value) =~= matching(a, value));
    } else {
        lemma_matching_append(a, b.drop_last(), value);
        assert((a + b).drop_last() =~= a + b.drop_last());
        assert((a + b).last() == b.last());
        if b.last().1 == value {
            assert(matching(a, value) + matching(b.drop_last(), value).push(b.last().0 as usize)
                =~= (matching(a, value) + matching(b.drop_last(), value)).push(b.last().0 as usize));
        }
    }
}

proof fn lemma_matches_in_slots<T: Scalar>(bytes: Seq<u8>, base: int, value: int, order: ByteOrder, n: nat)
    requires
        n <= bytes.len() / T::width(),
    ensures
        matches_in::<T>(bytes, base, value, order, n) == matching(buffer_slots::<T>(bytes, base, order).subrange(0, n as int), value),
    decreases n,
{
    let all = buffer_slots::<T>(bytes, base, order);
    if n == 0 {
        assert(all.subrange(0, 0) =~= Seq::<(int, int)>::empty());
    } else {
        lemma_matches_in_slots::<T>(bytes, base, value, order, (n - 1) as nat);
        assert(all.subrange(0, n as int).drop_last() =~= all.subrange(0, n - 1));
        assert(all.subrange(0, n as int).last() == all[n - 1]);
    }
}

proof fn lemma_scan_matching<T: Scalar>(reads: Seq<RegionBytes>, value: int, order: ByteOrder)
    ensures
        scan::<T>(reads, value, order) == matching(snapshot::<T>(reads, order), value),
    decreases reads.len(),
{
    if reads.len() > 0 {
        let last = reads.last();
        lemma_scan_matching::<T>(reads.drop_last(), value, order);
        lemma_matching_append(snapshot::<T>(reads.drop_last(), order), read_slots::<T>(last, order), value);
        if fits(last) {
            let n = last.bytes@.len() / T::width();
            lemma_matches_in_slots::<T>(last.bytes@, last.base_address as int, value, order, n);
            let all = buffer_slots::<T>(last.bytes@, last.base_address as int, order);
            T::lemma_width();
            assert(all.len() == n);
            assert(all.subrange(0, n as int) =~= all);
        } else {
            assert(matching(Seq::<(int, int)>::empty(), value) =~= Seq::<usize>::empty());
        }
    }
}

proof fn lemma_matching_single(slots: Seq<(int, int)>, value: int, k0: int)
    requires
        forall|k: int| 0 <= k < slots.len() ==> (#[trigger] slots[k].1 == value <==> k == k0),
    ensures
        matching(slots, value) == if 0 <= k0 < slots.len() {
            seq![slots[k0].0 as usize]
        } else {
            Seq::<usize>::empty()
        },
    decreases slots.len(),
{
    if slots.len() > 0 {
        let init = slots.drop_last();
        assert forall|k: int| 0 <= k < init.len() implies (#[trigger] init[k].1 == value <==> k == k0) by {
            assert(init[k] == slots[k]);
        }
        lemma_matching_single(init, value, k0);
        let k = slots.len() - 1;
        assert(slots[k].1 == value <==> k == k0);
        if 0 <= k0 < init.len() {
            assert(init[k0] == slots[k0]);
        } else if k0 == k {
            assert(Seq::<usize>::empty().push(slots[k0].0 as usize) =~= seq![slots[k0].0 as usize]);
        }
    }
}

/// Where exactly one slot of all the reads holds `value`, at any width and
/// over any number of reads, a search finds exactly that slot's address.
pub proof fn lemma_search_unique_match<T: Scalar>(reads: Seq<RegionBytes>, value: int, order: ByteOrder, k0: int)
    requires
        0 <= k0 < snapshot::<T>(reads, order).len(),
        forall|k: int|
            0 <= k < snapshot::<T>(reads, order).len() ==> (#[trigger] snapshot::<T>(reads, order)[k].1 == value <==> k == k0),
    ensures
        scan::<T>(reads, value, order) == seq![snapshot::<T>(reads, order)[k0].0 as usize],
        scan::<T>(reads, value, order).len() == 1,
{
    lemma_scan_matching::<T>(reads, value, order);
    lemma_matching_single(snapshot::<T>(reads, order), value, k0);
}

} // verus!
