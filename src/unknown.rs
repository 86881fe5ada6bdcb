use vstd::prelude::*;

use crate::codec::{decode_at, decoded_value, encode, encoding, ByteOrder, Scalar};
use crate::error::Error;
use crate::known::WriteRequest;
use crate::region::{fits, value_at, value_in, RegionBytes};

verus! {

/// A run of consecutive slots of the target and the values they held when
/// last read: slot `k` lies at `base_address + k * width`.
pub struct SlotRun<T: Scalar> {
    /// Address of the first slot.
    pub base_address: usize,
    /// Value of each slot at the last read.
    pub data: Vec<T>,
}

/// A slot is its address and the value it held when last read.
pub open spec fn slots_of<T: Scalar>(base: int, data: Seq<T>) -> Seq<(int, int)> {
    Seq::new(data.len(), |k: int| (base + k * T::width(), data[k].value()))
}

/// The slots of the regions, region by region.
pub open spec fn flatten<T: Scalar>(regions: Seq<SlotRun<T>>) -> Seq<(int, int)>
    decreases regions.len(),
{
    if regions.len() == 0 {
        Seq::empty()
    } else {
        flatten(regions.drop_last()) + slots_of::<T>(regions.last().base_address as int, regions.last().data@)
    }
}

/// A run holds a slot and all its slots lie in the address space.
pub open spec fn region_wf<T: Scalar>(r: SlotRun<T>) -> bool {
    &&& r.data@.len() > 0
    &&& r.base_address + r.data@.len() * T::width() <= usize::MAX
}

/// The slots of the aligned values of `bytes`, read at `base`, in address order.
pub open spec fn buffer_slots<T: Scalar>(bytes: Seq<u8>, base: int, order: ByteOrder) -> Seq<(int, int)> {
    Seq::new(
        bytes.len() / T::width(),
        |k: int|
            (base + k * T::width(), decoded_value::<T>(bytes.subrange(k * T::width(), k * T::width() + T::width()), order)),
    )
}

/// The slots of the aligned values of a read, in address order; none for a
/// read that does not fit in the address space.
pub open spec fn read_slots<T: Scalar>(r: RegionBytes, order: ByteOrder) -> Seq<(int, int)> {
    if fits(r) {
        buffer_slots::<T>(r.bytes@, r.base_address as int, order)
    } else {
        Seq::empty()
    }
}

/// The slots of all reads, read by read.
pub open spec fn snapshot<T: Scalar>(reads: Seq<RegionBytes>, order: ByteOrder) -> Seq<(int, int)>
    decreases reads.len(),
{
    if reads.len() == 0 {
        Seq::empty()
    } else {
        snapshot::<T>(reads.drop_last(), order) + read_slots::<T>(reads.last(), order)
    }
}

/// How the value of the target moved since the last read.
#[derive(Clone, Copy, Debug, PartialEq, Eq, Structural)]
pub enum Change {
    /// The current value is greater than the previous one.
    Increased,
    /// The current value is less than the previous one.
    Decreased,
    /// The current value equals the previous one.
    Unchanged,
    /// The current value differs from the previous one.
    Changed,
}

/// Whether a move from `previous` to `current` is `change`.
pub open spec fn change_holds(change: Change, previous: int, current: int) -> bool {
    match change {
        Change::Increased => current > previous,
        Change::Decreased => current < previous,
        Change::Unchanged => current == previous,
        Change::Changed => current != previous,
    }
}

/// Whether a move from `previous` to `current` is `change`.
pub fn change_test<T: Scalar>(change: Change, previous: T, current: T) -> (r: bool)
    ensures
        r == change_holds(change, previous.value(), current.value()),
{
    match change {
        Change::Increased => previous.less(current),
        Change::Decreased => current.less(previous),
        Change::Unchanged => current.same(previous),
        Change::Changed => !current.same(previous),
    }
}

/// The slots whose current value, read from `reads`, moved from the one they
/// held as `change` says, each with its current value, in their order.
pub open spec fn survivors<T: Scalar>(slots: Seq<(int, int)>, reads: Seq<RegionBytes>, change: Change, order: ByteOrder) -> Seq<(int, int)>
    decreases slots.len(),
{
    if slots.len() == 0 {
        Seq::empty()
    } else {
        let prev = survivors::<T>(slots.drop_last(), reads, change, order);
        let (a, old) = slots.last();
        match value_in::<T>(reads, a, order) {
            Some(now) => if change_holds(change, old, now) {
                prev.push((a, now))
            } else {
                prev
            },
            None => prev,
        }
    }
}

proof fn lemma_slots_push<T: Scalar>(base: int, data: Seq<T>, v: T)
    ensures
        slots_of::<T>(base, data.push(v)) == slots_of::<T>(base, data).push((base + data.len() * T::width(), v.value())),
{
    assert(slots_of::<T>(base, data.push(v)) =~= slots_of::<T>(base, data).push((base + data.len() * T::width(), v.value())));
}

proof fn lemma_flatten_push<T: Scalar>(regions: Seq<SlotRun<T>>, r: SlotRun<T>)
    ensures
        flatten(regions.push(r)) == flatten(regions) + slots_of::<T>(r.base_address as int, r.data@),
{
    assert(regions.push(r).drop_last() =~= regions);
}

proof fn lemma_flatten_first<T: Scalar>(regions: Seq<SlotRun<T>>)
    requires
        regions.len() > 0,
        forall|i: int| 0 <= i < regions.len() ==> region_wf(#[trigger] regions[i]),
    ensures
        flatten(regions).len() > 0,
        flatten(regions)[0] == (regions[0].base_address as int, regions[0].data@[0].value()),
    decreases regions.len(),
{
    let init = regions.drop_last();
    let last = slots_of::<T>(regions.last().base_address as int, regions.last().data@);
    assert(region_wf(regions[regions.len() - 1]));
    if regions.len() > 1 {
        assert forall|i: int| 0 <= i < init.len() implies region_wf(#[trigger] init[i]) by {
            assert(init[i] == regions[i]);
        }
        lemma_flatten_first(init);
        assert((flatten(init) + last)[0] == flatten(init)[0]);
    } else {
        assert(flatten(init) =~= Seq::<(int, int)>::empty());
        assert(flatten(regions) =~= last);
        assert(last[0] == (regions[0].base_address + 0 * T::width(), regions[0].data@[0].value()));
    }
}

/// The values of the aligned slots of `bytes`, read at `base`.
fn decode_all<T: Scalar>(bytes: &[u8], base: usize, order: ByteOrder) -> (r: Vec<T>)
    requires
        base + bytes@.len() <= usize::MAX,
    ensures
        slots_of::<T>(base as int, r@) == buffer_slots::<T>(bytes@, base as int, order),
        base + r@.len() * T::width() <= usize::MAX,
{
    let width = T::byte_width();
    proof {
        T::lemma_width();
    }
    let len = bytes.len();
    let n = len / width;
    let mut data: Vec<T> = Vec::new();
    let mut k: usize = 0;
    let mut off: usize = 0;
    while k < n
        invariant
            width == T::width(),
            1 <= width <= 8,
            len == bytes@.len(),
            n == len / width,
            k <= n,
            off == k * width,
            data@.len() == k,
            slots_of::<T>(base as int, data@) == buffer_slots::<T>(bytes@, base as int, order).subrange(0, k as int),
        decreases n - k,
    {
        assert(off + width <= len) by (nonlinear_arith)
            requires
                off == k * width,
                k < n,
                n == len / width,
                1 <= width,
        ;
        let x = decode_at::<T>(bytes, off, order);
        proof {
            lemma_slots_push::<T>(base as int, data@, x);
        }
        data.push(x);
        assert(slots_of::<T>(base as int, data@) =~= buffer_slots::<T>(bytes@, base as int, order).subrange(0, k + 1));
        assert((k + 1) * width == off + width) by (nonlinear_arith)
            requires
                off == k * width,
        ;
        k = k + 1;
        off = off + width;
    }
    assert(buffer_slots::<T>(bytes@, base as int, order).subrange(0, n as int) =~= buffer_slots::<T>(bytes@, base as int, order));
    assert(n * width <= len) by (nonlinear_arith)
        requires
            n == len / width,
            1 <= width,
    ;
    data
}

/// Adds the slot at `address`, holding `value`, after the slots of `out`:
/// to the last region where it follows it, else as a region of its own.
fn append_slot<T: Scalar>(out: &mut Vec<SlotRun<T>>, address: usize, value: T)
    requires
        address + T::width() <= usize::MAX,
        forall|j: int| 0 <= j < old(out)@.len() ==> region_wf(#[trigger] old(out)@[j]),
    ensures
        flatten(final(out)@) == flatten(old(out)@).push((address as int, value.value())),
        forall|j: int| 0 <= j < final(out)@.len() ==> region_wf(#[trigger] final(out)@[j]),
{
    let width = T::byte_width();
    let n = out.len();
    if n > 0 {
        assert(region_wf(out@[n - 1]));
        let end = out[n - 1].base_address + out[n - 1].data.len() * width;
        if end == address {
            let ghost init = out@.drop_last();
            let mut last = out.pop().unwrap();
            proof {
                lemma_slots_push::<T>(last.base_address as int, last.data@, value);
                lemma_flatten_push::<T>(init, last);
            }
            last.data.push(value);
            assert(last.base_address + last.data@.len() * T::width() == end + width) by (nonlinear_arith)
                requires
                    end == last.base_address + (last.data@.len() - 1) * width,
                    width == T::width(),
            ;
            proof {
                lemma_flatten_push::<T>(init, last);
            }
            out.push(last);
            assert(out@ =~= init.push(last));
            return;
        }
    }
    let mut data: Vec<T> = Vec::new();
    data.push(value);
    let r = SlotRun { base_address: address, data };
    proof {
        lemma_flatten_push::<T>(out@, r);
        assert(slots_of::<T>(address as int, r.data@) =~= seq![(address as int, value.value())]);
    }
    out.push(r);
}

/// Of increased, decreased and unchanged, exactly one describes any move of a
/// value; changed describes exactly the moves that increased or decreased do.
pub proof fn lemma_change_partition(previous: int, current: int)
    ensures
        change_holds(Change::Increased, previous, current) || change_holds(Change::Decreased, previous, current)
            || change_holds(Change::Unchanged, previous, current),
        !(change_holds(Change::Increased, previous, current) && change_holds(Change::Decreased, previous, current)),
        !(change_holds(Change::Increased, previous, current) && change_holds(Change::Unchanged, previous, current)),
        !(change_holds(Change::Decreased, previous, current) && change_holds(Change::Unchanged, previous, current)),
        change_holds(Change::Changed, previous, current) == (change_holds(Change::Increased, previous, current)
            || change_holds(Change::Decreased, previous, current)),
{
}

/// Number of slots whose current value can be read from `reads`.
pub open spec fn readable_count<T: Scalar>(slots: Seq<(int, int)>, reads: Seq<RegionBytes>, order: ByteOrder) -> nat
    decreases slots.len(),
{
    if slots.len() == 0 {
        0
    } else {
        readable_count::<T>(slots.drop_last(), reads, order) + if value_in::<T>(reads, slots.last().0, order) is Some {
            1nat
        } else {
            0nat
        }
    }
}

/// The slots that increased, decreased and stayed the same split the slots
/// that could be read again, none counted twice; the slots that changed are
/// those that increased together with those that decreased.
pub proof fn lemma_survivors_partition<T: Scalar>(slots: Seq<(int, int)>, reads: Seq<RegionBytes>, order: ByteOrder)
    ensures
        survivors::<T>(slots, reads, Change::Increased, order).len() + survivors::<T>(slots, reads, Change::Decreased, order).len()
            + survivors::<T>(slots, reads, Change::Unchanged, order).len() == readable_count::<T>(slots, reads, order),
        survivors::<T>(slots, reads, Change::Changed, order).len() == survivors::<T>(slots, reads, Change::Increased, order).len()
            + survivors::<T>(slots, reads, Change::Decreased, order).len(),
        survivors::<T>(slots, reads, Change::Changed, order).to_set() == survivors::<T>(slots, reads, Change::Increased, order).to_set().union(
            survivors::<T>(slots, reads, Change::Decreased, order).to_set(),
        ),
    decreases slots.len(),
{
    if slots.len() > 0 {
        let init = slots.drop_last();
        lemma_survivors_partition::<T>(init, reads, order);
        let (a, previous) = slots.last();
        let inc = survivors::<T>(init, reads, Change::Increased, order);
        let dec = survivors::<T>(init, reads, Change::Decreased, order);
        let chg = survivors::<T>(init, reads, Change::Changed, order);
        match value_in::<T>(reads, a, order) {
            Some(now) => {
                lemma_change_partition(previous, now);
                inc.lemma_push_to_set_commute((a, now));
                dec.lemma_push_to_set_commute((a, now));
                chg.lemma_push_to_set_commute((a, now));
                if change_holds(Change::Increased, previous, now) {
                    assert(chg.push((a, now)).to_set() =~= inc.push((a, now)).to_set().union(dec.to_set()));
                } else if change_holds(Change::Decreased, previous, now) {
                    assert(chg.push((a, now)).to_set() =~= inc.to_set().union(dec.push((a, now)).to_set()));
                }
            },
            None => {},
        }
    }
}

/// Whether no two slots share an address.
pub open spec fn distinct_addresses(slots: Seq<(int, int)>) -> bool {
    forall|i: int, j: int| 0 <= i < j < slots.len() ==> #[trigger] slots[i].0 != #[trigger] slots[j].0
}

/// Whether some slot lies at `address`.
pub open spec fn has_address(slots: Seq<(int, int)>, address: int) -> bool {
    exists|i: int| 0 <= i < slots.len() && #[trigger] slots[i].0 == address
}

/// The slots whose current value can be read from `reads`, each with that
/// value, in their order.
pub open spec fn rereads<T: Scalar>(slots: Seq<(int, int)>, reads: Seq<RegionBytes>, order: ByteOrder) -> Seq<(int, int)>
    decreases slots.len(),
{
    if slots.len() == 0 {
        Seq::empty()
    } else {
        let prev = rereads::<T>(slots.drop_last(), reads, order);
        match value_in::<T>(reads, slots.last().0, order) {
            Some(now) => prev.push((slots.last().0, now)),
            None => prev,
        }
    }
}

/// Every survivor lies at the address of a slot it came from.
proof fn lemma_survivor_addresses<T: Scalar>(slots: Seq<(int, int)>, reads: Seq<RegionBytes>, change: Change, order: ByteOrder)
    ensures
        forall|e: (int, int)| #[trigger] survivors::<T>(slots, reads, change, order).to_set().contains(e) ==> has_address(slots, e.0),
    decreases slots.len(),
{
    if slots.len() > 0 {
        let init = slots.drop_last();
        lemma_survivor_addresses::<T>(init, reads, change, order);
        let prev = survivors::<T>(init, reads, change, order);
        let (a, previous) = slots.last();
        match value_in::<T>(reads, a, order) {
            Some(now) => {
                prev.lemma_push_to_set_commute((a, now));
            },
            None => {},
        }
        assert forall|e: (int, int)| #[trigger] survivors::<T>(slots, reads, change, order).to_set().contains(e) implies has_address(slots, e.0) by {
            if e.0 == a {
                assert(slots[slots.len() - 1].0 == a);
            } else {
                assert(prev.to_set().contains(e));
                let i = choose|i: int| 0 <= i < init.len() && #[trigger] init[i].0 == e.0;
                assert(slots[i].0 == e.0);
            }
        }
    }
}

/// Over slots at distinct addresses, no slot survives more than one of
/// increased, decreased and unchanged, and together those three keep every
/// slot that could be read again, with its current value.
pub proof fn lemma_survivors_disjoint<T: Scalar>(slots: Seq<(int, int)>, reads: Seq<RegionBytes>, order: ByteOrder)
    requires
        distinct_addresses(slots),
    ensures
        survivors::<T>(slots, reads, Change::Increased, order).to_set().disjoint(
            survivors::<T>(slots, reads, Change::Decreased, order).to_set(),
        ),
        survivors::<T>(slots, reads, Change::Increased, order).to_set().disjoint(
            survivors::<T>(slots, reads, Change::Unchanged, order).to_set(),
        ),
        survivors::<T>(slots, reads, Change::Decreased, order).to_set().disjoint(
            survivors::<T>(slots, reads, Change::Unchanged, order).to_set(),
        ),
        survivors::<T>(slots, reads, Change::Increased, order).to_set().union(
            survivors::<T>(slots, reads, Change::Decreased, order).to_set(),
        ).union(survivors::<T>(slots, reads, Change::Unchanged, order).to_set()) == rereads::<T>(
            slots,
            reads,
            order,
        ).to_set(),
    decreases slots.len(),
{
    if slots.len() > 0 {
        let init = slots.drop_last();
        assert(distinct_addresses(init)) by {
            assert forall|i: int, j: int| 0 <= i < j < init.len() implies #[trigger] init[i].0 != #[trigger] init[j].0 by {
                assert(init[i] == slots[i] && init[j] == slots[j]);
            }
        }
        lemma_survivors_disjoint::<T>(init, reads, order);
        let (a, previous) = slots.last();
        let inc = survivors::<T>(init, reads, Change::Increased, order);
        let dec = survivors::<T>(init, reads, Change::Decreased, order);
        let same = survivors::<T>(init, reads, Change::Unchanged, order);
        let again = rereads::<T>(init, reads, order);
        match value_in::<T>(reads, a, order) {
            Some(now) => {
                let e = (a, now);
                lemma_change_partition(previous, now);
                lemma_survivor_addresses::<T>(init, reads, Change::Increased, order);
                lemma_survivor_addresses::<T>(init, reads, Change::Decreased, order);
                lemma_survivor_addresses::<T>(init, reads, Change::Unchanged, order);
                assert(!has_address(init, a)) by {
                    if has_address(init, a) {
                        let i = choose|i: int| 0 <= i < init.len() && #[trigger] init[i].0 == a;
                        assert(slots[i].0 == slots[slots.len() - 1].0);
                    }
                }
                assert(!inc.to_set().contains(e));
                assert(!dec.to_set().contains(e));
                assert(!same.to_set().contains(e));
                inc.lemma_push_to_set_commute(e);
                dec.lemma_push_to_set_commute(e);
                same.lemma_push_to_set_commute(e);
                again.lemma_push_to_set_commute(e);
                if change_holds(Change::Increased, previous, now) {
                    assert(inc.push(e).to_set().union(dec.to_set()).union(same.to_set()) =~= again.push(e).to_set());
                } else if change_holds(Change::Decreased, previous, now) {
                    assert(inc.to_set().union(dec.push(e).to_set()).union(same.to_set()) =~= again.push(e).to_set());
                } else {
                    assert(inc.to_set().union(dec.to_set()).union(same.push(e).to_set()) =~= again.push(e).to_set());
                }
            },
            None => {},
        }
    }
}

/// Whether two reads cover no byte in common.
pub open spec fn apart(r1: RegionBytes, r2: RegionBytes) -> bool {
    r1.base_address + r1.bytes@.len() <= r2.base_address || r2.base_address + r2.bytes@.len() <= r1.base_address
}

/// Whether no two reads overlap, as the regions of one enumeration do not.
pub open spec fn reads_apart(reads: Seq<RegionBytes>) -> bool {
    forall|i: int, j: int| 0 <= i < j < reads.len() ==> apart(#[trigger] reads[i], #[trigger] reads[j])
}

/// Whether the read `r` holds the byte at `address`.
pub open spec fn holds_byte(r: RegionBytes, address: int) -> bool {
    r.base_address <= address < r.base_address + r.bytes@.len()
}

/// Every slot of a snapshot starts at a byte that one of the reads holds.
proof fn lemma_snapshot_in_reads<T: Scalar>(reads: Seq<RegionBytes>, order: ByteOrder)
    ensures
        forall|k: int|
            0 <= k < snapshot::<T>(reads, order).len() ==> exists|j: int|
                0 <= j < reads.len() && holds_byte(#[trigger] reads[j], #[trigger] snapshot::<T>(reads, order)[k].0),
    decreases reads.len(),
{
    if reads.len() > 0 {
        let init = reads.drop_last();
        let last = reads.last();
        lemma_snapshot_in_reads::<T>(init, order);
        T::lemma_width();
        let s0 = snapshot::<T>(init, order);
        let r = read_slots::<T>(last, order);
        assert forall|k: int| 0 <= k < snapshot::<T>(reads, order).len() implies exists|j: int|
            0 <= j < reads.len() && holds_byte(#[trigger] reads[j], #[trigger] snapshot::<T>(reads, order)[k].0) by {
            if k < s0.len() {
                assert(snapshot::<T>(reads, order)[k] == s0[k]);
                let j = choose|j: int| 0 <= j < init.len() && holds_byte(#[trigger] init[j], #[trigger] s0[k].0);
                assert(reads[j] == init[j]);
            } else {
                let m = k - s0.len();
                assert(snapshot::<T>(reads, order)[k] == r[m]);
                let w = T::width() as int;
                let n = last.bytes@.len() as int;
                assert(m * w + w <= n && 0 <= m * w) by (nonlinear_arith)
                    requires
                        0 <= m < n / w,
                        w >= 1,
                ;
                assert(holds_byte(reads[reads.len() - 1], r[m].0));
            }
        }
    }
}

/// Over reads that do not overlap, no two slots of the snapshot share an
/// address.
pub proof fn lemma_snapshot_distinct<T: Scalar>(reads: Seq<RegionBytes>, order: ByteOrder)
    requires
        reads_apart(reads),
    ensures
        distinct_addresses(snapshot::<T>(reads, order)),
    decreases reads.len(),
{
    if reads.len() > 0 {
        let init = reads.drop_last();
        let last = reads.last();
        assert(reads_apart(init)) by {
            assert forall|i: int, j: int| 0 <= i < j < init.len() implies apart(#[trigger] init[i], #[trigger] init[j]) by {
                assert(init[i] == reads[i] && init[j] == reads[j]);
            }
        }
        lemma_snapshot_distinct::<T>(init, order);
        lemma_snapshot_in_reads::<T>(init, order);
        T::lemma_width();
        let s0 = snapshot::<T>(init, order);
        let r = read_slots::<T>(last, order);
        let all = snapshot::<T>(reads, order);
        let w = T::width() as int;
        assert(all == s0 + r);
        assert forall|i: int, j: int| 0 <= i < j < all.len() implies #[trigger] all[i].0 != #[trigger] all[j].0 by {
            if j < s0.len() {
                assert(all[i] == s0[i] && all[j] == s0[j]);
            } else if i >= s0.len() {
                let mi = i - s0.len();
                let mj = j - s0.len();
                assert(all[i] == r[mi] && all[j] == r[mj]);
                assert(mi * w < mj * w) by (nonlinear_arith)
                    requires
                        mi < mj,
                        w >= 1,
                ;
            } else {
                let mj = j - s0.len();
                assert(all[i] == s0[i] && all[j] == r[mj]);
                let q = choose|q: int| 0 <= q < init.len() && holds_byte(#[trigger] init[q], #[trigger] s0[i].0);
                assert(apart(reads[q], reads[reads.len() - 1]));
                let n = last.bytes@.len() as int;
                assert(mj * w + w <= n && 0 <= mj * w) by (nonlinear_arith)
                    requires
                        0 <= mj < n / w,
                        w >= 1,
                ;
                assert(holds_byte(last, r[mj].0));
            }
        }
    }
}

/// Refining keeps slots at distinct addresses distinct.
pub proof fn lemma_survivors_distinct<T: Scalar>(slots: Seq<(int, int)>, reads: Seq<RegionBytes>, change: Change, order: ByteOrder)
    requires
        distinct_addresses(slots),
    ensures
        distinct_addresses(survivors::<T>(slots, reads, change, order)),
    decreases slots.len(),
{
    if slots.len() > 0 {
        let init = slots.drop_last();
        assert(distinct_addresses(init)) by {
            assert forall|i: int, j: int| 0 <= i < j < init.len() implies #[trigger] init[i].0 != #[trigger] init[j].0 by {
                assert(init[i] == slots[i] && init[j] == slots[j]);
            }
        }
        lemma_survivors_distinct::<T>(init, reads, change, order);
        lemma_survivor_addresses::<T>(init, reads, change, order);
        let prev = survivors::<T>(init, reads, change, order);
        let (a, previous) = slots.last();
        assert(!has_address(init, a)) by {
            if has_address(init, a) {
                let i = choose|i: int| 0 <= i < init.len() && #[trigger] init[i].0 == a;
                assert(slots[i].0 == slots[slots.len() - 1].0);
            }
        }
        match value_in::<T>(reads, a, order) {
            Some(now) => {
                if change_holds(change, previous, now) {
                    let all = prev.push((a, now));
                    assert forall|i: int, j: int| 0 <= i < j < all.len() implies #[trigger] all[i].0 != #[trigger] all[j].0 by {
                        if j == prev.len() {
                            assert(prev.to_set().contains(prev[i]));
                            assert(all[i] == prev[i]);
                        } else {
                            assert(all[i] == prev[i] && all[j] == prev[j]);
                        }
                    }
                }
            },
            None => {},
        }
    }
}

/// A search for a value the caller does not know: every slot of the scanned
/// regions with the value it held at the last read, narrowed by how the value
/// moved between reads.
pub struct UnknownValueSearch<T: Scalar> {
    regions: Vec<SlotRun<T>>,
    order: ByteOrder,
}

impl<T: Scalar> UnknownValueSearch<T> {
    #[verifier::type_invariant]
    spec fn wf(self) -> bool {
        forall|i: int| 0 <= i < self.regions@.len() ==> region_wf(#[trigger] self.regions@[i])
    }

    /// The runs of slots still searched.
    pub closed spec fn runs(&self) -> Seq<SlotRun<T>> {
        self.regions@
    }

    /// The remaining slots, each with the value it held at the last read.
    pub open spec fn slots(&self) -> Seq<(int, int)> {
        flatten(self.runs())
    }

    /// Byte order of the target.
    pub closed spec fn order(&self) -> ByteOrder {
        self.order
    }

    /// Reads every aligned slot of `reads` as a baseline; nothing is filtered.
    pub fn start(reads: &[RegionBytes], order: ByteOrder) -> (r: Self)
        ensures
            r.slots() == snapshot::<T>(reads@, order),
            r.order() == order,
            reads_apart(reads@) ==> distinct_addresses(r.slots()),
    {
        proof {
            if reads_apart(reads@) {
                lemma_snapshot_distinct::<T>(reads@, order);
            }
        }
        let mut regions: Vec<SlotRun<T>> = Vec::new();
        let mut i: usize = 0;
        while i < reads.len()
            invariant
                i <= reads@.len(),
                flatten(regions@) == snapshot::<T>(reads@.subrange(0, i as int), order),
                forall|j: int| 0 <= j < regions@.len() ==> region_wf(#[trigger] regions@[j]),
            decreases reads@.len() - i,
        {
            let r = &reads[i];
            assert(reads@.subrange(0, i + 1).drop_last() =~= reads@.subrange(0, i as int));
            if r.bytes.len() <= usize::MAX - r.base_address {
                let data = decode_all::<T>(r.bytes.as_slice(), r.base_address, order);
                if data.len() > 0 {
                    let region = SlotRun { base_address: r.base_address, data };
                    proof {
                        lemma_flatten_push::<T>(regions@, region);
                    }
                    regions.push(region);
                } else {
                    assert(slots_of::<T>(r.base_address as int, data@) =~= Seq::<(int, int)>::empty());
                    assert(flatten(regions@) =~= flatten(regions@) + read_slots::<T>(reads@[i as int], order));
                }
            } else {
                assert(flatten(regions@) =~= flatten(regions@) + read_slots::<T>(reads@[i as int], order));
            }
            i = i + 1;
        }
        assert(reads@.subrange(0, reads@.len() as int) =~= reads@);
        UnknownValueSearch { regions, order }
    }

    /// Number of remaining slots; it saturates at `usize::MAX`, which no address
    /// space holds.
    pub fn count(&self) -> (r: usize)
        ensures
            r == if self.slots().len() <= usize::MAX { self.slots().len() } else { usize::MAX as nat },
    {
        let mut total: usize = 0;
        let mut i: usize = 0;
        while i < self.regions.len()
            invariant
                i <= self.regions@.len(),
                total == if flatten(self.regions@.subrange(0, i as int)).len() <= usize::MAX {
                    flatten(self.regions@.subrange(0, i as int)).len()
                } else {
                    usize::MAX as nat
                },
            decreases self.regions@.len() - i,
        {
            assert(self.regions@.subrange(0, i + 1).drop_last() =~= self.regions@.subrange(0, i as int));
            let n = self.regions[i].data.len();
            if n > usize::MAX - total {
                total = usize::MAX;
            } else {
                total = total + n;
            }
            i = i + 1;
        }
        assert(self.regions@.subrange(0, self.regions@.len() as int) =~= self.regions@);
        total
    }

    /// Keeps the slots whose current value, read from `reads`, moved from the
    /// baseline as `change` says, and makes their current values the baseline.
    fn refine(&mut self, change: Change, reads: &[RegionBytes])
        ensures
            final(self).slots() == survivors::<T>(old(self).slots(), reads@, change, old(self).order()),
            final(self).order() == old(self).order(),
            distinct_addresses(old(self).slots()) ==> distinct_addresses(final(self).slots()),
    {
        proof {
            use_type_invariant(&*self);
            T::lemma_width();
            if distinct_addresses(flatten(self.regions@)) {
                lemma_survivors_distinct::<T>(flatten(self.regions@), reads@, change, self.order);
            }
        }
        let width = T::byte_width();
        let order = self.order;
        let mut out: Vec<SlotRun<T>> = Vec::new();
        let mut i: usize = 0;
        while i < self.regions.len()
            invariant
                i <= self.regions@.len(),
                width == T::width(),
                1 <= width <= 8,
                order == self.order,
                forall|j: int| 0 <= j < self.regions@.len() ==> region_wf(#[trigger] self.regions@[j]),
                forall|j: int| 0 <= j < out@.len() ==> region_wf(#[trigger] out@[j]),
                flatten(out@) == survivors::<T>(flatten(self.regions@.subrange(0, i as int)), reads@, change, order),
            decreases self.regions@.len() - i,
        {
            let r = &self.regions[i];
            let ghost done = flatten(self.regions@.subrange(0, i as int));
            assert(region_wf(self.regions@[i as int]));
            let mut k: usize = 0;
            while k < r.data.len()
                invariant
                    k <= r.data@.len(),
                    width == T::width(),
                    1 <= width <= 8,
                    region_wf(*r),
                    forall|j: int| 0 <= j < out@.len() ==> region_wf(#[trigger] out@[j]),
                    flatten(out@) == survivors::<T>(done + slots_of::<T>(r.base_address as int, r.data@.subrange(0, k as int)), reads@, change, order),
                decreases r.data@.len() - k,
            {
                assert(r.base_address + k * width + width <= usize::MAX) by (nonlinear_arith)
                    requires
                        k < r.data@.len(),
                        r.base_address + r.data@.len() * width <= usize::MAX,
                ;
                let a = r.base_address + k * width;
                let previous = r.data[k];
                let ghost before = done + slots_of::<T>(r.base_address as int, r.data@.subrange(0, k as int));
                let ghost after = done + slots_of::<T>(r.base_address as int, r.data@.subrange(0, k + 1));
                proof {
                    lemma_slots_push::<T>(r.base_address as int, r.data@.subrange(0, k as int), previous);
                    assert(r.data@.subrange(0, k as int).push(previous) =~= r.data@.subrange(0, k + 1));
                    assert(after =~= before.push((a as int, previous.value())));
                    assert(after.drop_last() =~= before);
                }
                match value_at::<T>(reads, a, order) {
                    Some(now) => {
                        if change_test(change, previous, now) {
                            append_slot(&mut out, a, now);
                        }
                    },
                    None => {},
                }
                k = k + 1;
            }
            proof {
                assert(r.data@.subrange(0, r.data@.len() as int) =~= r.data@);
                assert(self.regions@.subrange(0, i + 1).drop_last() =~= self.regions@.subrange(0, i as int));
            }
            i = i + 1;
        }
        assert(self.regions@.subrange(0, self.regions@.len() as int) =~= self.regions@);
        self.regions = out;
    }

    /// Keeps the slots whose value grew since the last read.
    pub fn value_increased(&mut self, reads: &[RegionBytes])
        ensures
            final(self).slots() == survivors::<T>(old(self).slots(), reads@, Change::Increased, old(self).order()),
            final(self).order() == old(self).order(),
            distinct_addresses(old(self).slots()) ==> distinct_addresses(final(self).slots()),
    {
        self.refine(Change::Increased, reads);
    }

    /// Keeps the slots whose value shrank since the last read.
    pub fn value_decreased(&mut self, reads: &[RegionBytes])
        ensures
            final(self).slots() == survivors::<T>(old(self).slots(), reads@, Change::Decreased, old(self).order()),
            final(self).order() == old(self).order(),
            distinct_addresses(old(self).slots()) ==> distinct_addresses(final(self).slots()),
    {
        self.refine(Change::Decreased, reads);
    }

    /// Keeps the slots whose value is the same as at the last read.
    pub fn value_didnt_change(&mut self, reads: &[RegionBytes])
        ensures
            final(self).slots() == survivors::<T>(old(self).slots(), reads@, Change::Unchanged, old(self).order()),
            final(self).order() == old(self).order(),
            distinct_addresses(old(self).slots()) ==> distinct_addresses(final(self).slots()),
    {
        self.refine(Change::Unchanged, reads);
    }

    /// Keeps the slots whose value differs from the one at the last read.
    pub fn value_changed(&mut self, reads: &[RegionBytes])
        ensures
            final(self).slots() == survivors::<T>(old(self).slots(), reads@, Change::Changed, old(self).order()),
            final(self).order() == old(self).order(),
            distinct_addresses(old(self).slots()) ==> distinct_addresses(final(self).slots()),
    {
        self.refine(Change::Changed, reads);
    }

    /// The write that puts `value` at the first remaining slot, the only one
    /// that is written; `NoCandidate` when no slot is left.
    pub fn modify(&self, value: T) -> (r: Result<WriteRequest, Error>)
        ensures
            self.slots().len() > 0 <==> r is Ok,
            r matches Ok(w) ==> w.address == self.slots()[0].0 && w.bytes@ == encoding(value, self.order()),
            r matches Err(e) ==> e == Error::NoCandidate,
    {
        proof {
            use_type_invariant(self);
        }
        if self.regions.len() == 0 {
            return Err(Error::NoCandidate);
        }
        proof {
            lemma_flatten_first(self.regions@);
        }
        let bytes = encode(value, self.order);
        Ok(WriteRequest { address: self.regions[0].base_address, bytes })
    }

    /// The value the first remaining slot held at the last read; `NoCandidate`
    /// when no slot is left.
    pub fn get_current_value(&self) -> (r: Result<T, Error>)
        ensures
            self.slots().len() > 0 <==> r is Ok,
            r matches Ok(v) ==> v.value() == self.slots()[0].1,
            r matches Err(e) ==> e == Error::NoCandidate,
    {
        proof {
            use_type_invariant(self);
        }
        if self.regions.len() == 0 {
            return Err(Error::NoCandidate);
        }
        proof {
            lemma_flatten_first(self.regions@);
        }
        Ok(self.regions[0].data[0])
    }

    /// The start address and byte length of each run of slots: what to read
    /// again before the next refine.
    pub fn ranges_to_read(&self) -> (r: Vec<(usize, usize)>)
        ensures
            r@.len() == self.runs().len(),
            forall|i: int|
                0 <= i < r@.len() ==> #[trigger] r@[i] == (
                    self.runs()[i].base_address,
                    (self.runs()[i].data@.len() * T::width()) as usize,
                ),
    {
        proof {
            use_type_invariant(self);
        }
        let width = T::byte_width();
        let mut out: Vec<(usize, usize)> = Vec::new();
        let mut i: usize = 0;
        while i < self.regions.len()
            invariant
                i <= self.regions@.len(),
                width == T::width(),
                forall|j: int| 0 <= j < self.regions@.len() ==> region_wf(#[trigger] self.regions@[j]),
                out@.len() == i,
                forall|j: int|
                    0 <= j < i ==> #[trigger] out@[j] == (
                        self.regions@[j].base_address,
                        (self.regions@[j].data@.len() * T::width()) as usize,
                    ),
            decreases self.regions@.len() - i,
        {
            let r = &self.regions[i];
            assert(region_wf(self.regions@[i as int]));
            out.push((r.base_address, r.data.len() * width));
            i = i + 1;
        }
        out
    }
}

} // verus!
