//! The live scheduling state: a time wheel of item keys with its cursor, the
//! live and pending items, and the tombstones of canceled items.

use vstd::prelude::*;
use crate::item::{Item, valid_table};
use crate::seqs::lemma_filter_prefix;
use crate::model::{
    KitchenModel, begin_outcome, finish_outcome, remove_outcome, get_outcome, key_not_in,
    item_not_in, on_table, too_late, lemma_sweep_wf, lemma_allocate_wf,
    lemma_abandon_wf, lemma_schedule_wf, lemma_cancel_wf, key_of,
};
pub use crate::model::{
    ItemKey, KitchenError, WHEEL_LEN, GRACE_MINUTES, MIN_TIME_TAKE, MAX_TIME_TAKE,
};

verus! {

broadcast use vstd::seq_lib::group_seq_properties;

/// Live scheduling state of the kitchen: items, the time wheel with its
/// cursor, tombstones of canceled items, and the item number counter.
pub struct Kitchen {
    next_item_no: u64,
    secs_per_min: u64,
    cursor: u32,
    wheel: Vec<Vec<ItemKey>>,
    items: Vec<Item>,
    pending: Vec<Item>,
    removed: Vec<ItemKey>,
}

impl View for Kitchen {
    type V = KitchenModel;

    closed spec fn view(&self) -> KitchenModel {
        KitchenModel {
            next_item_no: self.next_item_no as nat,
            secs_per_min: self.secs_per_min as nat,
            cursor: self.cursor as nat,
            wheel: self.wheel@.map_values(|b: Vec<ItemKey>| b@),
            items: self.items@,
            pending: self.pending@,
            removed: self.removed@,
        }
    }
}

/// Whether `v` holds `k`.
fn contains_key(v: &Vec<ItemKey>, k: ItemKey) -> (r: bool)
    ensures
        r == v@.contains(k),
{
    let mut i: usize = 0;
    while i < v.len()
        invariant
            0 <= i <= v.len(),
            forall|j: int| 0 <= j < i ==> v@[j] != k,
        decreases v.len() - i,
    {
        if v[i].0 == k.0 && v[i].1 == k.1 {
            return true;
        }
        i += 1;
    }
    false
}

impl Kitchen {
    pub open spec fn wf(&self) -> bool {
        self@.wf()
    }

    /// An empty kitchen whose wheel minute lasts `secs_per_min` seconds; the
    /// first item receives number 1.
    pub fn new(secs_per_min: u64) -> (k: Kitchen)
        ensures
            k.wf(),
            k@.next_item_no == 1,
            k@.secs_per_min == secs_per_min,
            k@.cursor == 0,
            k@.wheel == Seq::new(WHEEL_LEN as nat, |b: int| Seq::<ItemKey>::empty()),
            k@.items.len() == 0,
            k@.pending.len() == 0,
            k@.removed.len() == 0,
    {
        let mut wheel: Vec<Vec<ItemKey>> = Vec::new();
        let mut b: u32 = 0;
        while b < WHEEL_LEN
            invariant
                0 <= b <= WHEEL_LEN,
                wheel@.len() == b,
                forall|i: int| 0 <= i < b ==> (#[trigger] wheel@[i])@.len() == 0,
            decreases WHEEL_LEN - b,
        {
            wheel.push(Vec::new());
            b += 1;
        }
        let k = Kitchen {
            next_item_no: 1,
            secs_per_min,
            cursor: 0,
            wheel,
            items: Vec::new(),
            pending: Vec::new(),
            removed: Vec::new(),
        };
        assert(k@.wheel =~= Seq::new(WHEEL_LEN as nat, |b: int| Seq::<ItemKey>::empty()));
        k
    }

    /// Finalizes the bucket under the cursor: due items without a tombstone
    /// are returned as cooked and leave the live set, tombstones of due keys
    /// are dropped, the bucket is emptied and the cursor moves to the next
    /// bucket. The caller records each returned key as cooked in the durable
    /// store.
    pub fn sweep(&mut self) -> (cooked: Vec<ItemKey>)
        requires
            old(self).wf(),
        ensures
            final(self).wf(),
            cooked@ == old(self)@.cooked(),
            final(self)@ == old(self)@.swept(),
    {
        proof { lemma_sweep_wf(self@); }
        let ghost m = self@;
        let c = self.cursor as usize;
        let mut due: Vec<ItemKey> = Vec::new();
        self.wheel.set_and_swap(c, &mut due);
        assert(due@ == m.due());

        let ghost not_removed = key_not_in(self.removed@);
        let mut cooked: Vec<ItemKey> = Vec::new();
        let mut i: usize = 0;
        while i < due.len()
            invariant
                0 <= i <= due.len(),
                cooked@ == due@.subrange(0, i as int).filter(not_removed),
                not_removed == key_not_in(self.removed@),
            decreases due.len() - i,
        {
            let k = due[i];
            if !contains_key(&self.removed, k) {
                cooked.push(k);
            }
            proof { lemma_filter_prefix(due@, i as int, not_removed); }
            i += 1;
        }
        assert(due@.subrange(0, due@.len() as int) == due@);

        let ghost keep_item = item_not_in(due@);
        let mut items: Vec<Item> = Vec::new();
        i = 0;
        while i < self.items.len()
            invariant
                0 <= i <= self.items.len(),
                items@ == self.items@.subrange(0, i as int).filter(keep_item),
                keep_item == item_not_in(due@),
            decreases self.items.len() - i,
        {
            let it = &self.items[i];
            if !contains_key(&due, (it.table_no, it.item_no)) {
                items.push(it.clone());
            }
            proof { lemma_filter_prefix(self.items@, i as int, keep_item); }
            i += 1;
        }
        assert(self.items@.subrange(0, self.items@.len() as int) == self.items@);

        let ghost keep_key = key_not_in(due@);
        let mut removed: Vec<ItemKey> = Vec::new();
        i = 0;
        while i < self.removed.len()
            invariant
                0 <= i <= self.removed.len(),
                removed@ == self.removed@.subrange(0, i as int).filter(keep_key),
                keep_key == key_not_in(due@),
            decreases self.removed.len() - i,
        {
            let k = self.removed[i];
            if !contains_key(&due, k) {
                removed.push(k);
            }
            proof { lemma_filter_prefix(self.removed@, i as int, keep_key); }
            i += 1;
        }
        assert(self.removed@.subrange(0, self.removed@.len() as int) == self.removed@);

        self.items = items;
        self.removed = removed;
        self.cursor = (self.cursor + 1) % WHEEL_LEN;
        assert(self@.wheel =~= m.wheel.update(m.cursor as int, Seq::empty()));
        assert(self@ == m.swept());
        cooked
    }

    /// Reserves the next item number for an order of `content` at
    /// `table_no`, placed at `now` and taking `time_take` minutes. The item
    /// stays pending, invisible to queries and sweeps, until `finish_add`.
    pub fn begin_add_timed(&mut self, table_no: u32, content: String, now: u64, time_take: u32) -> (r: Result<Item, KitchenError>)
        requires
            old(self).wf(),
            old(self)@.next_item_no < u64::MAX,
        ensures
            final(self).wf(),
            !valid_table(table_no) ==> r == Err::<Item, KitchenError>(KitchenError::InvalidTable)
                && final(self)@ == old(self)@,
            valid_table(table_no) ==> r is Ok,
            r is Ok ==> {
                let it = r->Ok_0;
                &&& it.table_no == table_no
                &&& it.item_no == old(self)@.next_item_no
                &&& it.content == content
                &&& it.create_at == now
                &&& it.time_take == time_take
                &&& final(self)@ == old(self)@.allocated(it)
            },
    {
        if table_no < crate::item::MIN_TABLE_NO || table_no > crate::item::MAX_TABLE_NO {
            return Err(KitchenError::InvalidTable);
        }
        let it = Item::new(table_no, self.next_item_no, content, now, time_take);
        proof { lemma_allocate_wf(self@, it); }
        self.pending.push(it.clone());
        self.next_item_no = self.next_item_no + 1;
        Ok(it)
    }

    /// Reserves the next item number for an order of `content` at
    /// `table_no`, placed at `now`, with a preparation time drawn at random
    /// from `MIN_TIME_TAKE` up to but excluding `MAX_TIME_TAKE` minutes.
    pub fn begin_add(&mut self, table_no: u32, content: String, now: u64) -> (r: Result<Item, KitchenError>)
        requires
            old(self).wf(),
            old(self)@.next_item_no < u64::MAX,
        ensures
            final(self).wf(),
            begin_outcome(old(self)@, table_no, content, now, r, final(self)@),
    {
        if table_no < crate::item::MIN_TABLE_NO || table_no > crate::item::MAX_TABLE_NO {
            return Err(KitchenError::InvalidTable);
        }
        let time_take = random_in(MIN_TIME_TAKE, MAX_TIME_TAKE);
        self.begin_add_timed(table_no, content, now, time_take)
    }

    /// Schedules the pending item `item_no` once its durable record exists:
    /// it becomes live and enters the bucket `time_take` minutes ahead of the
    /// cursor, which is returned.
    pub fn finish_add(&mut self, item_no: u64) -> (r: Result<u32, KitchenError>)
        requires
            old(self).wf(),
        ensures
            final(self).wf(),
            finish_outcome(old(self)@, item_no, r, final(self)@),
    {
        let mut p: usize = 0;
        while p < self.pending.len()
            invariant
                0 <= p <= self.pending.len(),
                self.wf(),
                self@ == old(self)@,
                forall|q: int| 0 <= q < p ==> (#[trigger] self.pending@[q]).item_no != item_no,
            decreases self.pending.len() - p,
        {
            if self.pending[p].item_no == item_no {
                let ghost m = self@;
                proof { lemma_schedule_wf(m, p as int); }
                let it = self.pending.remove(p);
                let slot = ((self.cursor as u64 + it.time_take as u64) % (WHEEL_LEN as u64)) as u32;
                let mut bucket: Vec<ItemKey> = Vec::new();
                self.wheel.set_and_swap(slot as usize, &mut bucket);
                bucket.push((it.table_no, it.item_no));
                self.wheel.set(slot as usize, bucket);
                self.items.push(it);
                assert(self@.wheel =~= m.scheduled(p as int).wheel);
                assert(self@ == m.scheduled(p as int));
                assert(m.pending[p as int].item_no == item_no);
                return Ok(slot);
            }
            p += 1;
        }
        Err(KitchenError::NotFound)
    }

    /// Drops the pending item `item_no` whose durable record could not be
    /// written; its number is not handed out again.
    pub fn abandon_add(&mut self, item_no: u64) -> (r: bool)
        requires
            old(self).wf(),
        ensures
            final(self).wf(),
            r == exists|p: int|
                0 <= p < old(self)@.pending.len() && (#[trigger] old(self)@.pending[p]).item_no
                    == item_no,
            r ==> exists|p: int|
                0 <= p < old(self)@.pending.len() && (#[trigger] old(self)@.pending[p]).item_no
                    == item_no && final(self)@ == old(self)@.abandoned(p),
            !r ==> final(self)@ == old(self)@,
    {
        let mut p: usize = 0;
        while p < self.pending.len()
            invariant
                0 <= p <= self.pending.len(),
                self.wf(),
                self@ == old(self)@,
                forall|q: int| 0 <= q < p ==> (#[trigger] self.pending@[q]).item_no != item_no,
            decreases self.pending.len() - p,
        {
            if self.pending[p].item_no == item_no {
                let ghost m = self@;
                proof { lemma_abandon_wf(m, p as int); }
                self.pending.remove(p);
                assert(self@ == m.abandoned(p as int));
                return true;
            }
            p += 1;
        }
        false
    }

    /// Cancels the live item `(table_no, item_no)` at time `now`, unless it
    /// completes within the grace window. On success it leaves the live set
    /// and is tombstoned; the caller records the cancellation in the durable
    /// store.
    pub fn remove_item(&mut self, table_no: u32, item_no: u64, now: u64) -> (r: Result<(), KitchenError>)
        requires
            old(self).wf(),
        ensures
            final(self).wf(),
            remove_outcome(old(self)@, table_no, item_no, now, r, final(self)@),
    {
        let mut i: usize = 0;
        while i < self.items.len()
            invariant
                0 <= i <= self.items.len(),
                self.wf(),
                self@ == old(self)@,
                forall|j: int| 0 <= j < i ==> key_of(#[trigger] self.items@[j]) != (table_no, item_no),
            decreases self.items.len() - i,
        {
            if self.items[i].table_no == table_no && self.items[i].item_no == item_no {
                if past_grace(&self.items[i], now, self.secs_per_min) {
                    return Err(KitchenError::TooLateToCancel);
                }
                let ghost m = self@;
                proof { lemma_cancel_wf(m, i as int); }
                let it = self.items.remove(i);
                self.removed.push((it.table_no, it.item_no));
                assert(self@ == m.canceled(i as int));
                return Ok(());
            }
            i += 1;
        }
        Err(KitchenError::NotFound)
    }

    /// The live item `(table_no, item_no)`.
    pub fn get_item(&self, table_no: u32, item_no: u64) -> (r: Result<Item, KitchenError>)
        requires
            self.wf(),
        ensures
            get_outcome(self@, table_no, item_no, r),
    {
        let mut i: usize = 0;
        while i < self.items.len()
            invariant
                0 <= i <= self.items.len(),
                forall|j: int| 0 <= j < i ==> key_of(#[trigger] self.items@[j]) != (table_no, item_no),
            decreases self.items.len() - i,
        {
            if self.items[i].table_no == table_no && self.items[i].item_no == item_no {
                let it = self.items[i].clone();
                assert(key_of(self@.items[i as int]) == (table_no, item_no));
                return Ok(it);
            }
            i += 1;
        }
        Err(KitchenError::NotFound)
    }

    /// Number and content of each live item of `table_no`, in the order in
    /// which they were scheduled.
    pub fn list_table(&self, table_no: u32) -> (r: Vec<(u64, String)>)
        requires
            self.wf(),
        ensures
            r@.len() == self@.items.filter(on_table(table_no)).len(),
            forall|j: int|
                0 <= j < r@.len() ==> (#[trigger] r@[j]).0 == self@.items.filter(
                    on_table(table_no),
                )[j].item_no && r@[j].1 == self@.items.filter(on_table(table_no))[j].content,
    {
        let ghost keep = on_table(table_no);
        let mut r: Vec<(u64, String)> = Vec::new();
        let mut i: usize = 0;
        while i < self.items.len()
            invariant
                0 <= i <= self.items.len(),
                keep == on_table(table_no),
                r@.len() == self.items@.subrange(0, i as int).filter(keep).len(),
                forall|j: int|
                    0 <= j < r@.len() ==> (#[trigger] r@[j]).0 == self.items@.subrange(
                        0,
                        i as int,
                    ).filter(keep)[j].item_no && r@[j].1 == self.items@.subrange(
                        0,
                        i as int,
                    ).filter(keep)[j].content,
            decreases self.items.len() - i,
        {
            proof { lemma_filter_prefix(self.items@, i as int, keep); }
            if self.items[i].table_no == table_no {
                r.push((self.items[i].item_no, self.items[i].content.clone()));
            }
            i += 1;
        }
        assert(self.items@.subrange(0, self.items@.len() as int) == self.items@);
        r
    }

    /// Bucket that the next sweep finalizes.
    pub fn cursor(&self) -> (c: u32)
        ensures
            c == self@.cursor,
    {
        self.cursor
    }

    /// Number that the next allocated item receives.
    pub fn next_item_no(&self) -> (n: u64)
        ensures
            n == self@.next_item_no,
    {
        self.next_item_no
    }
}

/// Whether `it` completes within the grace window at time `now`.
fn past_grace(it: &Item, now: u64, secs_per_min: u64) -> (r: bool)
    ensures
        r == too_late(*it, now, secs_per_min as nat),
{
    let spm = secs_per_min as u128;
    let tt = it.time_take as u128;
    assert(tt * spm <= u32::MAX as u128 * u64::MAX as u128) by (nonlinear_arith)
        requires
            tt <= u32::MAX,
            spm <= u64::MAX,
    ;
    assert(GRACE_MINUTES as u128 * spm <= 3 * u64::MAX as u128);
    let lhs = now as u128 + GRACE_MINUTES as u128 * spm;
    let rhs = it.create_at as u128 + tt * spm;
    assert((tt - GRACE_MINUTES) * spm == tt * spm - GRACE_MINUTES * spm) by (nonlinear_arith);
    lhs > rhs
}

/// Relies on rand's `thread_rng().gen_range(lo..hi)`: a value drawn from
/// `lo` up to but excluding `hi`; it panics on an empty range.
#[verifier::external_body]
fn random_in(lo: u32, hi: u32) -> (r: u32)
    requires
        lo < hi,
    ensures
        lo <= r < hi,
{
    rand::Rng::gen_range(&mut rand::thread_rng(), lo..hi)
}

} // verus!
