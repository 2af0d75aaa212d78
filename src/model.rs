//! The scheduling state as mathematical values, its well-formedness, the
//! effect of each operation on it, and proofs that each keeps it well formed.

use vstd::prelude::*;
use crate::item::{Item, valid_table};
use crate::seqs::{lemma_filter_member, lemma_filter_keeps};

verus! {

broadcast use vstd::seq_lib::group_seq_properties;

/// Number of buckets of the time wheel: one per minute.
pub const WHEEL_LEN: u32 = 20;

/// Fewest minutes that a new item takes.
pub const MIN_TIME_TAKE: u32 = 5;

/// Bound, excluded, of the minutes that a new item takes.
pub const MAX_TIME_TAKE: u32 = 15;

/// An item that completes within this many minutes can no longer be canceled.
pub const GRACE_MINUTES: u32 = 3;

/// Identity of an item in the wheel and the tombstone set: `(table_no, item_no)`.
pub type ItemKey = (u32, u64);

pub open spec fn key_of(it: Item) -> ItemKey {
    (it.table_no, it.item_no)
}

/// Errors of the item operations.
#[derive(PartialEq, Eq, Structural, Clone, Copy, Debug)]
pub enum KitchenError {
    /// The table number is outside the accepted range.
    InvalidTable,
    /// No live item has the given table and item number.
    NotFound,
    /// The item completes within the grace window.
    TooLateToCancel,
}

/// The scheduling state as mathematical values.
pub struct KitchenModel {
    /// Number that the next allocated item receives.
    pub next_item_no: nat,
    /// Length of a wheel minute, in seconds.
    pub secs_per_min: nat,
    /// Bucket that the next sweep finalizes.
    pub cursor: nat,
    /// Bucket contents, one sequence of keys per minute slot.
    pub wheel: Seq<Seq<ItemKey>>,
    /// Live items, in the order in which they were scheduled.
    pub items: Seq<Item>,
    /// Items that were allocated and wait for their durable record.
    pub pending: Seq<Item>,
    /// Keys of items canceled before their bucket was swept.
    pub removed: Seq<ItemKey>,
}

pub open spec fn in_wheel(wheel: Seq<Seq<ItemKey>>, k: ItemKey) -> bool {
    exists|b: int| 0 <= b < wheel.len() && #[trigger] wheel[b].contains(k)
}

pub open spec fn is_live(items: Seq<Item>, k: ItemKey) -> bool {
    exists|i: int| 0 <= i < items.len() && key_of(#[trigger] items[i]) == k
}

/// No two live items share a key.
pub open spec fn keys_distinct(items: Seq<Item>) -> bool {
    forall|i: int, j: int|
        0 <= i < items.len() && 0 <= j < items.len() && i != j ==> key_of(#[trigger] items[i])
            != key_of(#[trigger] items[j])
}

/// No two pending items share a number.
pub open spec fn numbers_distinct(items: Seq<Item>) -> bool {
    forall|i: int, j: int|
        0 <= i < items.len() && 0 <= j < items.len() && i != j ==> (#[trigger] items[i]).item_no
            != (#[trigger] items[j]).item_no
}

/// No key stands twice in the wheel, in one bucket or in two.
pub open spec fn wheel_distinct(wheel: Seq<Seq<ItemKey>>) -> bool {
    forall|b1: int, j1: int, b2: int, j2: int|
        0 <= b1 < wheel.len() && 0 <= j1 < wheel[b1].len() && 0 <= b2 < wheel.len() && 0 <= j2
            < wheel[b2].len() && (b1 != b2 || j1 != j2) ==> #[trigger] wheel[b1][j1]
            != #[trigger] wheel[b2][j2]
}

/// Keeps the items whose key is not in `keys`.
pub open spec fn item_not_in(keys: Seq<ItemKey>) -> spec_fn(Item) -> bool {
    |it: Item| !keys.contains(key_of(it))
}

/// Keeps the keys that are not in `keys`.
pub open spec fn key_not_in(keys: Seq<ItemKey>) -> spec_fn(ItemKey) -> bool {
    |k: ItemKey| !keys.contains(k)
}

impl KitchenModel {
    pub open spec fn wf(self) -> bool {
        &&& self.wheel.len() == WHEEL_LEN
        &&& self.cursor < WHEEL_LEN
        &&& self.next_item_no <= u64::MAX
        &&& forall|b: int, j: int|
            0 <= b < self.wheel.len() && 0 <= j < self.wheel[b].len() ==> (
            #[trigger] self.wheel[b][j]).1 < self.next_item_no
        &&& forall|p: int|
            0 <= p < self.pending.len() ==> (#[trigger] self.pending[p]).item_no
                < self.next_item_no
        &&& wheel_distinct(self.wheel)
        &&& keys_distinct(self.items)
        &&& numbers_distinct(self.pending)
        // every live item waits in a bucket
        &&& forall|i: int|
            0 <= i < self.items.len() ==> in_wheel(self.wheel, key_of(#[trigger] self.items[i]))
        // every bucket member is either live or tombstoned, never both
        &&& forall|b: int, j: int|
            0 <= b < self.wheel.len() && 0 <= j < self.wheel[b].len() ==> (is_live(
                self.items,
                #[trigger] self.wheel[b][j],
            ) <==> !self.removed.contains(self.wheel[b][j]))
        // every tombstone still has its bucket entry
        &&& forall|r: int|
            0 <= r < self.removed.len() ==> in_wheel(self.wheel, #[trigger] self.removed[r])
        // a pending item has no entry anywhere yet
        &&& forall|p: int, b: int, j: int|
            0 <= p < self.pending.len() && 0 <= b < self.wheel.len() && 0 <= j
                < self.wheel[b].len() ==> (#[trigger] self.wheel[b][j]).1 != (
            #[trigger] self.pending[p]).item_no
    }

    /// Keys in the bucket under the cursor.
    pub open spec fn due(self) -> Seq<ItemKey> {
        self.wheel[self.cursor as int]
    }

    /// Keys that the next sweep finalizes as cooked: the due keys without a
    /// tombstone, in bucket order.
    pub open spec fn cooked(self) -> Seq<ItemKey> {
        self.due().filter(key_not_in(self.removed))
    }

    /// The state after one sweep: due items leave the live set, their
    /// tombstones are reconciled, the bucket is cleared and the cursor moves on.
    pub open spec fn swept(self) -> KitchenModel {
        KitchenModel {
            next_item_no: self.next_item_no,
            secs_per_min: self.secs_per_min,
            cursor: ((self.cursor + 1) % (WHEEL_LEN as nat)) as nat,
            wheel: self.wheel.update(self.cursor as int, Seq::empty()),
            items: self.items.filter(item_not_in(self.due())),
            pending: self.pending,
            removed: self.removed.filter(key_not_in(self.due())),
        }
    }
    /// The state after an item was allocated: the counter moves on and the
    /// item waits for its durable record.
    pub open spec fn allocated(self, it: Item) -> KitchenModel {
        KitchenModel {
            next_item_no: self.next_item_no + 1,
            secs_per_min: self.secs_per_min,
            cursor: self.cursor,
            wheel: self.wheel,
            items: self.items,
            pending: self.pending.push(it),
            removed: self.removed,
        }
    }

    /// The state after pending item `p` was scheduled: it becomes live and
    /// enters the bucket `time_take` minutes ahead of the cursor.
    pub open spec fn scheduled(self, p: int) -> KitchenModel {
        let it = self.pending[p];
        let s = slot_for(self.cursor, it.time_take);
        KitchenModel {
            next_item_no: self.next_item_no,
            secs_per_min: self.secs_per_min,
            cursor: self.cursor,
            wheel: self.wheel.update(s, self.wheel[s].push(key_of(it))),
            items: self.items.push(it),
            pending: self.pending.remove(p),
            removed: self.removed,
        }
    }

    /// The state after pending item `p` was given up.
    pub open spec fn abandoned(self, p: int) -> KitchenModel {
        KitchenModel { pending: self.pending.remove(p), ..self }
    }

    /// The state after live item `i` was canceled: it leaves the live set and
    /// its key is tombstoned; its bucket entry stays until its sweep.
    pub open spec fn canceled(self, i: int) -> KitchenModel {
        KitchenModel {
            items: self.items.remove(i),
            removed: self.removed.push(key_of(self.items[i])),
            ..self
        }
    }
}

/// Keeps the items of table `table_no`.
pub open spec fn on_table(table_no: u32) -> spec_fn(Item) -> bool {
    |it: Item| it.table_no == table_no
}

/// Bucket of an item scheduled `time_take` minutes ahead of `cursor`.
pub open spec fn slot_for(cursor: nat, time_take: u32) -> int {
    (cursor + time_take) % (WHEEL_LEN as int)
}

/// An item created at `create_at` with `time_take` minutes to go may not be
/// canceled once `now` is past its completion minus the grace window.
pub open spec fn too_late(it: Item, now: u64, secs_per_min: nat) -> bool {
    now > it.create_at + (it.time_take - GRACE_MINUTES) * secs_per_min
}


/// What allocating an item for `table_no` may return and leave behind: an
/// unknown table is refused and changes nothing; otherwise the item gets the
/// next number, the given content and time, a preparation time in the
/// configured range, and waits as pending.
pub open spec fn begin_outcome(
    m: KitchenModel,
    table_no: u32,
    content: String,
    now: u64,
    r: Result<Item, KitchenError>,
    m2: KitchenModel,
) -> bool {
    &&& !valid_table(table_no) ==> r == Err::<Item, KitchenError>(KitchenError::InvalidTable)
        && m2 == m
    &&& valid_table(table_no) ==> r is Ok
    &&& r is Ok ==> {
        let it = r->Ok_0;
        &&& it.table_no == table_no
        &&& it.item_no == m.next_item_no
        &&& it.content == content
        &&& it.create_at == now
        &&& MIN_TIME_TAKE <= it.time_take < MAX_TIME_TAKE
        &&& m2 == m.allocated(it)
    }
}

/// What scheduling the pending item `item_no` returns and leaves behind.
pub open spec fn finish_outcome(
    m: KitchenModel,
    item_no: u64,
    r: Result<u32, KitchenError>,
    m2: KitchenModel,
) -> bool {
    match r {
        Ok(slot) => exists|p: int|
            0 <= p < m.pending.len() && (#[trigger] m.pending[p]).item_no == item_no && slot
                == slot_for(m.cursor, m.pending[p].time_take) && m2 == m.scheduled(p),
        Err(e) => e == KitchenError::NotFound && m2 == m && forall|p: int|
            0 <= p < m.pending.len() ==> (#[trigger] m.pending[p]).item_no != item_no,
    }
}

/// What canceling `(table_no, item_no)` at `now` returns and leaves behind.
pub open spec fn remove_outcome(
    m: KitchenModel,
    table_no: u32,
    item_no: u64,
    now: u64,
    r: Result<(), KitchenError>,
    m2: KitchenModel,
) -> bool {
    match r {
        Ok(_) => exists|i: int|
            0 <= i < m.items.len() && key_of(#[trigger] m.items[i]) == (table_no, item_no)
                && !too_late(m.items[i], now, m.secs_per_min) && m2 == m.canceled(i),
        Err(KitchenError::NotFound) => !is_live(m.items, (table_no, item_no)) && m2 == m,
        Err(KitchenError::TooLateToCancel) => exists|i: int|
            0 <= i < m.items.len() && key_of(#[trigger] m.items[i]) == (table_no, item_no)
                && too_late(m.items[i], now, m.secs_per_min) && m2 == m,
        Err(KitchenError::InvalidTable) => false,
    }
}

/// What looking up `(table_no, item_no)` returns.
pub open spec fn get_outcome(
    m: KitchenModel,
    table_no: u32,
    item_no: u64,
    r: Result<Item, KitchenError>,
) -> bool {
    match r {
        Ok(it) => exists|i: int|
            0 <= i < m.items.len() && key_of(#[trigger] m.items[i]) == (table_no, item_no) && it
                == m.items[i],
        Err(e) => e == KitchenError::NotFound && !is_live(m.items, (table_no, item_no)),
    }
}

/// The state after `n` sweeps.
pub open spec fn sweeps(m: KitchenModel, n: nat) -> KitchenModel
    decreases n,
{
    if n == 0 {
        m
    } else {
        sweeps(m, (n - 1) as nat).swept()
    }
}

/// Filtering keeps live keys distinct.
proof fn lemma_filter_keys_distinct(s: Seq<Item>, p: spec_fn(Item) -> bool)
    requires
        keys_distinct(s),
    ensures
        keys_distinct(s.filter(p)),
    decreases s.len(),
{
    reveal(Seq::filter);
    if s.len() > 0 {
        let rest = s.drop_last();
        assert(keys_distinct(rest)) by {
            assert forall|i: int, j: int| 0 <= i < rest.len() && 0 <= j < rest.len() && i != j
                implies key_of(rest[i]) != key_of(rest[j]) by {
                assert(rest[i] == s[i] && rest[j] == s[j]);
            }
        }
        lemma_filter_keys_distinct(rest, p);
        if p(s.last()) {
            let f = rest.filter(p);
            assert forall|i: int| 0 <= i < f.len() implies key_of(f[i]) != key_of(s.last()) by {
                lemma_filter_member(rest, p, f[i]);
                let j = choose|j: int| 0 <= j < rest.len() && rest[j] == f[i];
                assert(s[j] == rest[j]);
            }
            let g = f.push(s.last());
            assert forall|i: int, j: int| 0 <= i < g.len() && 0 <= j < g.len() && i != j
                implies key_of(g[i]) != key_of(g[j]) by {
                if i < f.len() && j < f.len() {
                    assert(g[i] == f[i] && g[j] == f[j]);
                }
            }
        }
    }
}

/// A live key stays live through a filter that keeps it.
proof fn lemma_live_after_filter(s: Seq<Item>, p: spec_fn(Item) -> bool, k: ItemKey)
    requires
        keys_distinct(s),
    ensures
        is_live(s.filter(p), k) <==> exists|i: int| 0 <= i < s.len() && key_of(s[i]) == k && p(s[i]),
{
    if is_live(s.filter(p), k) {
        let i = choose|i: int| 0 <= i < s.filter(p).len() && key_of(s.filter(p)[i]) == k;
        lemma_filter_member(s, p, s.filter(p)[i]);
        let j = choose|j: int| 0 <= j < s.len() && s[j] == s.filter(p)[i];
        assert(key_of(s[j]) == k && p(s[j]));
    }
    if exists|i: int| 0 <= i < s.len() && key_of(s[i]) == k && p(s[i]) {
        let i = choose|i: int| 0 <= i < s.len() && key_of(s[i]) == k && p(s[i]);
        lemma_filter_keeps(s, p, s[i]);
        let j = choose|j: int| 0 <= j < s.filter(p).len() && s.filter(p)[j] == s[i];
        assert(key_of(s.filter(p)[j]) == k);
    }
}

/// A sweep keeps the state well formed.
pub proof fn lemma_sweep_wf(m: KitchenModel)
    requires
        m.wf(),
    ensures
        m.swept().wf(),
{
    let n = m.swept();
    let due = m.due();
    let c = m.cursor as int;
    let pi = item_not_in(due);
    let pk = key_not_in(due);
    lemma_filter_keys_distinct(m.items, pi);
    assert forall|b1: int, j1: int, b2: int, j2: int|
        0 <= b1 < n.wheel.len() && 0 <= j1 < n.wheel[b1].len() && 0 <= b2 < n.wheel.len() && 0
            <= j2 < n.wheel[b2].len() && (b1 != b2 || j1 != j2) implies n.wheel[b1][j1]
        != n.wheel[b2][j2] by {
        assert(n.wheel[b1] == m.wheel[b1] && n.wheel[b2] == m.wheel[b2]);
    }
    assert forall|b: int, j: int| 0 <= b < n.wheel.len() && 0 <= j < n.wheel[b].len() implies (
    #[trigger] n.wheel[b][j]).1 < n.next_item_no by {
        assert(n.wheel[b] == m.wheel[b]);
    }
    assert forall|p: int, b: int, j: int|
        0 <= p < n.pending.len() && 0 <= b < n.wheel.len() && 0 <= j
            < n.wheel[b].len() implies (#[trigger] n.wheel[b][j]).1 != (
        #[trigger] n.pending[p]).item_no by {
        assert(n.wheel[b] == m.wheel[b]);
    }
    // a key outside the due bucket keeps its bucket
    assert forall|i: int| 0 <= i < n.items.len() implies in_wheel(
        n.wheel,
        key_of(#[trigger] n.items[i]),
    ) by {
        let it = n.items[i];
        lemma_filter_member(m.items, pi, it);
        let i0 = choose|i0: int| 0 <= i0 < m.items.len() && m.items[i0] == it;
        assert(in_wheel(m.wheel, key_of(m.items[i0])));
        let b = choose|b: int| 0 <= b < m.wheel.len() && m.wheel[b].contains(key_of(it));
        assert(b != c);
        assert(n.wheel[b] == m.wheel[b]);
    }
    assert forall|r: int| 0 <= r < n.removed.len() implies in_wheel(
        n.wheel,
        #[trigger] n.removed[r],
    ) by {
        let k = n.removed[r];
        lemma_filter_member(m.removed, pk, k);
        let r0 = choose|r0: int| 0 <= r0 < m.removed.len() && m.removed[r0] == k;
        assert(in_wheel(m.wheel, m.removed[r0]));
        let b = choose|b: int| 0 <= b < m.wheel.len() && m.wheel[b].contains(k);
        assert(b != c);
        assert(n.wheel[b] == m.wheel[b]);
    }
    assert forall|b: int, j: int| 0 <= b < n.wheel.len() && 0 <= j < n.wheel[b].len() implies (
    is_live(n.items, #[trigger] n.wheel[b][j]) <==> !n.removed.contains(n.wheel[b][j])) by {
        let k = n.wheel[b][j];
        assert(b != c);
        assert(n.wheel[b] == m.wheel[b]);
        assert(m.wheel[b][j] == k);
        // k is not due: it already stands in bucket b
        assert(!due.contains(k)) by {
            if due.contains(k) {
                let j2 = choose|j2: int| 0 <= j2 < due.len() && due[j2] == k;
                assert(m.wheel[c][j2] == m.wheel[b][j]);
            }
        }
        lemma_live_after_filter(m.items, pi, k);
        if is_live(m.items, k) {
            let i = choose|i: int| 0 <= i < m.items.len() && key_of(m.items[i]) == k;
            assert(pi(m.items[i]));
        }
        if m.removed.contains(k) {
            lemma_filter_keeps(m.removed, pk, k);
        }
        if n.removed.contains(k) {
            lemma_filter_member(m.removed, pk, k);
        }
    }
}

/// Allocating a fresh number keeps the state well formed.
pub proof fn lemma_allocate_wf(m: KitchenModel, it: Item)
    requires
        m.wf(),
        m.next_item_no < u64::MAX,
        it.item_no == m.next_item_no,
    ensures
        m.allocated(it).wf(),
{
    let n = m.allocated(it);
    assert forall|p: int| 0 <= p < n.pending.len() implies (#[trigger] n.pending[p]).item_no
        < n.next_item_no by {
        if p < m.pending.len() {
            assert(n.pending[p] == m.pending[p]);
        }
    }
    assert forall|i: int, j: int|
        0 <= i < n.pending.len() && 0 <= j < n.pending.len() && i != j implies (
        #[trigger] n.pending[i]).item_no != (#[trigger] n.pending[j]).item_no by {
        if i < m.pending.len() {
            assert(n.pending[i] == m.pending[i]);
        }
        if j < m.pending.len() {
            assert(n.pending[j] == m.pending[j]);
        }
    }
    assert forall|p: int, b: int, j: int|
        0 <= p < n.pending.len() && 0 <= b < n.wheel.len() && 0 <= j
            < n.wheel[b].len() implies (#[trigger] n.wheel[b][j]).1 != (
        #[trigger] n.pending[p]).item_no by {
        if p < m.pending.len() {
            assert(n.pending[p] == m.pending[p]);
        }
    }
}

/// Giving up a pending item keeps the state well formed.
pub proof fn lemma_abandon_wf(m: KitchenModel, p: int)
    requires
        m.wf(),
        0 <= p < m.pending.len(),
    ensures
        m.abandoned(p).wf(),
{
    let n = m.abandoned(p);
    assert forall|q: int| 0 <= q < n.pending.len() implies n.pending[q] == m.pending[if q < p {
        q
    } else {
        q + 1
    }] by {}
}

/// Scheduling a pending item keeps the state well formed.
pub proof fn lemma_schedule_wf(m: KitchenModel, p: int)
    requires
        m.wf(),
        0 <= p < m.pending.len(),
    ensures
        m.scheduled(p).wf(),
{
    let n = m.scheduled(p);
    let it = m.pending[p];
    let k = key_of(it);
    let s = slot_for(m.cursor, it.time_take);
    assert(0 <= s < WHEEL_LEN);
    assert forall|q: int| 0 <= q < n.pending.len() implies n.pending[q] == m.pending[if q < p {
        q
    } else {
        q + 1
    }] by {}
    // the new key stands nowhere yet
    assert(!in_wheel(m.wheel, k)) by {
        if in_wheel(m.wheel, k) {
            let b = choose|b: int| 0 <= b < m.wheel.len() && m.wheel[b].contains(k);
            let j = choose|j: int| 0 <= j < m.wheel[b].len() && m.wheel[b][j] == k;
            assert(m.wheel[b][j].1 != m.pending[p].item_no);
        }
    }
    assert(!is_live(m.items, k)) by {
        if is_live(m.items, k) {
            let i = choose|i: int| 0 <= i < m.items.len() && key_of(m.items[i]) == k;
            assert(in_wheel(m.wheel, key_of(m.items[i])));
        }
    }
    assert(!m.removed.contains(k)) by {
        if m.removed.contains(k) {
            let r = choose|r: int| 0 <= r < m.removed.len() && m.removed[r] == k;
            assert(in_wheel(m.wheel, m.removed[r]));
        }
    }
    assert forall|b: int| 0 <= b < n.wheel.len() && b != s implies n.wheel[b] == m.wheel[b] by {}
    assert forall|j: int| 0 <= j < m.wheel[s].len() implies n.wheel[s][j] == m.wheel[s][j] by {}
    assert(n.wheel[s][m.wheel[s].len() as int] == k);
    // every old key keeps its bucket
    assert forall|kk: ItemKey| in_wheel(m.wheel, kk) implies in_wheel(n.wheel, kk) by {
        let b = choose|b: int| 0 <= b < m.wheel.len() && m.wheel[b].contains(kk);
        let j = choose|j: int| 0 <= j < m.wheel[b].len() && m.wheel[b][j] == kk;
        assert(n.wheel[b][j] == kk);
    }
    assert(in_wheel(n.wheel, k)) by {
        assert(n.wheel[s].contains(k));
    }
    assert forall|b: int, j: int| 0 <= b < n.wheel.len() && 0 <= j < n.wheel[b].len() implies (
    #[trigger] n.wheel[b][j]).1 < n.next_item_no by {
        if b != s || j < m.wheel[s].len() {
            assert(n.wheel[b][j] == m.wheel[b][j]);
        }
    }
    assert forall|b1: int, j1: int, b2: int, j2: int|
        0 <= b1 < n.wheel.len() && 0 <= j1 < n.wheel[b1].len() && 0 <= b2 < n.wheel.len() && 0
            <= j2 < n.wheel[b2].len() && (b1 != b2 || j1 != j2) implies n.wheel[b1][j1]
        != n.wheel[b2][j2] by {
        let new1 = b1 == s && j1 == m.wheel[s].len();
        let new2 = b2 == s && j2 == m.wheel[s].len();
        if !new1 {
            assert(n.wheel[b1][j1] == m.wheel[b1][j1]);
        }
        if !new2 {
            assert(n.wheel[b2][j2] == m.wheel[b2][j2]);
        }
        if new1 && !new2 {
            assert(m.wheel[b2].contains(m.wheel[b2][j2]));
        }
        if new2 && !new1 {
            assert(m.wheel[b1].contains(m.wheel[b1][j1]));
        }
    }
    assert forall|i: int, j: int| 0 <= i < n.items.len() && 0 <= j < n.items.len() && i != j
        implies key_of(#[trigger] n.items[i]) != key_of(#[trigger] n.items[j]) by {
        if i < m.items.len() && j < m.items.len() {
            assert(n.items[i] == m.items[i] && n.items[j] == m.items[j]);
        } else if i < m.items.len() {
            assert(n.items[i] == m.items[i]);
        } else {
            assert(n.items[j] == m.items[j]);
        }
    }
    assert forall|i: int| 0 <= i < n.items.len() implies in_wheel(
        n.wheel,
        key_of(#[trigger] n.items[i]),
    ) by {
        if i < m.items.len() {
            assert(n.items[i] == m.items[i]);
            assert(in_wheel(m.wheel, key_of(m.items[i])));
        }
    }
    assert forall|kk: ItemKey| kk != k implies (is_live(n.items, kk) <==> is_live(m.items, kk)) by {
        if is_live(n.items, kk) {
            let i = choose|i: int| 0 <= i < n.items.len() && key_of(n.items[i]) == kk;
            assert(n.items[i] == m.items[i]);
        }
        if is_live(m.items, kk) {
            let i = choose|i: int| 0 <= i < m.items.len() && key_of(m.items[i]) == kk;
            assert(n.items[i] == m.items[i]);
        }
    }
    assert(is_live(n.items, k)) by {
        assert(n.items[m.items.len() as int] == it);
    }
    assert forall|b: int, j: int| 0 <= b < n.wheel.len() && 0 <= j < n.wheel[b].len() implies (
    is_live(n.items, #[trigger] n.wheel[b][j]) <==> !n.removed.contains(n.wheel[b][j])) by {
        if b != s || j < m.wheel[s].len() {
            assert(n.wheel[b][j] == m.wheel[b][j]);
            assert(m.wheel[b].contains(m.wheel[b][j]));
        }
    }
    assert forall|r: int| 0 <= r < n.removed.len() implies in_wheel(
        n.wheel,
        #[trigger] n.removed[r],
    ) by {
        assert(in_wheel(m.wheel, m.removed[r]));
    }
    assert forall|q: int, b: int, j: int|
        0 <= q < n.pending.len() && 0 <= b < n.wheel.len() && 0 <= j
            < n.wheel[b].len() implies (#[trigger] n.wheel[b][j]).1 != (
        #[trigger] n.pending[q]).item_no by {
        let q0 = if q < p { q } else { q + 1 };
        assert(n.pending[q] == m.pending[q0]);
        if b != s || j < m.wheel[s].len() {
            assert(n.wheel[b][j] == m.wheel[b][j]);
        } else {
            assert(m.pending[q0].item_no != m.pending[p].item_no);
        }
    }
}

/// Canceling a live item keeps the state well formed.
pub proof fn lemma_cancel_wf(m: KitchenModel, i: int)
    requires
        m.wf(),
        0 <= i < m.items.len(),
    ensures
        m.canceled(i).wf(),
{
    let n = m.canceled(i);
    let k = key_of(m.items[i]);
    assert forall|q: int| 0 <= q < n.items.len() implies n.items[q] == m.items[if q < i {
        q
    } else {
        q + 1
    }] by {}
    assert(!m.removed.contains(k)) by {
        let b = choose|b: int| 0 <= b < m.wheel.len() && m.wheel[b].contains(k);
        let j = choose|j: int| 0 <= j < m.wheel[b].len() && m.wheel[b][j] == k;
        assert(is_live(m.items, m.wheel[b][j]));
    }
    assert forall|a: int, c: int| 0 <= a < n.items.len() && 0 <= c < n.items.len() && a != c
        implies key_of(#[trigger] n.items[a]) != key_of(#[trigger] n.items[c]) by {
        let a0 = if a < i { a } else { a + 1 };
        let c0 = if c < i { c } else { c + 1 };
        assert(n.items[a] == m.items[a0] && n.items[c] == m.items[c0]);
    }
    assert forall|a: int| 0 <= a < n.items.len() implies in_wheel(
        n.wheel,
        key_of(#[trigger] n.items[a]),
    ) by {
        let a0 = if a < i { a } else { a + 1 };
        assert(n.items[a] == m.items[a0]);
    }
    assert(!is_live(n.items, k)) by {
        if is_live(n.items, k) {
            let a = choose|a: int| 0 <= a < n.items.len() && key_of(n.items[a]) == k;
            let a0 = if a < i { a } else { a + 1 };
            assert(n.items[a] == m.items[a0]);
        }
    }
    assert forall|kk: ItemKey| kk != k implies (is_live(n.items, kk) <==> is_live(m.items, kk)) by {
        if is_live(n.items, kk) {
            let a = choose|a: int| 0 <= a < n.items.len() && key_of(n.items[a]) == kk;
            let a0 = if a < i { a } else { a + 1 };
            assert(n.items[a] == m.items[a0]);
        }
        if is_live(m.items, kk) {
            let a = choose|a: int| 0 <= a < m.items.len() && key_of(m.items[a]) == kk;
            assert(a != i);
            let a1 = if a < i { a } else { a - 1 };
            assert(n.items[a1] == m.items[a]);
        }
    }
    assert forall|kk: ItemKey| kk != k implies (n.removed.contains(kk) <==> m.removed.contains(
        kk,
    )) by {
        if n.removed.contains(kk) {
            let r = choose|r: int| 0 <= r < n.removed.len() && n.removed[r] == kk;
            assert(m.removed[r] == kk);
        }
        if m.removed.contains(kk) {
            let r = choose|r: int| 0 <= r < m.removed.len() && m.removed[r] == kk;
            assert(n.removed[r] == kk);
        }
    }
    assert(n.removed.contains(k)) by {
        assert(n.removed[m.removed.len() as int] == k);
    }
    assert forall|b: int, j: int| 0 <= b < n.wheel.len() && 0 <= j < n.wheel[b].len() implies (
    is_live(n.items, #[trigger] n.wheel[b][j]) <==> !n.removed.contains(n.wheel[b][j])) by {
        assert(m.wheel[b][j] == n.wheel[b][j]);
    }
    assert forall|r: int| 0 <= r < n.removed.len() implies in_wheel(
        n.wheel,
        #[trigger] n.removed[r],
    ) by {
        if r < m.removed.len() {
            assert(in_wheel(m.wheel, m.removed[r]));
        } else {
            assert(in_wheel(m.wheel, key_of(m.items[i])));
        }
    }
}

} // verus!
