use vstd::prelude::*;
use crate::item::{Item, valid_table};
use crate::model::{
    KitchenError, KitchenModel, begin_outcome, finish_outcome, get_outcome, remove_outcome,
    sweeps, key_of, in_wheel, is_live, too_late, slot_for, item_not_in, key_not_in, ItemKey,
    WHEEL_LEN, lemma_allocate_wf, lemma_schedule_wf, lemma_sweep_wf, lemma_cancel_wf,
};
use crate::seqs::{lemma_filter_member, lemma_filter_keeps};

verus! {

broadcast use vstd::seq_lib::group_seq_properties;

/// An item that was allocated and then scheduled is found by its table and
/// number, with the content that it was ordered with.
pub proof fn lemma_added_item_is_found(
    m0: KitchenModel,
    table_no: u32,
    content: String,
    now: u64,
    r1: Result<Item, KitchenError>,
    m1: KitchenModel,
    r2: Result<u32, KitchenError>,
    m2: KitchenModel,
    r3: Result<Item, KitchenError>,
)
    requires
        m0.wf(),
        m0.next_item_no < u64::MAX,
        valid_table(table_no),
        begin_outcome(m0, table_no, content, now, r1, m1),
        finish_outcome(m1, r1->Ok_0.item_no, r2, m2),
        get_outcome(m2, table_no, r1->Ok_0.item_no, r3),
    ensures
        r1 is Ok,
        r2 is Ok,
        r3 is Ok,
        r3->Ok_0.content == content,
{
    let it = r1->Ok_0;
    lemma_allocate_wf(m0, it);
    let last = m0.pending.len() as int;
    assert(m1.pending[last] == it);
    match r2 {
        Ok(_) => {},
        Err(_) => {
            assert(m1.pending[last].item_no == it.item_no);
        },
    }
    let p = choose|p: int|
        0 <= p < m1.pending.len() && (#[trigger] m1.pending[p]).item_no == it.item_no && m2
            == m1.scheduled(p);
    assert(p == last);
    lemma_schedule_wf(m1, p);
    let i0 = m1.items.len() as int;
    assert(m2.items[i0] == it);
    match r3 {
        Ok(x) => {
            let i = choose|i: int|
                0 <= i < m2.items.len() && key_of(#[trigger] m2.items[i]) == (table_no, it.item_no)
                    && x == m2.items[i];
            assert(i == i0);
        },
        Err(_) => {
            assert(key_of(m2.items[i0]) == (table_no, it.item_no));
        },
    }
}

/// Item numbers increase: an item allocated after another, with any
/// operations in between that do not move the counter back, gets a larger
/// number.
pub proof fn lemma_item_numbers_increase(
    m0: KitchenModel,
    t1: u32,
    c1: String,
    now1: u64,
    r1: Result<Item, KitchenError>,
    m1: KitchenModel,
    m2: KitchenModel,
    t2: u32,
    c2: String,
    now2: u64,
    r2: Result<Item, KitchenError>,
    m3: KitchenModel,
)
    requires
        begin_outcome(m0, t1, c1, now1, r1, m1),
        m2.next_item_no >= m1.next_item_no,
        begin_outcome(m2, t2, c2, now2, r2, m3),
        r1 is Ok,
        r2 is Ok,
    ensures
        r1->Ok_0.item_no < r2->Ok_0.item_no,
{
}

/// A newly allocated number is in use nowhere: not by a live, pending or
/// canceled item, nor in any bucket.
pub proof fn lemma_new_number_unused(m: KitchenModel)
    requires
        m.wf(),
    ensures
        forall|i: int| 0 <= i < m.items.len() ==> (#[trigger] m.items[i]).item_no != m.next_item_no,
        forall|p: int|
            0 <= p < m.pending.len() ==> (#[trigger] m.pending[p]).item_no != m.next_item_no,
        forall|r: int| 0 <= r < m.removed.len() ==> (#[trigger] m.removed[r]).1 != m.next_item_no,
        forall|b: int, j: int|
            0 <= b < m.wheel.len() && 0 <= j < m.wheel[b].len() ==> (#[trigger] m.wheel[b][j]).1
                != m.next_item_no,
{
    assert forall|i: int| 0 <= i < m.items.len() implies (#[trigger] m.items[i]).item_no
        != m.next_item_no by {
        assert(in_wheel(m.wheel, key_of(m.items[i])));
        let b = choose|b: int| 0 <= b < m.wheel.len() && m.wheel[b].contains(key_of(m.items[i]));
        let j = choose|j: int| 0 <= j < m.wheel[b].len() && m.wheel[b][j] == key_of(m.items[i]);
        assert(m.wheel[b][j].1 < m.next_item_no);
    }
    assert forall|r: int| 0 <= r < m.removed.len() implies (#[trigger] m.removed[r]).1
        != m.next_item_no by {
        assert(in_wheel(m.wheel, m.removed[r]));
        let b = choose|b: int| 0 <= b < m.wheel.len() && m.wheel[b].contains(m.removed[r]);
        let j = choose|j: int| 0 <= j < m.wheel[b].len() && m.wheel[b][j] == m.removed[r];
        assert(m.wheel[b][j].1 < m.next_item_no);
    }
}

/// After a successful cancellation the item is no longer found.
pub proof fn lemma_removed_item_not_found(
    m0: KitchenModel,
    table_no: u32,
    item_no: u64,
    now: u64,
    r: Result<(), KitchenError>,
    m1: KitchenModel,
    rg: Result<Item, KitchenError>,
)
    requires
        m0.wf(),
        remove_outcome(m0, table_no, item_no, now, r, m1),
        r is Ok,
        get_outcome(m1, table_no, item_no, rg),
    ensures
        rg == Err::<Item, KitchenError>(KitchenError::NotFound),
{
    let i = choose|i: int|
        0 <= i < m0.items.len() && key_of(#[trigger] m0.items[i]) == (table_no, item_no)
            && !too_late(m0.items[i], now, m0.secs_per_min) && m1 == m0.canceled(i);
    if let Ok(x) = rg {
        let a = choose|a: int|
            0 <= a < m1.items.len() && key_of(#[trigger] m1.items[a]) == (table_no, item_no) && x
                == m1.items[a];
        let a0 = if a < i { a } else { a + 1 };
        assert(m1.items[a] == m0.items[a0]);
    }
}

/// A key that is tombstoned, or stands in no bucket, stays so through a
/// sweep and is not among its cooked keys.
proof fn lemma_sweep_skips_canceled(m: KitchenModel, k: ItemKey)
    requires
        m.wf(),
        m.removed.contains(k) || !in_wheel(m.wheel, k),
        !is_live(m.items, k),
    ensures
        !m.cooked().contains(k),
        m.swept().removed.contains(k) || !in_wheel(m.swept().wheel, k),
        !is_live(m.swept().items, k),
{
    let n = m.swept();
    let c = m.cursor as int;
    let due = m.due();
    if m.cooked().contains(k) {
        lemma_filter_member(due, key_not_in(m.removed), k);
        assert(m.wheel[c].contains(k));
    }
    if is_live(n.items, k) {
        let i = choose|i: int| 0 <= i < n.items.len() && key_of(n.items[i]) == k;
        lemma_filter_member(m.items, item_not_in(due), n.items[i]);
        let i0 = choose|i0: int| 0 <= i0 < m.items.len() && m.items[i0] == n.items[i];
        assert(key_of(m.items[i0]) == k);
    }
    if in_wheel(n.wheel, k) && !n.removed.contains(k) {
        let b = choose|b: int| 0 <= b < n.wheel.len() && n.wheel[b].contains(k);
        assert(b != c);
        assert(n.wheel[b] == m.wheel[b]);
        assert(m.removed.contains(k));
        if due.contains(k) {
            let j1 = choose|j1: int| 0 <= j1 < due.len() && due[j1] == k;
            let j2 = choose|j2: int| 0 <= j2 < m.wheel[b].len() && m.wheel[b][j2] == k;
            assert(m.wheel[c][j1] == m.wheel[b][j2]);
        }
        lemma_filter_keeps(m.removed, key_not_in(due), k);
    }
}

/// After a successful cancellation no later sweep reports the item as
/// cooked, and it never becomes live again.
pub proof fn lemma_removed_item_never_cooked(
    m0: KitchenModel,
    table_no: u32,
    item_no: u64,
    now: u64,
    r: Result<(), KitchenError>,
    m1: KitchenModel,
    n: nat,
)
    requires
        m0.wf(),
        remove_outcome(m0, table_no, item_no, now, r, m1),
        r is Ok,
    ensures
        !sweeps(m1, n).cooked().contains((table_no, item_no)),
        !is_live(sweeps(m1, n).items, (table_no, item_no)),
    decreases n,
{
    let k = (table_no, item_no);
    let i = choose|i: int|
        0 <= i < m0.items.len() && key_of(#[trigger] m0.items[i]) == k
            && !too_late(m0.items[i], now, m0.secs_per_min) && m1 == m0.canceled(i);
    lemma_cancel_wf(m0, i);
    assert(m1.removed[m0.removed.len() as int] == k);
    lemma_canceled_stays_out(m1, k, n);
}

proof fn lemma_canceled_stays_out(m: KitchenModel, k: ItemKey, n: nat)
    requires
        m.wf(),
        m.removed.contains(k) || !in_wheel(m.wheel, k),
        !is_live(m.items, k),
    ensures
        sweeps(m, n).wf(),
        sweeps(m, n).removed.contains(k) || !in_wheel(sweeps(m, n).wheel, k),
        !is_live(sweeps(m, n).items, k),
        !sweeps(m, n).cooked().contains(k),
    decreases n,
{
    if n == 0 {
        lemma_sweep_skips_canceled(m, k);
    } else {
        lemma_canceled_stays_out(m, k, (n - 1) as nat);
        let s = sweeps(m, (n - 1) as nat);
        lemma_sweep_skips_canceled(s, k);
        lemma_sweep_wf(s);
        lemma_sweep_skips_canceled(s.swept(), k);
    }
}

/// A cancellation inside the grace window is refused, changes nothing, and
/// the item is still found.
pub proof fn lemma_too_late_keeps_item(
    m0: KitchenModel,
    i: int,
    now: u64,
    r: Result<(), KitchenError>,
    m1: KitchenModel,
    rg: Result<Item, KitchenError>,
)
    requires
        m0.wf(),
        0 <= i < m0.items.len(),
        too_late(m0.items[i], now, m0.secs_per_min),
        remove_outcome(m0, m0.items[i].table_no, m0.items[i].item_no, now, r, m1),
        get_outcome(m1, m0.items[i].table_no, m0.items[i].item_no, rg),
    ensures
        r == Err::<(), KitchenError>(KitchenError::TooLateToCancel),
        m1 == m0,
        rg == Ok::<Item, KitchenError>(m0.items[i]),
{
    let k = key_of(m0.items[i]);
    match r {
        Ok(_) => {
            let a = choose|a: int|
                0 <= a < m0.items.len() && key_of(#[trigger] m0.items[a]) == k
                    && !too_late(m0.items[a], now, m0.secs_per_min) && m1 == m0.canceled(a);
            assert(a == i);
        },
        Err(KitchenError::NotFound) => {
            assert(is_live(m0.items, k));
        },
        _ => {},
    }
    match rg {
        Ok(x) => {
            let a = choose|a: int|
                0 <= a < m1.items.len() && key_of(#[trigger] m1.items[a]) == k && x == m1.items[a];
            assert(a == i);
        },
        Err(_) => {
            assert(is_live(m0.items, k));
        },
    }
}

/// Sweeping `a` times and then `b` times is sweeping `a + b` times.
proof fn lemma_sweeps_add(m: KitchenModel, a: nat, b: nat)
    ensures
        sweeps(sweeps(m, a), b) == sweeps(m, a + b),
    decreases b,
{
    if b > 0 {
        lemma_sweeps_add(m, a, (b - 1) as nat);
        assert((a + b - 1) as nat == a + (b - 1) as nat);
    }
}

/// Cursor arithmetic: before reaching bucket `b`, the cursor is elsewhere,
/// and each step moves it by one modulo the wheel length.
proof fn lemma_cursor_steps(c0: int, b: int, j: int)
    requires
        0 <= c0 < WHEEL_LEN,
        0 <= b < WHEEL_LEN,
        0 < j <= (b - c0 + WHEEL_LEN) % (WHEEL_LEN as int),
    ensures
        (c0 + j - 1) % (WHEEL_LEN as int) != b,
        ((c0 + j - 1) % (WHEEL_LEN as int) + 1) % (WHEEL_LEN as int) == (c0 + j) % (
        WHEEL_LEN as int),
{
}

/// Until the sweep of its bucket, a live item stays live and in that bucket,
/// and each sweep moves the cursor one bucket on.
proof fn lemma_waits_for_bucket(m: KitchenModel, k: ItemKey, b: int, j: nat)
    requires
        m.wf(),
        is_live(m.items, k),
        0 <= b < WHEEL_LEN,
        m.wheel[b].contains(k),
        j <= (b - m.cursor + WHEEL_LEN) % (WHEEL_LEN as int),
    ensures
        sweeps(m, j).wf(),
        is_live(sweeps(m, j).items, k),
        sweeps(m, j).wheel[b].contains(k),
        sweeps(m, j).cursor == (m.cursor + j) as int % (WHEEL_LEN as int),
    decreases j,
{
    if j > 0 {
        let j1 = (j - 1) as nat;
        lemma_waits_for_bucket(m, k, b, j1);
        let s = sweeps(m, j1);
        lemma_cursor_steps(m.cursor as int, b, j as int);
        lemma_sweep_wf(s);
        lemma_stays_in_other_bucket(s, k, b);
    }
}

/// A sweep of another bucket keeps a live item live and in its bucket.
proof fn lemma_stays_in_other_bucket(s: KitchenModel, k: ItemKey, b: int)
    requires
        s.wf(),
        is_live(s.items, k),
        0 <= b < WHEEL_LEN,
        b != s.cursor,
        s.wheel[b].contains(k),
    ensures
        is_live(s.swept().items, k),
        s.swept().wheel[b].contains(k),
{
    let c = s.cursor as int;
    assert(!s.due().contains(k)) by {
        if s.due().contains(k) {
            let x = choose|x: int| 0 <= x < s.wheel[c].len() && s.wheel[c][x] == k;
            let y = choose|y: int| 0 <= y < s.wheel[b].len() && s.wheel[b][y] == k;
            assert(s.wheel[c][x] == s.wheel[b][y]);
        }
    }
    let i = choose|i: int| 0 <= i < s.items.len() && key_of(s.items[i]) == k;
    lemma_filter_keeps(s.items, item_not_in(s.due()), s.items[i]);
    let t = s.swept();
    let i2 = choose|i2: int| 0 <= i2 < t.items.len() && t.items[i2] == s.items[i];
    assert(key_of(t.items[i2]) == k);
    assert(t.wheel[b] == s.wheel[b]);
}

/// An item scheduled with preparation time `time_take` stays live through
/// the next `time_take % WHEEL_LEN` sweeps; the sweep after those reports it
/// as cooked, and from then on it is not live, however many sweeps follow.
pub proof fn lemma_cooked_after_time_take(m0: KitchenModel, p: int, later: nat)
    requires
        m0.wf(),
        0 <= p < m0.pending.len(),
    ensures
        ({
            let m1 = m0.scheduled(p);
            let it = m0.pending[p];
            let d = (it.time_take % WHEEL_LEN) as nat;
            &&& is_live(sweeps(m1, d).items, key_of(it))
            &&& sweeps(m1, d).cursor == slot_for(m0.cursor, it.time_take)
            &&& sweeps(m1, d).cooked().contains(key_of(it))
            &&& !is_live(sweeps(m1, d + 1 + later).items, key_of(it))
        }),
{
    let m1 = m0.scheduled(p);
    let it = m0.pending[p];
    let k = key_of(it);
    let d = (it.time_take % WHEEL_LEN) as nat;
    let b = slot_for(m0.cursor, it.time_take);
    lemma_schedule_wf(m0, p);
    assert(m1.items[m0.items.len() as int] == it);
    assert(m1.wheel[b][m0.wheel[b].len() as int] == k);
    assert((b - m1.cursor + WHEEL_LEN) % (WHEEL_LEN as int) == d);
    lemma_waits_for_bucket(m1, k, b, d);
    let s = sweeps(m1, d);
    assert(s.cursor == b);
    // live, hence not tombstoned: it is cooked
    let y = choose|y: int| 0 <= y < s.wheel[b].len() && s.wheel[b][y] == k;
    assert(is_live(s.items, s.wheel[b][y]));
    assert(!s.removed.contains(k));
    lemma_filter_keeps(s.due(), key_not_in(s.removed), k);
    // the sweep of its bucket takes it out of the live set and the wheel
    let t = s.swept();
    lemma_sweep_wf(s);
    if is_live(t.items, k) {
        let i = choose|i: int| 0 <= i < t.items.len() && key_of(t.items[i]) == k;
        lemma_filter_member(s.items, item_not_in(s.due()), t.items[i]);
    }
    if in_wheel(t.wheel, k) {
        let b2 = choose|b2: int| 0 <= b2 < t.wheel.len() && t.wheel[b2].contains(k);
        assert(b2 != b);
        let z = choose|z: int| 0 <= z < t.wheel[b2].len() && t.wheel[b2][z] == k;
        assert(t.wheel[b2] == s.wheel[b2]);
        assert(s.wheel[b2][z] == s.wheel[b][y]);
    }
    lemma_canceled_stays_out(t, k, later);
    lemma_sweeps_add(m1, d + 1, later);
    if later > 0 {
        assert(sweeps(t, later) == sweeps(m1, d + 1 + later));
    }
}

} // verus!
