//! The decisions of the cooperative thread scheduler: a priority queue of
//! wakeups ordered by how soon each thread is due, threads waiting for named
//! events, and a table of thread slots whose generation changes each time a
//! thread is woken, so that older handles on it go stale.
use rlua::RegistryKey;
use thunderdome::{Arena, Index};
use vstd::prelude::*;

verus! {

/// A Lua value kept in the registry: here, a thread.
#[verifier::external_type_specification]
#[verifier::external_body]
pub struct ExRegistryKey(rlua::RegistryKey);

/// A generational arena.
#[verifier::external_type_specification]
#[verifier::external_body]
#[verifier::reject_recursive_types(T)]
pub struct ExArena<T>(thunderdome::Arena<T>);

/// A handle on an arena entry.
#[verifier::external_type_specification]
#[verifier::external_body]
pub struct ExIndex(thunderdome::Index);

/// The slots of a thread arena: each one's generation, and whether it holds
/// a thread.
pub uninterp spec fn arena_slots(a: Arena<RegistryKey>) -> Seq<(u32, bool)>;

/// The slot of an arena handle (`Index::slot`).
pub uninterp spec fn index_slot(i: Index) -> u32;

/// The generation of an arena handle (`Index::generation`).
pub uninterp spec fn index_generation(i: Index) -> u32;

/// `Arena::new`: an arena without slots.
#[verifier::external_body]
fn arena_new() -> (r: Arena<RegistryKey>)
    ensures
        arena_slots(r) == Seq::<(u32, bool)>::empty(),
{
    Arena::new()
}

/// `Arena::insert`: `key` goes into the slot at the head of the free list,
/// which is an empty slot, with that slot's next generation; where the free
/// list is empty, into a new slot at the end, of generation 1. Which empty
/// slot heads the free list depends on the order of earlier removals, which
/// the slots do not record, so only that it is an empty one is stated. It
/// panics past `u32::MAX` slots, which `requires` leaves out.
#[verifier::external_body]
fn arena_insert(a: &mut Arena<RegistryKey>, key: RegistryKey) -> (t: ThreadIndex)
    requires
        arena_slots(*old(a)).len() < u32::MAX,
    ensures
        ({
            let s = arena_slots(*old(a));
            ||| (t.slot < s.len() && !s[t.slot as int].1 && t.generation == next_gen(s[t.slot as int].0)
                && arena_slots(*final(a)) == s.update(t.slot as int, (t.generation, true)))
            ||| (t.slot == s.len() && t.generation == 1 && arena_slots(*final(a)) == s.push((1u32, true)))
        }),
{
    let i = a.insert(key);
    ThreadIndex { slot: i.slot(), generation: i.generation() }
}

/// `Arena::contains_slot`: the handle of the thread in `slot`, if it holds one.
#[verifier::external_body]
fn arena_contains_slot(a: &Arena<RegistryKey>, slot: u32) -> (r: Option<Index>)
    ensures
        match r {
            Some(i) => slot < arena_slots(*a).len() && arena_slots(*a)[slot as int].1 && index_slot(i) == slot
                && index_generation(i) == arena_slots(*a)[slot as int].0,
            None => !(slot < arena_slots(*a).len() && arena_slots(*a)[slot as int].1),
        },
{
    a.contains_slot(slot)
}

/// `Index::slot`.
#[verifier::external_body]
fn slot_of(i: Index) -> (r: u32)
    ensures
        r == index_slot(i),
{
    i.slot()
}

/// `Index::generation`.
#[verifier::external_body]
fn generation_of(i: Index) -> (r: u32)
    ensures
        r == index_generation(i),
{
    i.generation()
}

/// `Arena::get`: the thread that a valid handle names.
#[verifier::external_body]
fn arena_get(a: &Arena<RegistryKey>, i: Index) -> (r: Option<&RegistryKey>)
    ensures
        r is Some <==> valid_in(arena_slots(*a), ThreadIndex { slot: index_slot(i), generation: index_generation(i) }),
{
    a.get(i)
}

/// `Arena::invalidate`: a valid handle's slot moves on to its next generation
/// (after `u32::MAX` comes 1), and the new handle comes back.
#[verifier::external_body]
fn arena_invalidate(a: &mut Arena<RegistryKey>, i: Index) -> (r: Option<Index>)
    ensures
        ({
            let t = ThreadIndex { slot: index_slot(i), generation: index_generation(i) };
            let s = arena_slots(*old(a));
            if valid_in(s, t) {
                r matches Some(n) && index_slot(n) == t.slot && index_generation(n) == next_gen(t.generation)
                    && arena_slots(*final(a)) == s.update(t.slot as int, (next_gen(t.generation), true))
            } else {
                r is None && arena_slots(*final(a)) == s
            }
        }),
{
    a.invalidate(i)
}

/// `Arena::remove`: a valid handle's slot is emptied and keeps its generation.
#[verifier::external_body]
fn arena_remove(a: &mut Arena<RegistryKey>, i: Index) -> (r: Option<RegistryKey>)
    ensures
        ({
            let t = ThreadIndex { slot: index_slot(i), generation: index_generation(i) };
            let s = arena_slots(*old(a));
            if valid_in(s, t) {
                r is Some && arena_slots(*final(a)) == s.update(t.slot as int, (t.generation, false))
            } else {
                r is None && arena_slots(*final(a)) == s
            }
        }),
{
    a.remove(i)
}

/// A handle on a thread: its slot in the thread table and the generation of
/// the slot that it was made for. It is valid while the slot holds a thread
/// of that generation.
#[derive(Debug, Clone, Copy, PartialEq, Eq, Structural)]
pub struct ThreadIndex {
    pub slot: u32,
    pub generation: u32,
}

/// The name of an event that threads can wait for.
#[derive(Debug)]
pub struct EventName(pub String);

impl EventName {
    /// A copy of the name.
    pub fn copy(&self) -> (r: EventName)
        ensures
            r == *self,
    {
        EventName(self.0.clone())
    }
}

/// Why a thread is woken.
#[derive(Debug)]
pub enum Wakeup {
    /// The thread was woken directly; `args` is the handle of its arguments.
    Notify { thread: ThreadIndex, args: Option<u64> },
    /// An event the thread waited for was broadcast.
    Broadcast { thread: ThreadIndex, name: EventName, args: Option<u64> },
    /// The thread asked to sleep until the tick `scheduled_for`.
    Timed { thread: ThreadIndex, scheduled_for: u64 },
}

/// What a thread handed back when it yielded.
#[derive(Debug)]
pub enum YieldValue {
    /// A number of ticks to sleep.
    Integer(i64),
    /// The name of an event to wait for.
    Text(String),
    /// Anything else; it is ignored.
    Other,
}

/// How a resumed thread came back.
#[derive(Debug)]
pub enum Resumed {
    /// It yielded these values and can run again.
    Yielded(Vec<YieldValue>),
    /// It ran to its end.
    Finished,
    /// It raised an error.
    Failed,
}

/// What the Lua side does after a thread was resumed.
#[derive(Debug, Clone, Copy, PartialEq, Eq, Structural)]
pub enum ResumeAction {
    /// Nothing: the thread waits to be woken again.
    Keep,
    /// Forget the thread's slot in the Lua table of slots.
    ClearSlot,
    /// Forget the thread's slot and report its error.
    ClearSlotAndReport,
}

/// The tick at which `w` is due: that of a timed wakeup, else 0.
pub open spec fn due(w: Wakeup) -> u64 {
    match w {
        Wakeup::Timed { scheduled_for, .. } => scheduled_for,
        _ => 0,
    }
}

/// The thread that `w` wakes.
pub open spec fn woken(w: Wakeup) -> ThreadIndex {
    match w {
        Wakeup::Notify { thread, .. } => thread,
        Wakeup::Broadcast { thread, .. } => thread,
        Wakeup::Timed { thread, .. } => thread,
    }
}

/// Handles ordered by slot, then by generation.
pub open spec fn index_le(a: ThreadIndex, b: ThreadIndex) -> bool {
    a.slot < b.slot || (a.slot == b.slot && a.generation <= b.generation)
}

/// `a` is woken no later than `b`: direct notifications first, then the
/// earliest due, and among those due at once the greater handle.
pub open spec fn outranks(a: Wakeup, b: Wakeup) -> bool {
    if a is Notify {
        true
    } else if b is Notify {
        false
    } else {
        due(a) < due(b) || (due(a) == due(b) && index_le(woken(b), woken(a)))
    }
}

/// The index of the first wakeup of `q` that outranks all others.
pub open spec fn top(q: Seq<Wakeup>) -> int
    decreases q.len(),
{
    if q.len() <= 1 {
        0
    } else {
        let t = top(q.drop_last());
        if outranks(q.last(), q[t]) && !outranks(q[t], q.last()) {
            q.len() - 1
        } else {
            t
        }
    }
}

/// The generation after `g`: after `u32::MAX` comes 1.
pub open spec fn next_gen(g: u32) -> u32 {
    if g == u32::MAX {
        1
    } else {
        (g + 1) as u32
    }
}

/// The handle that replaces `t` when its thread is woken.
pub open spec fn bumped(t: ThreadIndex) -> ThreadIndex {
    ThreadIndex { slot: t.slot, generation: next_gen(t.generation) }
}

/// `t` is valid in a table of slots given as (generation, occupied).
pub open spec fn valid_in(s: Seq<(u32, bool)>, t: ThreadIndex) -> bool {
    t.slot < s.len() && s[t.slot as int].1 && s[t.slot as int].0 == t.generation
}

/// The ticks to sleep for a yielded integer: at least one.
pub open spec fn sleep_ticks(i: i64) -> int {
    if i < 1 {
        1
    } else {
        i as int
    }
}

/// The timed wakeups for the integers of `vals`, in order.
pub open spec fn timed_wakes(vals: Seq<YieldValue>, t: ThreadIndex, now: u64) -> Seq<Wakeup>
    decreases vals.len(),
{
    if vals.len() == 0 {
        Seq::empty()
    } else {
        let prev = timed_wakes(vals.drop_last(), t, now);
        match vals.last() {
            YieldValue::Integer(i) => prev.push(
                Wakeup::Timed { thread: t, scheduled_for: (now + sleep_ticks(i)) as u64 },
            ),
            _ => prev,
        }
    }
}

/// Every integer of `vals` can be added to `now` within a `u64`.
pub open spec fn sleeps_fit(vals: Seq<YieldValue>, now: u64) -> bool {
    forall|k: int|
        0 <= k < vals.len() ==> match #[trigger] vals[k] {
            YieldValue::Integer(i) => now + sleep_ticks(i) <= u64::MAX,
            _ => true,
        }
}

/// The first index of `x` in `l`, or `-1`.
pub open spec fn first_at(l: Seq<ThreadIndex>, x: ThreadIndex) -> int
    decreases l.len(),
{
    if l.len() == 0 {
        -1
    } else if l[0] == x {
        0
    } else {
        let r = first_at(l.drop_first(), x);
        if r < 0 {
            -1
        } else {
            r + 1
        }
    }
}

/// A waiting list after a thread woken as `o` asks, as `n`, to wait again:
/// `o` is replaced by `n`, or `n` is added unless it is there.
pub open spec fn relisten(l: Seq<ThreadIndex>, o: ThreadIndex, n: ThreadIndex) -> Seq<ThreadIndex> {
    if first_at(l, o) >= 0 {
        l.update(first_at(l, o), n)
    } else if first_at(l, n) >= 0 {
        l
    } else {
        l.push(n)
    }
}

/// The index of the first waiting list for `name`, or `-1`.
pub open spec fn entry_at(w: Seq<(Seq<char>, Seq<ThreadIndex>)>, name: Seq<char>) -> int
    decreases w.len(),
{
    if w.len() == 0 {
        -1
    } else if w[0].0 == name {
        0
    } else {
        let r = entry_at(w.drop_first(), name);
        if r < 0 {
            -1
        } else {
            r + 1
        }
    }
}

/// The waiting lists after the thread woken as `o` waits, as `n`, for `name`.
pub open spec fn listen(w: Seq<(Seq<char>, Seq<ThreadIndex>)>, name: Seq<char>, o: ThreadIndex, n: ThreadIndex) -> Seq<(Seq<char>, Seq<ThreadIndex>)> {
    let i = entry_at(w, name);
    if i >= 0 {
        w.update(i, (name, relisten(w[i].1, o, n)))
    } else {
        w.push((name, seq![n]))
    }
}

/// The waiting lists after each text of `vals` in turn.
pub open spec fn listen_all(w: Seq<(Seq<char>, Seq<ThreadIndex>)>, vals: Seq<YieldValue>, o: ThreadIndex, n: ThreadIndex) -> Seq<(Seq<char>, Seq<ThreadIndex>)>
    decreases vals.len(),
{
    if vals.len() == 0 {
        w
    } else {
        let prev = listen_all(w, vals.drop_last(), o, n);
        match vals.last() {
            YieldValue::Text(s) => listen(prev, s@, o, n),
            _ => prev,
        }
    }
}

/// The slots and wakeups after each handle of `l` in turn is woken by the
/// broadcast of `name`; stale handles wake nothing.
pub open spec fn wake_all(s: Seq<(u32, bool)>, l: Seq<ThreadIndex>, name: EventName, args: Option<u64>) -> (Seq<(u32, bool)>, Seq<Wakeup>)
    decreases l.len(),
{
    if l.len() == 0 {
        (s, Seq::empty())
    } else {
        let prev = wake_all(s, l.drop_last(), name, args);
        let t = l.last();
        if valid_in(prev.0, t) {
            (
                prev.0.update(t.slot as int, (next_gen(t.generation), true)),
                prev.1.push(Wakeup::Broadcast { thread: bumped(t), name, args }),
            )
        } else {
            prev
        }
    }
}

/// The wakeup that `pop_due` takes off a queue outranks every queued one:
/// no other is due earlier, and none is a direct notification unless it is.
pub proof fn lemma_top(q: Seq<Wakeup>)
    requires
        q.len() > 0,
    ensures
        0 <= top(q) < q.len(),
        forall|j: int| 0 <= j < q.len() ==> outranks(q[top(q)], #[trigger] q[j]),
    decreases q.len(),
{
    if q.len() > 1 {
        lemma_top(q.drop_last());
        let t = top(q.drop_last());
        assert(q[t] == q.drop_last()[t]);
        assert forall|j: int| 0 <= j < q.len() implies outranks(q[top(q)], #[trigger] q[j]) by {
            if j < q.len() - 1 {
                assert(q[j] == q.drop_last()[j]);
            }
        }
    }
}

proof fn lemma_first_at(l: Seq<ThreadIndex>, x: ThreadIndex)
    ensures
        -1 <= first_at(l, x) < l.len(),
        first_at(l, x) >= 0 ==> l[first_at(l, x)] == x,
        first_at(l, x) < 0 ==> !l.contains(x),
    decreases l.len(),
{
    if l.len() > 0 {
        lemma_first_at(l.drop_first(), x);
        if l[0] != x && l.contains(x) {
            let k = choose|k: int| 0 <= k < l.len() && l[k] == x;
            assert(l.drop_first()[k - 1] == x);
        }
    }
}

proof fn lemma_entry_at(w: Seq<(Seq<char>, Seq<ThreadIndex>)>, name: Seq<char>)
    ensures
        -1 <= entry_at(w, name) < w.len(),
        entry_at(w, name) >= 0 ==> w[entry_at(w, name)].0 == name,
        forall|k: int| 0 <= k < w.len() && entry_at(w, name) < 0 ==> (#[trigger] w[k]).0 != name,
    decreases w.len(),
{
    if w.len() > 0 {
        lemma_entry_at(w.drop_first(), name);
        assert forall|k: int| 0 <= k < w.len() && entry_at(w, name) < 0 implies (#[trigger] w[k]).0 != name by {
            if k > 0 {
                assert(w[k] == w.drop_first()[k - 1]);
            }
        }
    }
}

proof fn lemma_first_at_is(l: Seq<ThreadIndex>, x: ThreadIndex, k: int)
    requires
        0 <= k < l.len(),
        l[k] == x,
        forall|j: int| 0 <= j < k ==> l[j] != x,
    ensures
        first_at(l, x) == k,
    decreases k,
{
    if k > 0 {
        lemma_first_at_is(l.drop_first(), x, k - 1);
    }
}

proof fn lemma_entry_at_is(w: Seq<(Seq<char>, Seq<ThreadIndex>)>, name: Seq<char>, k: int)
    requires
        0 <= k < w.len(),
        w[k].0 == name,
        forall|j: int| 0 <= j < k ==> (#[trigger] w[j]).0 != name,
    ensures
        entry_at(w, name) == k,
    decreases k,
{
    if k > 0 {
        assert forall|j: int| 0 <= j < k - 1 implies (#[trigger] w.drop_first()[j]).0 != name by {
            assert(w.drop_first()[j] == w[j + 1]);
        }
        lemma_entry_at_is(w.drop_first(), name, k - 1);
    }
}

/// Where `x` first stands in `l`, if it does.
fn first_index(l: &Vec<ThreadIndex>, x: ThreadIndex) -> (r: Option<usize>)
    ensures
        match r {
            Some(k) => first_at(l@, x) == k,
            None => first_at(l@, x) == -1,
        },
{
    let mut i: usize = 0;
    while i < l.len()
        invariant
            i <= l.len(),
            forall|j: int| 0 <= j < i ==> l@[j] != x,
        decreases l.len() - i,
    {
        if l[i] == x {
            proof {
                lemma_first_at_is(l@, x, i as int);
            }
            return Some(i);
        }
        i += 1;
    }
    proof {
        lemma_first_at(l@, x);
        if first_at(l@, x) >= 0 {
            assert(l@[first_at(l@, x)] == x);
        }
    }
    None
}

/// A waiting list after `o` asks, as `n`, to wait again.
fn relisten_exec(l: &mut Vec<ThreadIndex>, o: ThreadIndex, n: ThreadIndex)
    ensures
        final(l)@ == relisten(old(l)@, o, n),
{
    match first_index(l, o) {
        Some(k) => {
            proof {
                lemma_first_at(l@, o);
            }
            l.remove(k);
            l.insert(k, n);
            assert(l@ =~= old(l)@.update(k as int, n));
        },
        None => {
            if first_index(l, n).is_none() {
                l.push(n);
            }
        },
    }
}

/// The wakeup that `pop_due` considers first: a direct notification if the
/// queue holds one; otherwise one that is due no later than any other, and
/// among those due at the same tick, one with the greatest handle.
pub proof fn lemma_pop_order(q: Seq<Wakeup>)
    requires
        q.len() > 0,
    ensures
        0 <= top(q) < q.len(),
        (exists|j: int| 0 <= j < q.len() && (#[trigger] q[j]) is Notify) ==> q[top(q)] is Notify,
        !(q[top(q)] is Notify) ==> forall|j: int| 0 <= j < q.len() ==> !((#[trigger] q[j]) is Notify) && due(q[top(q)])
            <= due(q[j]),
        !(q[top(q)] is Notify) ==> forall|j: int|
            0 <= j < q.len() && due(#[trigger] q[j]) == due(q[top(q)]) ==> woken(q[j]).slot < woken(q[top(q)]).slot
                || (woken(q[j]).slot == woken(q[top(q)]).slot && woken(q[j]).generation <= woken(q[top(q)]).generation),
{
    lemma_top(q);
    if exists|j: int| 0 <= j < q.len() && (#[trigger] q[j]) is Notify {
        let j = choose|j: int| 0 <= j < q.len() && (#[trigger] q[j]) is Notify;
        assert(outranks(q[top(q)], q[j]));
    }
}

/// Waking a thread stales the handle it was woken by, and the new handle is
/// the one that is valid.
pub proof fn lemma_wake_stales(s: Seq<(u32, bool)>, t: ThreadIndex)
    requires
        valid_in(s, t),
    ensures
        !valid_in(s.update(t.slot as int, (next_gen(t.generation), true)), t),
        valid_in(s.update(t.slot as int, (next_gen(t.generation), true)), bumped(t)),
{
}

/// A waiting list that names no handle twice, and not yet the new handle of a
/// woken thread, names each handle once after the thread waits again: the new
/// handle, and no longer the old one.
pub proof fn lemma_relisten_distinct(l: Seq<ThreadIndex>, o: ThreadIndex, n: ThreadIndex)
    requires
        l.no_duplicates(),
        !l.contains(n),
        o != n,
    ensures
        relisten(l, o, n).no_duplicates(),
        relisten(l, o, n).contains(n),
        !relisten(l, o, n).contains(o),
{
    lemma_first_at(l, o);
    lemma_first_at(l, n);
    let r = relisten(l, o, n);
    if first_at(l, o) >= 0 {
        let k = first_at(l, o);
        assert(r[k] == n);
        assert forall|a: int, b: int| 0 <= a < r.len() && 0 <= b < r.len() && a != b implies r[a] != r[b] by {
            if a != k && b != k {
                assert(r[a] == l[a] && r[b] == l[b]);
            } else if a == k {
                assert(r[b] == l[b]);
            } else {
                assert(r[a] == l[a]);
            }
        }
        if r.contains(o) {
            let j = choose|j: int| 0 <= j < r.len() && r[j] == o;
            assert(l[j] == o);
        }
    } else {
        assert(r[l.len() as int] == n);
        assert forall|a: int, b: int| 0 <= a < r.len() && 0 <= b < r.len() && a != b implies r[a] != r[b] by {
            if a < l.len() && b < l.len() {
                assert(r[a] == l[a] && r[b] == l[b]);
            } else if a < l.len() {
                assert(r[a] == l[a]);
            } else {
                assert(r[b] == l[b]);
            }
        }
        if r.contains(o) {
            let j = choose|j: int| 0 <= j < r.len() && r[j] == o;
            if j < l.len() {
                assert(l[j] == o);
            }
        }
    }
}

/// Each yielded integer queues one timed wakeup, in order, due that many
/// ticks from now (one tick for an integer below one), with no other bound;
/// texts and other values queue nothing.
pub proof fn lemma_sleep_ticks(vals: Seq<YieldValue>, t: ThreadIndex, now: u64, v: YieldValue)
    ensures
        v matches YieldValue::Integer(i) ==> timed_wakes(vals.push(v), t, now) == timed_wakes(vals, t, now).push(
            Wakeup::Timed { thread: t, scheduled_for: (if i < 1 { now + 1 } else { now + i }) as u64 },
        ),
        !(v is Integer) ==> timed_wakes(vals.push(v), t, now) == timed_wakes(vals, t, now),
        v matches YieldValue::Integer(i) ==> (i >= 1 && now + i <= u64::MAX ==> timed_wakes(seq![v], t, now)
            == seq![Wakeup::Timed { thread: t, scheduled_for: (now + i) as u64 }]),
{
    assert(vals.push(v).drop_last() =~= vals);
    assert(vals.push(v).last() == v);
    let e = Seq::<YieldValue>::empty();
    assert(seq![v].drop_last() =~= e);
    assert(seq![v].last() == v);
    assert(timed_wakes(e, t, now) == Seq::<Wakeup>::empty());
    if let YieldValue::Integer(i) = v {
        let w = Wakeup::Timed { thread: t, scheduled_for: (now + sleep_ticks(i)) as u64 };
        assert(timed_wakes(seq![v], t, now) == Seq::<Wakeup>::empty().push(w));
        assert(Seq::<Wakeup>::empty().push(w) =~= seq![w]);
    }
}

/// The waiting list for `name`: that of its first entry, empty where none.
pub open spec fn listeners(w: Seq<(Seq<char>, Seq<ThreadIndex>)>, name: Seq<char>) -> Seq<ThreadIndex> {
    if entry_at(w, name) >= 0 {
        w[entry_at(w, name)].1
    } else {
        Seq::empty()
    }
}

/// Where the names of two tables agree, so do their first entries.
proof fn lemma_entry_at_names(w: Seq<(Seq<char>, Seq<ThreadIndex>)>, v: Seq<(Seq<char>, Seq<ThreadIndex>)>, x: Seq<char>)
    requires
        w.len() == v.len(),
        forall|k: int| 0 <= k < w.len() ==> (#[trigger] w[k]).0 == v[k].0,
    ensures
        entry_at(w, x) == entry_at(v, x),
    decreases w.len(),
{
    if w.len() > 0 {
        assert forall|k: int| 0 <= k < w.drop_first().len() implies (#[trigger] w.drop_first()[k]).0 == v.drop_first()[k].0 by {
            assert(w.drop_first()[k] == w[k + 1]);
            assert(v.drop_first()[k] == v[k + 1]);
        }
        lemma_entry_at_names(w.drop_first(), v.drop_first(), x);
        assert(w[0].0 == v[0].0);
    }
}

/// A new entry at the end is found only for its own name, and only where no
/// earlier entry has it.
proof fn lemma_entry_at_push(w: Seq<(Seq<char>, Seq<ThreadIndex>)>, e: (Seq<char>, Seq<ThreadIndex>), x: Seq<char>)
    ensures
        entry_at(w, x) >= 0 ==> entry_at(w.push(e), x) == entry_at(w, x),
        entry_at(w, x) < 0 && e.0 == x ==> entry_at(w.push(e), x) == w.len(),
        entry_at(w, x) < 0 && e.0 != x ==> entry_at(w.push(e), x) < 0,
    decreases w.len(),
{
    assert(w.push(e).len() > 0);
    if w.len() > 0 {
        assert(w.push(e)[0] == w[0]);
        assert(w.push(e).drop_first() =~= w.drop_first().push(e));
        lemma_entry_at_push(w.drop_first(), e, x);
    } else {
        assert(w.push(e)[0] == e);
        assert(w.push(e).drop_first() =~= Seq::<(Seq<char>, Seq<ThreadIndex>)>::empty());
        assert(entry_at(Seq::<(Seq<char>, Seq<ThreadIndex>)>::empty(), x) == -1);
    }
}

/// When a thread woken as `o` waits, as `n`, for `name`, the waiting list for
/// `name` holds `n` and every handle it held before other than `o`, and
/// nothing else; the lists for all other names stay as they were.
pub proof fn lemma_listen_keeps_waiters(
    w: Seq<(Seq<char>, Seq<ThreadIndex>)>,
    name: Seq<char>,
    o: ThreadIndex,
    n: ThreadIndex,
)
    ensures
        listeners(listen(w, name, o, n), name).contains(n),
        forall|x: ThreadIndex|
            x != o && #[trigger] listeners(w, name).contains(x) ==> listeners(listen(w, name, o, n), name).contains(x),
        forall|x: ThreadIndex|
            #[trigger] listeners(listen(w, name, o, n), name).contains(x) ==> x == n || listeners(w, name).contains(x),
        forall|other: Seq<char>| other != name ==> #[trigger] listeners(listen(w, name, o, n), other) == listeners(w, other),
{
    lemma_entry_at(w, name);
    let i = entry_at(w, name);
    let w2 = listen(w, name, o, n);
    if i >= 0 {
        let l = w[i].1;
        assert(w2 == w.update(i, (name, relisten(l, o, n))));
        assert forall|x: Seq<char>| entry_at(w2, x) == entry_at(w, x) by {
            assert forall|k: int| 0 <= k < w2.len() implies (#[trigger] w2[k]).0 == w[k].0 by {}
            lemma_entry_at_names(w2, w, x);
        }
        assert(listeners(w2, name) == relisten(l, o, n));
        assert(listeners(w, name) == l);
        lemma_first_at(l, o);
        lemma_first_at(l, n);
        let r = relisten(l, o, n);
        if first_at(l, o) >= 0 {
            let k = first_at(l, o);
            assert(r[k] == n);
            assert forall|x: ThreadIndex| x != o && #[trigger] l.contains(x) implies r.contains(x) by {
                let j = choose|j: int| 0 <= j < l.len() && l[j] == x;
                assert(j != k);
                assert(r[j] == x);
            }
            assert forall|x: ThreadIndex| #[trigger] r.contains(x) implies x == n || l.contains(x) by {
                let j = choose|j: int| 0 <= j < r.len() && r[j] == x;
                if j != k {
                    assert(l[j] == x);
                }
            }
        } else if first_at(l, n) >= 0 {
            assert(l[first_at(l, n)] == n);
        } else {
            assert(r[l.len() as int] == n);
            assert forall|x: ThreadIndex| x != o && #[trigger] l.contains(x) implies r.contains(x) by {
                let j = choose|j: int| 0 <= j < l.len() && l[j] == x;
                assert(r[j] == x);
            }
            assert forall|x: ThreadIndex| #[trigger] r.contains(x) implies x == n || l.contains(x) by {
                let j = choose|j: int| 0 <= j < r.len() && r[j] == x;
                if j < l.len() {
                    assert(l[j] == x);
                }
            }
        }
        assert forall|other: Seq<char>| other != name implies #[trigger] listeners(w2, other) == listeners(w, other) by {
            lemma_entry_at(w, other);
            if entry_at(w, other) >= 0 {
                assert(entry_at(w, other) != i);
            }
        }
    } else {
        let e = (name, seq![n]);
        assert(w2 == w.push(e));
        lemma_entry_at_push(w, e, name);
        assert(listeners(w2, name) == seq![n]);
        assert(seq![n][0] == n);
        assert forall|other: Seq<char>| other != name implies #[trigger] listeners(w2, other) == listeners(w, other) by {
            lemma_entry_at_push(w, e, other);
            lemma_entry_at(w, other);
        }
    }
}

/// A broadcast to a waiting list of valid, distinct handles wakes every one
/// of them, in list order, each with its next handle; no slot of another
/// thread changes.
pub proof fn lemma_broadcast_wakes_all(
    s: Seq<(u32, bool)>,
    l: Seq<ThreadIndex>,
    name: EventName,
    args: Option<u64>,
)
    requires
        l.no_duplicates(),
        forall|k: int| 0 <= k < l.len() ==> valid_in(s, #[trigger] l[k]),
    ensures
        wake_all(s, l, name, args).1 == l.map_values(
            |t: ThreadIndex| Wakeup::Broadcast { thread: bumped(t), name, args },
        ),
        wake_all(s, l, name, args).0.len() == s.len(),
        forall|j: int|
            0 <= j < s.len() && (forall|k: int| 0 <= k < l.len() ==> (#[trigger] l[k]).slot != j)
                ==> #[trigger] wake_all(s, l, name, args).0[j] == s[j],
    decreases l.len(),
{
    if l.len() > 0 {
        let init = l.drop_last();
        let t = l.last();
        assert forall|k: int| 0 <= k < init.len() implies valid_in(s, #[trigger] init[k]) by {
            assert(init[k] == l[k]);
        }
        assert(init.no_duplicates()) by {
            assert forall|a: int, b: int| 0 <= a < init.len() && 0 <= b < init.len() && a != b implies init[a] != init[b] by {
                assert(init[a] == l[a] && init[b] == l[b]);
            }
        }
        lemma_broadcast_wakes_all(s, init, name, args);
        let prev = wake_all(s, init, name, args);
        assert(valid_in(s, l[l.len() - 1]));
        assert forall|k: int| 0 <= k < init.len() implies (#[trigger] init[k]).slot != t.slot by {
            assert(init[k] == l[k]);
            assert(valid_in(s, l[k]));
            if l[k].slot == t.slot {
                assert(l[k] == t);
            }
        }
        assert(prev.0[t.slot as int] == s[t.slot as int]);
        assert(valid_in(prev.0, t));
        assert(wake_all(s, l, name, args).1 =~= l.map_values(
            |t: ThreadIndex| Wakeup::Broadcast { thread: bumped(t), name, args },
        ));
        assert forall|j: int|
            0 <= j < s.len() && (forall|k: int| 0 <= k < l.len() ==> (#[trigger] l[k]).slot != j)
                implies #[trigger] wake_all(s, l, name, args).0[j] == s[j] by {
            assert forall|k: int| 0 <= k < init.len() implies (#[trigger] init[k]).slot != j by {
                assert(init[k] == l[k]);
            }
            assert(l[l.len() - 1].slot != j);
        }
    }
}

/// The scheduler's queue of wakeups, its waiting lists and its arena of
/// threads.
pub struct Scheduler {
    queue: Vec<Wakeup>,
    waiting: Vec<(String, Vec<ThreadIndex>)>,
    threads: Arena<RegistryKey>,
    discrete: u64,
}

impl Scheduler {
    /// The queued wakeups.
    pub closed spec fn queue(&self) -> Seq<Wakeup> {
        self.queue@
    }

    /// The waiting lists, by event name.
    pub closed spec fn waits(&self) -> Seq<(Seq<char>, Seq<ThreadIndex>)> {
        self.waiting@.map_values(|e: (String, Vec<ThreadIndex>)| (e.0@, e.1@))
    }

    /// The thread arena: each slot's generation and whether it holds a thread.
    pub closed spec fn slots(&self) -> Seq<(u32, bool)> {
        arena_slots(self.threads)
    }

    /// The current tick.
    pub closed spec fn now(&self) -> u64 {
        self.discrete
    }

    /// `t` names a thread of the table.
    pub open spec fn valid(&self, t: ThreadIndex) -> bool {
        valid_in(self.slots(), t)
    }

    /// A scheduler with nothing queued, at tick 0.
    pub fn new() -> (r: Self)
        ensures
            r.queue() == Seq::<Wakeup>::empty(),
            r.waits() == Seq::<(Seq<char>, Seq<ThreadIndex>)>::empty(),
            r.slots() == Seq::<(u32, bool)>::empty(),
            r.now() == 0,
    {
        let r = Scheduler { queue: Vec::new(), waiting: Vec::new(), threads: arena_new(), discrete: 0 };
        assert(r.waits() =~= Seq::<(Seq<char>, Seq<ThreadIndex>)>::empty());
        r
    }

    /// The current tick.
    pub fn tick(&self) -> (r: u64)
        ensures
            r == self.now(),
    {
        self.discrete
    }

    /// Moves on to the next tick.
    pub fn advance(&mut self)
        requires
            old(self).now() < u64::MAX,
        ensures
            final(self).now() == old(self).now() + 1,
            final(self).queue() == old(self).queue(),
            final(self).waits() == old(self).waits(),
            final(self).slots() == old(self).slots(),
    {
        self.discrete = self.discrete + 1;
    }

    /// The index of the first wakeup that outranks all others.
    fn top_index(&self) -> (r: usize)
        requires
            self.queue().len() > 0,
        ensures
            r == top(self.queue()),
            r < self.queue().len(),
    {
        let mut t: usize = 0;
        let mut i: usize = 1;
        while i < self.queue.len()
            invariant
                1 <= i <= self.queue.len(),
                t == top(self.queue@.take(i as int)),
            decreases self.queue.len() - i,
        {
            proof {
                let q = self.queue@.take(i + 1);
                assert(q.drop_last() == self.queue@.take(i as int));
                lemma_top(self.queue@.take(i as int));
                assert(q[t as int] == self.queue@[t as int]);
            }
            if outranks_exec(&self.queue[i], &self.queue[t]) && !outranks_exec(&self.queue[t], &self.queue[i]) {
                t = i;
            }
            i += 1;
        }
        proof {
            assert(self.queue@.take(self.queue@.len() as int) == self.queue@);
            lemma_top(self.queue@);
        }
        t
    }

    /// Nothing is due: the queue is empty, or its first wakeup is due later.
    pub fn is_idle(&self) -> (r: bool)
        ensures
            r == (self.queue().len() == 0 || due(self.queue()[top(self.queue())]) > self.now()),
    {
        if self.queue.len() == 0 {
            true
        } else {
            let t = self.top_index();
            self.queue[t].scheduled_for() > self.discrete
        }
    }

    /// Takes the first wakeup off the queue if it is due by now: a wakeup that
    /// outranks every other queued one.
    pub fn pop_due(&mut self) -> (r: Option<Wakeup>)
        ensures
            final(self).now() == old(self).now(),
            final(self).waits() == old(self).waits(),
            final(self).slots() == old(self).slots(),
            old(self).queue().len() == 0 || due(old(self).queue()[top(old(self).queue())]) > old(self).now()
                ==> r is None && final(self).queue() == old(self).queue(),
            old(self).queue().len() > 0 && due(old(self).queue()[top(old(self).queue())]) <= old(self).now()
                ==> r == Some(old(self).queue()[top(old(self).queue())]) && final(self).queue()
                == old(self).queue().remove(top(old(self).queue())),
    {
        if self.queue.len() == 0 {
            return None;
        }
        let t = self.top_index();
        if self.queue[t].scheduled_for() > self.discrete {
            return None;
        }
        Some(self.queue.remove(t))
    }

    /// The current handle of the thread in `slot`, if it holds one.
    fn current(&self, slot: u32) -> (r: Option<Index>)
        ensures
            match r {
                Some(i) => slot < self.slots().len() && self.slots()[slot as int].1 && index_slot(i) == slot
                    && index_generation(i) == self.slots()[slot as int].0,
                None => !(slot < self.slots().len() && self.slots()[slot as int].1),
            },
    {
        arena_contains_slot(&self.threads, slot)
    }

    /// The arena handle for `t`, if `t` is valid.
    fn handle(&self, t: ThreadIndex) -> (r: Option<Index>)
        ensures
            match r {
                Some(i) => self.valid(t) && index_slot(i) == t.slot && index_generation(i) == t.generation,
                None => !self.valid(t),
            },
    {
        match self.current(t.slot) {
            Some(i) => {
                if generation_of(i) == t.generation {
                    Some(i)
                } else {
                    None
                }
            },
            None => None,
        }
    }

    /// The thread that `t` names, if `t` is valid.
    pub fn thread(&self, t: ThreadIndex) -> (r: Option<&RegistryKey>)
        ensures
            r is Some <==> self.valid(t),
    {
        match self.handle(t) {
            Some(i) => arena_get(&self.threads, i),
            None => None,
        }
    }

    /// Whether `slot` holds a thread.
    pub fn has_slot(&self, slot: u32) -> (r: bool)
        ensures
            r == (slot < self.slots().len() && self.slots()[slot as int].1),
    {
        self.current(slot).is_some()
    }

    /// Moves slot `t.slot` on to its next generation, which stales `t` and every
    /// older handle on it; returns the new handle.
    fn invalidate(&mut self, t: ThreadIndex) -> (n: ThreadIndex)
        requires
            old(self).valid(t),
        ensures
            n == bumped(t),
            final(self).slots() == old(self).slots().update(t.slot as int, (next_gen(t.generation), true)),
            final(self).queue() == old(self).queue(),
            final(self).waits() == old(self).waits(),
            final(self).now() == old(self).now(),
    {
        match self.handle(t) {
            Some(i) => match arena_invalidate(&mut self.threads, i) {
                Some(n) => ThreadIndex { slot: slot_of(n), generation: generation_of(n) },
                None => {
                    proof {
                        assert(false);
                    }
                    t
                },
            },
            None => {
                proof {
                    assert(false);
                }
                t
            },
        }
    }

    /// Adds a thread to the arena, in an empty slot or a new one, and queues
    /// it to run at tick 0.
    pub fn spawn(&mut self, key: RegistryKey) -> (t: ThreadIndex)
        requires
            old(self).slots().len() < u32::MAX,
        ensures
            ({
                let s = old(self).slots();
                ||| (t.slot < s.len() && !s[t.slot as int].1 && t.generation == next_gen(s[t.slot as int].0)
                    && final(self).slots() == s.update(t.slot as int, (t.generation, true)))
                ||| (t.slot == s.len() && t.generation == 1 && final(self).slots() == s.push((1u32, true)))
            }),
            final(self).valid(t),
            final(self).queue() == old(self).queue().push(Wakeup::Timed { thread: t, scheduled_for: 0 }),
            final(self).waits() == old(self).waits(),
            final(self).now() == old(self).now(),
    {
        let t = arena_insert(&mut self.threads, key);
        self.queue.push(Wakeup::Timed { thread: t, scheduled_for: 0 });
        t
    }

    /// Whether `t` names a thread of the arena.
    pub fn is_valid(&self, t: ThreadIndex) -> (r: bool)
        ensures
            r == self.valid(t),
    {
        self.handle(t).is_some()
    }

    /// Where the first waiting list for `name` stands, if there is one.
    fn entry_index(&self, name: &String) -> (r: Option<usize>)
        ensures
            match r {
                Some(k) => entry_at(self.waits(), name@) == k && k < self.waits().len(),
                None => entry_at(self.waits(), name@) == -1,
            },
    {
        let mut i: usize = 0;
        while i < self.waiting.len()
            invariant
                i <= self.waiting.len(),
                forall|j: int| 0 <= j < i ==> (#[trigger] self.waits()[j]).0 != name@,
            decreases self.waiting.len() - i,
        {
            if self.waiting[i].0 == *name {
                proof {
                    lemma_entry_at_is(self.waits(), name@, i as int);
                }
                return Some(i);
            }
            i += 1;
        }
        proof {
            lemma_entry_at(self.waits(), name@);
            if entry_at(self.waits(), name@) >= 0 {
                let k = entry_at(self.waits(), name@);
                assert(self.waits()[k].0 == name@);
            }
        }
        None
    }

    /// The thread woken as `o` waits, as `n`, for the event `name`.
    fn listen_exec(&mut self, name: &String, o: ThreadIndex, n: ThreadIndex)
        ensures
            final(self).waits() == listen(old(self).waits(), name@, o, n),
            final(self).queue() == old(self).queue(),
            final(self).slots() == old(self).slots(),
            final(self).now() == old(self).now(),
    {
        match self.entry_index(name) {
            Some(k) => {
                let ghost w0 = self.waiting@;
                proof {
                    lemma_entry_at(self.waits(), name@);
                    assert(self.waits()[k as int] == (w0[k as int].0@, w0[k as int].1@));
                }
                let (nm, mut l) = self.waiting.remove(k);
                relisten_exec(&mut l, o, n);
                self.waiting.insert(k, (nm, l));
                proof {
                    assert(self.waiting@ =~= w0.update(k as int, (nm, l)));
                    assert(nm@ == name@);
                    assert(self.waits() =~= old(self).waits().update(
                        k as int,
                        (name@, relisten(old(self).waits()[k as int].1, o, n)),
                    ));
                }
            },
            None => {
                let ghost w0 = self.waiting@;
                let v = vec![n];
                self.waiting.push((name.clone(), v));
                proof {
                    assert(v@ == seq![n]);
                    assert(self.waits() =~= old(self).waits().push((name@, seq![n])));
                }
            },
        }
    }

    /// After the thread that `w` woke yielded `yielded` and can run again: its
    /// handle moves on a generation; each integer queues it to wake that many
    /// ticks from now (at least one), each text makes it wait for the event of
    /// that name, and anything else is ignored.
    pub fn handle_yield(&mut self, w: &Wakeup, yielded: &Vec<YieldValue>)
        requires
            old(self).valid(woken(*w)),
            sleeps_fit(yielded@, old(self).now()),
        ensures
            final(self).slots() == old(self).slots().update(
                woken(*w).slot as int,
                (next_gen(woken(*w).generation), true),
            ),
            final(self).queue() == old(self).queue() + timed_wakes(yielded@, bumped(woken(*w)), old(self).now()),
            final(self).waits() == listen_all(old(self).waits(), yielded@, woken(*w), bumped(woken(*w))),
            final(self).now() == old(self).now(),
    {
        let o = w.thread();
        let n = self.invalidate(o);
        let ghost q0 = self.queue@;
        let ghost w0 = self.waits();
        let ghost s1 = self.slots();
        let mut i: usize = 0;
        while i < yielded.len()
            invariant
                i <= yielded.len(),
                n == bumped(o),
                self.now() == old(self).now(),
                sleeps_fit(yielded@, self.now()),
                self.slots() == s1,
                self.slots().len() == old(self).slots().len(),
                self.queue() == q0 + timed_wakes(yielded@.take(i as int), n, self.now()),
                self.waits() == listen_all(w0, yielded@.take(i as int), o, n),
            decreases yielded.len() - i,
        {
            proof {
                assert(yielded@.take(i + 1).drop_last() == yielded@.take(i as int));
                assert(yielded@.take(i + 1).last() == yielded@[i as int]);
            }
            match &yielded[i] {
                YieldValue::Integer(v) => {
                    let ticks: u64 = if *v < 1 {
                        1
                    } else {
                        *v as u64
                    };
                    proof {
                        assert(match yielded@[i as int] {
                            YieldValue::Integer(j) => self.now() + sleep_ticks(j) <= u64::MAX,
                            _ => true,
                        });
                    }
                    let at = self.discrete + ticks;
                    self.queue.push(Wakeup::Timed { thread: n, scheduled_for: at });
                    proof {
                        assert(self.queue() =~= q0 + timed_wakes(yielded@.take(i + 1), n, self.now()));
                    }
                },
                YieldValue::Text(name) => {
                    self.listen_exec(name, o, n);
                },
                YieldValue::Other => {},
            }
            i += 1;
        }
        proof {
            assert(yielded@.take(yielded@.len() as int) == yielded@);
        }
    }

    /// Takes in how the thread that `w` woke came back from being resumed. A
    /// thread that yielded is handled as `handle_yield` says and kept; one
    /// that finished keeps its arena slot, and its Lua slot is forgotten; one
    /// that failed leaves the arena, and its Lua slot is forgotten and its
    /// error reported.
    pub fn on_resumed(&mut self, w: &Wakeup, outcome: &Resumed) -> (a: ResumeAction)
        requires
            old(self).valid(woken(*w)),
            outcome matches Resumed::Yielded(v) ==> sleeps_fit(v@, old(self).now()),
        ensures
            final(self).now() == old(self).now(),
            match outcome {
                Resumed::Yielded(v) => {
                    &&& a == ResumeAction::Keep
                    &&& final(self).slots() == old(self).slots().update(
                        woken(*w).slot as int,
                        (next_gen(woken(*w).generation), true),
                    )
                    &&& final(self).queue() == old(self).queue() + timed_wakes(v@, bumped(woken(*w)), old(self).now())
                    &&& final(self).waits() == listen_all(old(self).waits(), v@, woken(*w), bumped(woken(*w)))
                },
                Resumed::Finished => {
                    &&& a == ResumeAction::ClearSlot
                    &&& final(self).slots() == old(self).slots()
                    &&& final(self).queue() == old(self).queue()
                    &&& final(self).waits() == old(self).waits()
                },
                Resumed::Failed => {
                    &&& a == ResumeAction::ClearSlotAndReport
                    &&& final(self).slots() == old(self).slots().update(
                        woken(*w).slot as int,
                        (woken(*w).generation, false),
                    )
                    &&& final(self).queue() == old(self).queue()
                    &&& final(self).waits() == old(self).waits()
                },
            },
    {
        match outcome {
            Resumed::Yielded(v) => {
                self.handle_yield(w, v);
                ResumeAction::Keep
            },
            Resumed::Finished => ResumeAction::ClearSlot,
            Resumed::Failed => {
                self.remove(w.thread());
                ResumeAction::ClearSlotAndReport
            },
        }
    }

    /// Wakes every thread that waits for `name`, handing each the arguments
    /// `args`; the waiting list for `name` is left empty. Stale handles in it
    /// wake nothing.
    pub fn broadcast(&mut self, name: &EventName, args: Option<u64>)
        ensures
            final(self).now() == old(self).now(),
            entry_at(old(self).waits(), name.0@) < 0 ==> final(self).queue() == old(self).queue()
                && final(self).waits() == old(self).waits() && final(self).slots() == old(self).slots(),
            entry_at(old(self).waits(), name.0@) >= 0 ==> {
                let i = entry_at(old(self).waits(), name.0@);
                let r = wake_all(old(self).slots(), old(self).waits()[i].1, *name, args);
                &&& final(self).slots() == r.0
                &&& final(self).queue() == old(self).queue() + r.1
                &&& final(self).waits() == old(self).waits().update(i, (name.0@, Seq::<ThreadIndex>::empty()))
            },
    {
        match self.entry_index(&name.0) {
            None => {},
            Some(k) => {
                let ghost w0 = self.waiting@;
                proof {
                    lemma_entry_at(self.waits(), name.0@);
                    assert(self.waits()[k as int] == (w0[k as int].0@, w0[k as int].1@));
                }
                let (nm, l) = self.waiting.remove(k);
                let empty: Vec<ThreadIndex> = Vec::new();
                let ghost cleared = (nm, empty);
                self.waiting.insert(k, (nm, empty));
                proof {
                    assert(self.waiting@ =~= w0.update(k as int, cleared));
                    assert(self.waits() =~= old(self).waits().update(k as int, (name.0@, Seq::<ThreadIndex>::empty())));
                }
                let ghost q0 = self.queue@;
                let ghost s0 = self.slots();
                let mut j: usize = 0;
                while j < l.len()
                    invariant
                        j <= l.len(),
                        l@ == old(self).waits()[k as int].1,
                        s0 == old(self).slots(),
                        self.now() == old(self).now(),
                        self.waits() == old(self).waits().update(k as int, (name.0@, Seq::<ThreadIndex>::empty())),
                        self.slots().len() == old(self).slots().len(),
                        (self.slots(), self.queue@) == {
                            let r = wake_all(s0, l@.take(j as int), *name, args);
                            (r.0, q0 + r.1)
                        },
                    decreases l.len() - j,
                {
                    let t = l[j];
                    proof {
                        assert(l@.take(j + 1).drop_last() == l@.take(j as int));
                        assert(l@.take(j + 1).last() == t);
                    }
                    if self.is_valid(t) {
                        let n = self.invalidate(t);
                        self.queue.push(Wakeup::Broadcast { thread: n, name: name.copy(), args });
                        proof {
                            let r = wake_all(s0, l@.take(j as int), *name, args);
                            assert(self.queue@ =~= q0 + r.1.push(Wakeup::Broadcast { thread: bumped(t), name: *name, args }));
                        }
                    }
                    j += 1;
                }
                proof {
                    assert(l@.take(l@.len() as int) == l@);
                }
            },
        }
    }

    /// Wakes the thread in `slot` directly, handing it the arguments `args`.
    pub fn notify(&mut self, slot: u32, args: Option<u64>)
        requires
            slot < old(self).slots().len() && old(self).slots()[slot as int].1,
        ensures
            final(self).slots() == old(self).slots().update(
                slot as int,
                (next_gen(old(self).slots()[slot as int].0), true),
            ),
            final(self).queue() == old(self).queue().push(
                Wakeup::Notify {
                    thread: ThreadIndex { slot, generation: next_gen(old(self).slots()[slot as int].0) },
                    args,
                },
            ),
            final(self).waits() == old(self).waits(),
            final(self).now() == old(self).now(),
    {
        let i = match self.current(slot) {
            Some(i) => i,
            None => {
                proof {
                    assert(false);
                }
                return;
            },
        };
        let t = ThreadIndex { slot: slot_of(i), generation: generation_of(i) };
        let n = self.invalidate(t);
        self.queue.push(Wakeup::Notify { thread: n, args });
    }

    /// Drops the thread of `t` from the arena, if `t` is valid.
    pub fn remove(&mut self, t: ThreadIndex)
        ensures
            old(self).valid(t) ==> final(self).slots() == old(self).slots().update(
                t.slot as int,
                (t.generation, false),
            ),
            !old(self).valid(t) ==> final(self).slots() == old(self).slots(),
            final(self).queue() == old(self).queue(),
            final(self).waits() == old(self).waits(),
            final(self).now() == old(self).now(),
    {
        match self.handle(t) {
            Some(i) => {
                let _key = arena_remove(&mut self.threads, i);
            },
            None => {},
        }
    }
}

/// `a` outranks `b`.
fn outranks_exec(a: &Wakeup, b: &Wakeup) -> (r: bool)
    ensures
        r == outranks(*a, *b),
{
    if matches!(a, Wakeup::Notify { .. }) {
        return true;
    }
    if matches!(b, Wakeup::Notify { .. }) {
        return false;
    }
    let da = a.scheduled_for();
    let db = b.scheduled_for();
    let ta = a.thread();
    let tb = b.thread();
    da < db || (da == db && (tb.slot < ta.slot || (tb.slot == ta.slot && tb.generation <= ta.generation)))
}

impl Wakeup {
    /// The tick at which the wakeup is due: that of a timed one, else 0.
    pub fn scheduled_for(&self) -> (r: u64)
        ensures
            r == due(*self),
    {
        match self {
            Wakeup::Notify { .. } | Wakeup::Broadcast { .. } => 0,
            Wakeup::Timed { scheduled_for, .. } => *scheduled_for,
        }
    }

    /// The thread that the wakeup wakes.
    pub fn thread(&self) -> (r: ThreadIndex)
        ensures
            r == woken(*self),
    {
        match self {
            Wakeup::Notify { thread, .. } => *thread,
            Wakeup::Broadcast { thread, .. } => *thread,
            Wakeup::Timed { thread, .. } => *thread,
        }
    }
}

} // verus!
