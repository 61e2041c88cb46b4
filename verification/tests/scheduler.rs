use rlua::{Lua, RegistryKey};
use sludge::scheduler::{EventName, ResumeAction, Resumed, Scheduler, ThreadIndex, Wakeup, YieldValue};

fn idx(slot: u32, generation: u32) -> ThreadIndex {
    ThreadIndex { slot, generation }
}

/// A registry key holding `n`, made in `lua`.
fn key(lua: &Lua, n: i64) -> RegistryKey {
    lua.context(|ctx| ctx.create_registry_value(n).unwrap())
}

/// The number that the registry key `k` holds.
fn value(lua: &Lua, k: &RegistryKey) -> i64 {
    lua.context(|ctx| ctx.registry_value::<i64>(k).unwrap())
}

#[test]
fn scheduler_spawned_threads_run_at_tick_zero() {
    let lua = Lua::new();
    let mut s = Scheduler::new();
    assert!(s.is_idle());
    let a = s.spawn(key(&lua, 10));
    let b = s.spawn(key(&lua, 20));
    assert_eq!(a, idx(0, 1));
    assert_eq!(b, idx(1, 1));
    assert!(!s.is_idle());
    // At equal times the greater handle goes first.
    let w = s.pop_due().unwrap();
    assert_eq!(w.thread(), b);
    assert_eq!(w.scheduled_for(), 0);
    let w = s.pop_due().unwrap();
    assert_eq!(w.thread(), a);
    assert!(s.pop_due().is_none());
    assert_eq!(value(&lua, s.thread(a).unwrap()), 10);
}

#[test]
fn scheduler_integer_yield_sleeps_at_least_one_tick() {
    let lua = Lua::new();
    let mut s = Scheduler::new();
    let a = s.spawn(key(&lua, 1));
    let w = s.pop_due().unwrap();
    s.handle_yield(&w, &vec![YieldValue::Integer(0)]);
    // The old handle is stale now.
    assert!(!s.is_valid(a));
    assert!(s.thread(a).is_none());
    let a2 = idx(0, 2);
    assert!(s.is_valid(a2));
    assert!(s.pop_due().is_none());
    assert!(s.is_idle());
    s.advance();
    assert_eq!(s.tick(), 1);
    let w = s.pop_due().unwrap();
    assert_eq!(w.thread(), a2);
    assert_eq!(w.scheduled_for(), 1);
    s.handle_yield(&w, &vec![YieldValue::Integer(5)]);
    for _ in 0..5 {
        assert!(s.pop_due().is_none());
        s.advance();
    }
    assert_eq!(s.pop_due().unwrap().scheduled_for(), 6);
}

#[test]
fn scheduler_broadcast_wakes_waiting_threads_once() {
    let lua = Lua::new();
    let mut s = Scheduler::new();
    s.spawn(key(&lua, 1));
    let w = s.pop_due().unwrap();
    // Waits for "go" twice and sleeps three ticks.
    s.handle_yield(
        &w,
        &vec![
            YieldValue::Text("go".to_string()),
            YieldValue::Text("go".to_string()),
            YieldValue::Integer(3),
            YieldValue::Other,
        ],
    );
    s.broadcast(&EventName("stop".to_string()), None);
    assert!(s.pop_due().is_none());
    s.broadcast(&EventName("go".to_string()), Some(7));
    let w = s.pop_due().unwrap();
    match &w {
        Wakeup::Broadcast { thread, name, args } => {
            assert_eq!(*thread, idx(0, 3));
            assert_eq!(name.0, "go");
            assert_eq!(*args, Some(7));
        }
        _ => panic!("expected a broadcast wakeup"),
    }
    // The timer of the stale handle still fires, but names no thread.
    s.broadcast(&EventName("go".to_string()), None);
    assert!(s.pop_due().is_none());
    for _ in 0..3 {
        s.advance();
    }
    let w = s.pop_due().unwrap();
    assert_eq!(w.thread(), idx(0, 2));
    assert!(s.thread(w.thread()).is_none());
}

#[test]
fn scheduler_notify_outranks_timers() {
    let lua = Lua::new();
    let mut s = Scheduler::new();
    s.spawn(key(&lua, 1));
    s.spawn(key(&lua, 2));
    assert!(s.has_slot(0));
    assert!(!s.has_slot(2));
    s.notify(0, Some(4));
    let w = s.pop_due().unwrap();
    match w {
        Wakeup::Notify { thread, args } => {
            assert_eq!(thread, idx(0, 2));
            assert_eq!(args, Some(4));
        }
        _ => panic!("expected a notify wakeup"),
    }
}

#[test]
fn scheduler_removed_slot_is_reused_with_a_new_generation() {
    let lua = Lua::new();
    let mut s = Scheduler::new();
    let a = s.spawn(key(&lua, 1));
    s.spawn(key(&lua, 2));
    s.remove(a);
    assert!(!s.has_slot(0));
    let c = s.spawn(key(&lua, 3));
    assert_eq!(c, idx(0, 2));
    assert_eq!(value(&lua, s.thread(c).unwrap()), 3);
    assert!(s.thread(a).is_none());
}

#[test]
fn scheduler_resume_outcomes_decide_what_follows() {
    let lua = Lua::new();
    let mut s = Scheduler::new();
    let a = s.spawn(key(&lua, 1));
    let b = s.spawn(key(&lua, 2));
    let w = s.pop_due().unwrap();
    assert_eq!(w.thread(), b);
    assert_eq!(s.on_resumed(&w, &Resumed::Yielded(vec![YieldValue::Integer(2)])), ResumeAction::Keep);
    assert!(s.is_valid(idx(1, 2)));
    let w = s.pop_due().unwrap();
    assert_eq!(w.thread(), a);
    assert_eq!(s.on_resumed(&w, &Resumed::Failed), ResumeAction::ClearSlotAndReport);
    assert!(!s.has_slot(0));
    s.advance();
    s.advance();
    let w = s.pop_due().unwrap();
    assert_eq!(w.thread(), idx(1, 2));
    assert_eq!(s.on_resumed(&w, &Resumed::Finished), ResumeAction::ClearSlot);
    assert!(s.is_valid(idx(1, 2)));
}
