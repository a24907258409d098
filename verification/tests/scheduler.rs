use rtic_kernel::kernel::Kernel;
use rtic_kernel::kernel::TaskDesc;
use rtic_kernel::kernel::compute_ceiling;
use rtic_kernel::resource::Resource;
use rtic_kernel::time::Duration;
use rtic_kernel::time::Instant;

fn one_task(priority: u8, capacity: usize, levels: u8) -> Kernel<u32> {
    let mut tasks: Vec<TaskDesc> = Vec::new();
    tasks.push(TaskDesc::new(priority, capacity));
    Kernel::new(tasks, levels)
}

#[test]
fn capacity_four_then_fifth_fails_then_recovers() {
    // Capacity-4 free queue: four spawns succeed, the fifth fails returning
    // its payload unchanged; draining one entry makes room for one more.
    let mut k = one_task(1, 4, 1);
    assert_eq!(k.spawn(0, 1), Ok(()));
    assert_eq!(k.spawn(0, 2), Ok(()));
    assert_eq!(k.spawn(0, 3), Ok(()));
    assert_eq!(k.spawn(0, 4), Ok(()));
    assert_eq!(k.spawn(0, 5), Err(5));
    assert_eq!(k.dispatch_one(1), Some((0, 1)));
    assert_eq!(k.spawn(0, 5), Ok(()));
    let rest = k.drain(1);
    assert_eq!(rest, vec![(0, 2), (0, 3), (0, 4), (0, 5)]);
}

#[test]
fn full_drain_restores_full_capacity() {
    let mut k = one_task(2, 3, 2);
    for p in 0..3u32 {
        assert_eq!(k.spawn(0, p), Ok(()));
    }
    assert_eq!(k.spawn(0, 99), Err(99));
    let ran = k.drain(2);
    assert_eq!(ran.len(), 3);
    for p in 10..13u32 {
        assert_eq!(k.spawn(0, p), Ok(()));
    }
    assert_eq!(k.drain(2), vec![(0, 10), (0, 11), (0, 12)]);
}

#[test]
fn same_level_tasks_run_in_spawn_order() {
    // Two tasks sharing priority level 2: the dispatcher runs their
    // activations in exactly the order they were spawned.
    let mut tasks: Vec<TaskDesc> = Vec::new();
    tasks.push(TaskDesc::new(2, 2));
    tasks.push(TaskDesc::new(2, 2));
    let mut k: Kernel<u32> = Kernel::new(tasks, 2);
    assert_eq!(k.spawn(0, 10), Ok(()));
    assert_eq!(k.spawn(1, 20), Ok(()));
    assert_eq!(k.spawn(0, 30), Ok(()));
    assert_eq!(k.drain(2), vec![(0, 10), (1, 20), (0, 30)]);
}

#[test]
fn higher_priority_spawn_is_eligible_at_once() {
    // A spawn at a strictly higher level preempts: the scheduler picks the
    // high level next, and the low level resumes afterwards.
    let mut tasks: Vec<TaskDesc> = Vec::new();
    tasks.push(TaskDesc::new(1, 1));
    tasks.push(TaskDesc::new(3, 1));
    let mut k: Kernel<u32> = Kernel::new(tasks, 3);
    assert_eq!(k.next_eligible(), None);
    assert_eq!(k.spawn(0, 7), Ok(()));
    assert_eq!(k.next_eligible(), Some(1));
    assert_eq!(k.spawn(1, 8), Ok(()));
    assert_eq!(k.next_eligible(), Some(3));
    assert_eq!(k.drain(3), vec![(1, 8)]);
    assert_eq!(k.next_eligible(), Some(1));
    assert_eq!(k.drain(1), vec![(0, 7)]);
}

#[test]
fn masked_levels_are_not_eligible() {
    let mut tasks: Vec<TaskDesc> = Vec::new();
    tasks.push(TaskDesc::new(1, 1));
    tasks.push(TaskDesc::new(3, 1));
    let mut k: Kernel<u32> = Kernel::new(tasks, 3);
    assert_eq!(k.spawn(0, 7), Ok(()));
    let g = k.lock(2);
    assert_eq!(k.next_eligible(), None);
    assert_eq!(k.spawn(1, 8), Ok(()));
    assert_eq!(k.next_eligible(), Some(3));
    k.unlock(g);
    assert_eq!(k.next_eligible(), Some(3));
}

#[test]
fn ceiling_blocks_exactly_priorities_at_or_below() {
    // Two tasks at priorities 1 and 3 share a resource: its ceiling is 3.
    // While the priority-1 task holds the lock, a priority-2 hardware
    // interrupt must not run, nor the priority-3 task; priority 4 still
    // preempts.  Release unblocks them.
    let mut accessors: Vec<u8> = Vec::new();
    accessors.push(1);
    accessors.push(3);
    let ceiling = compute_ceiling(&accessors);
    assert_eq!(ceiling, 3);
    let mut tasks: Vec<TaskDesc> = Vec::new();
    tasks.push(TaskDesc::new(1, 1));
    tasks.push(TaskDesc::new(3, 1));
    let mut k: Kernel<u32> = Kernel::new(tasks, 4);
    let g = k.lock(ceiling);
    assert!(!k.can_preempt(1));
    assert!(!k.can_preempt(2));
    assert!(!k.can_preempt(3));
    assert!(k.can_preempt(4));
    assert_eq!(k.spawn(1, 5), Ok(()));
    assert_eq!(k.next_eligible(), None);
    k.unlock(g);
    assert!(k.can_preempt(2));
    assert!(k.can_preempt(3));
    assert_eq!(k.next_eligible(), Some(3));
}

#[test]
fn resource_access_under_its_ceiling() {
    // A resource shared by tasks at priorities 1 and 3: its ceiling is 3,
    // and every access happens with the mask at that ceiling, so nothing
    // at priority 3 or below can interleave with it.
    let mut accessors: Vec<u8> = Vec::new();
    accessors.push(1);
    accessors.push(3);
    let mut shared: Resource<u32> = Resource::new(compute_ceiling(&accessors), 0);
    assert_eq!(shared.ceiling_value(), 3);
    let mut k = one_task(1, 1, 4);
    let g = k.lock(shared.ceiling_value());
    let before = shared.replace(k.current_mask(), 17);
    assert_eq!(before, 0);
    assert_eq!(*shared.borrow(k.current_mask()), 17);
    assert!(!k.can_preempt(3));
    k.unlock(g);
    assert!(k.can_preempt(1));
}

#[test]
fn nested_ceiling_sections_restore_in_order() {
    let mut k = one_task(1, 1, 4);
    let outer = k.lock(2);
    assert!(!k.can_preempt(2));
    let inner = k.lock(4);
    assert!(!k.can_preempt(4));
    k.unlock(inner);
    assert!(k.can_preempt(3));
    assert!(!k.can_preempt(2));
    k.unlock(outer);
    assert!(k.can_preempt(1));
}

#[test]
fn lock_below_current_mask_is_a_no_op_extension() {
    let mut k = one_task(1, 1, 4);
    let outer = k.lock(3);
    let inner = k.lock(2);
    assert!(!k.can_preempt(3));
    k.unlock(inner);
    assert!(!k.can_preempt(3));
    k.unlock(outer);
    assert!(k.can_preempt(1));
}

#[test]
fn cancel_before_instant_returns_payload_and_frees_slot() {
    let mut k = one_task(1, 1, 1);
    k.start_clock(Instant::new(0));
    let h = k.spawn_at(0, Instant::new(100), 7).unwrap();
    assert_eq!(k.cancel(h), Ok(7));
    // The slot is free again: the capacity-1 task accepts a new spawn.
    assert_eq!(k.spawn(0, 8), Ok(()));
    assert_eq!(k.drain(1), vec![(0, 8)]);
}

#[test]
fn cancel_after_firing_reports_not_found() {
    let mut k = one_task(1, 1, 1);
    k.start_clock(Instant::new(0));
    let h = k.spawn_at(0, Instant::new(50), 9).unwrap();
    k.advance_to(Instant::new(60));
    assert_eq!(k.cancel(h), Err(()));
    // The activation fired into the ready queue and still carries its
    // payload.
    assert_eq!(k.drain(1), vec![(0, 9)]);
}

#[test]
fn deferred_spawn_fails_on_capacity_with_payload_back() {
    let mut k = one_task(1, 1, 1);
    let _h = k.spawn_at(0, Instant::new(10), 1).unwrap();
    match k.spawn_at(0, Instant::new(20), 2) {
        Err(payload) => assert_eq!(payload, 2),
        Ok(_) => panic!("deferred spawn must fail once capacity is pending"),
    }
}

#[test]
fn reschedule_moves_activation_and_rearms_compare() {
    let mut tasks: Vec<TaskDesc> = Vec::new();
    tasks.push(TaskDesc::new(1, 2));
    let mut k: Kernel<u32> = Kernel::new(tasks, 1);
    k.start_clock(Instant::new(0));
    let ha = k.spawn_at(0, Instant::new(100), 11).unwrap();
    let _hb = k.spawn_at(0, Instant::new(50), 22).unwrap();
    assert_eq!(k.next_compare(), Some(Instant::new(50)));
    // Moving the first activation to 10 makes it the next to fire, at once.
    let ha2 = k.reschedule_at(ha, Instant::new(10)).unwrap();
    assert_eq!(k.next_compare(), Some(Instant::new(10)));
    k.advance_to(Instant::new(20));
    // Only the moved activation fired, payload preserved.
    assert_eq!(k.drain(1), vec![(0, 11)]);
    assert_eq!(k.next_compare(), Some(Instant::new(50)));
    // Its handle was consumed by the firing: a reschedule now fails.
    assert!(k.reschedule_at(ha2, Instant::new(200)).is_err());
}

#[test]
fn reschedule_keeps_slot_and_payload() {
    let mut k = one_task(1, 1, 1);
    k.start_clock(Instant::new(0));
    let h = k.spawn_at(0, Instant::new(100), 9).unwrap();
    let h2 = k.reschedule_at(h, Instant::new(200)).unwrap();
    // The slot is still held by the pending activation.
    assert_eq!(k.spawn(0, 1), Err(1));
    // And the payload rode along to the new instant.
    assert_eq!(k.cancel(h2), Ok(9));
}

#[test]
fn reschedule_after_measures_from_now() {
    let mut k = one_task(1, 1, 1);
    k.start_clock(Instant::new(40));
    let h = k.spawn_at(0, Instant::new(100), 3).unwrap();
    let _h2 = k.reschedule_after(h, Duration::from_ticks(5)).unwrap();
    assert_eq!(k.next_compare(), Some(Instant::new(45)));
}

#[test]
fn equal_instants_fire_in_schedule_order() {
    let mut tasks: Vec<TaskDesc> = Vec::new();
    tasks.push(TaskDesc::new(1, 3));
    let mut k: Kernel<u32> = Kernel::new(tasks, 1);
    k.start_clock(Instant::new(0));
    let _h1 = k.spawn_at(0, Instant::new(50), 1).unwrap();
    let _h2 = k.spawn_at(0, Instant::new(50), 2).unwrap();
    let _h3 = k.spawn_at(0, Instant::new(50), 3).unwrap();
    k.advance_to(Instant::new(50));
    assert_eq!(k.drain(1), vec![(0, 1), (0, 2), (0, 3)]);
}

#[test]
fn timer_service_moves_only_due_entries() {
    let mut tasks: Vec<TaskDesc> = Vec::new();
    tasks.push(TaskDesc::new(1, 3));
    let mut k: Kernel<u32> = Kernel::new(tasks, 1);
    k.start_clock(Instant::new(0));
    let _h1 = k.spawn_at(0, Instant::new(10), 1).unwrap();
    let _h2 = k.spawn_at(0, Instant::new(30), 2).unwrap();
    let _h3 = k.spawn_at(0, Instant::new(20), 3).unwrap();
    k.advance_to(Instant::new(20));
    assert_eq!(k.drain(1), vec![(0, 1), (0, 3)]);
    assert_eq!(k.next_compare(), Some(Instant::new(30)));
    k.advance_to(Instant::new(30));
    assert_eq!(k.drain(1), vec![(0, 2)]);
    assert_eq!(k.next_compare(), None);
}

#[test]
fn spawn_after_uses_zero_baseline_before_clock_start() {
    // A deferred spawn made before the clock is handed over measures from
    // the counter's zero point.
    let mut k = one_task(1, 1, 1);
    let _h = k.spawn_after(0, Duration::from_ticks(30), 4).unwrap();
    assert_eq!(k.next_compare(), Some(Instant::new(30)));
    k.start_clock(Instant::new(0));
    k.advance_to(Instant::new(30));
    assert_eq!(k.drain(1), vec![(0, 4)]);
}

#[test]
fn spawn_after_measures_from_now_once_started() {
    let mut k = one_task(1, 1, 1);
    k.start_clock(Instant::new(100));
    let _h = k.spawn_after(0, Duration::from_ticks(30), 4).unwrap();
    assert_eq!(k.next_compare(), Some(Instant::new(130)));
}

#[test]
fn dispatch_on_empty_level_returns_none() {
    let mut k = one_task(1, 1, 2);
    assert_eq!(k.dispatch_one(2), None);
    assert_eq!(k.drain(1), vec![]);
}

#[test]
fn clock_reads_back_its_start_and_advances() {
    let mut k = one_task(1, 1, 1);
    k.start_clock(Instant::new(42));
    assert_eq!(k.now().ticks, 42);
    k.advance_to(Instant::new(50));
    assert_eq!(k.now().ticks, 50);
}

#[test]
fn compute_ceiling_is_the_maximum_accessor_priority() {
    let empty: Vec<u8> = Vec::new();
    assert_eq!(compute_ceiling(&empty), 0);
    let mut accessors: Vec<u8> = Vec::new();
    accessors.push(1);
    accessors.push(3);
    accessors.push(2);
    assert_eq!(compute_ceiling(&accessors), 3);
}
