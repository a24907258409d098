use rtic_kernel::kernel::Kernel;
use rtic_kernel::kernel::TaskDesc;
use rtic_kernel::resource::Resource;
use rtic_kernel::time::Duration;
use rtic_kernel::time::Instant;

// A deterministic pseudo-random stream driving the scheduler through many
// interleavings of spawns, deferred spawns, dispatches, timer service and
// ceiling sections.
struct Lcg(u64);

impl Lcg {
    fn next(&mut self) -> u64 {
        self.0 = self.0.wrapping_mul(6364136223846793005).wrapping_add(1442695040888963407);
        self.0 >> 33
    }
}

#[test]
fn ceiling_exclusion_holds_under_random_schedules() {
    // Tasks at priorities 1 and 3 share a resource with ceiling 3.  Under
    // every generated schedule: while the mask holds the ceiling, no level
    // at or below 3 is ever eligible and no priority at or below 3 may
    // preempt — so no task that accesses the resource can run during a
    // critical section.
    let mut rng = Lcg(0x5eed);
    for round in 0..50u64 {
        rng.0 ^= round;
        let mut tasks: Vec<TaskDesc> = Vec::new();
        tasks.push(TaskDesc::new(1, 3));
        tasks.push(TaskDesc::new(3, 2));
        let mut k: Kernel<u32> = Kernel::new(tasks, 4);
        let mut shared: Resource<u32> = Resource::new(3, 0);
        k.start_clock(Instant::new(0));
        let mut now: u64 = 0;
        let mut payload: u32 = 0;
        for _ in 0..200 {
            match rng.next() % 6 {
                0 => {
                    payload += 1;
                    let _ = k.spawn((rng.next() % 2) as usize, payload);
                }
                1 => {
                    payload += 1;
                    let _ = k.spawn_after(
                        (rng.next() % 2) as usize,
                        Duration::from_ticks(rng.next() % 40),
                        payload,
                    );
                }
                2 => {
                    if let Some(level) = k.next_eligible() {
                        let _ = k.dispatch_one(level);
                    }
                }
                3 => {
                    now += rng.next() % 25;
                    k.advance_to(Instant::new(now));
                }
                4 => {
                    if let Some(level) = k.next_eligible() {
                        let _ = k.drain(level);
                    }
                }
                _ => {
                    // A critical section on the shared resource, entered
                    // from the idle level: the ceiling must block exactly
                    // priorities 1..=3 for its whole duration.
                    let g = k.lock(shared.ceiling_value());
                    let seen = *shared.borrow(k.current_mask());
                    shared.replace(k.current_mask(), seen + 1);
                    assert!(!k.can_preempt(1));
                    assert!(!k.can_preempt(2));
                    assert!(!k.can_preempt(3));
                    assert!(k.can_preempt(4));
                    // Spawns may arrive during the section; they must not
                    // become eligible while the mask holds the ceiling.
                    payload += 1;
                    let _ = k.spawn(1, payload);
                    assert_eq!(k.next_eligible(), None);
                    assert_eq!(*shared.borrow(k.current_mask()), seen + 1);
                    k.unlock(g);
                }
            }
            if let Some(level) = k.next_eligible() {
                // Whatever the history, only unmasked levels are offered.
                assert!(k.can_preempt(level as u8));
            }
        }
    }
}
