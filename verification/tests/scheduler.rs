use teamy_bend::machine::{RootVisitor, ARENA_LIMIT};
use teamy_bend::scheduler::State;

#[test]
fn overdue_timers_follow_registration_order_not_deadline_order() {
    let mut scheduler = State::new();
    for id in 1..=3 {
        scheduler.spawn(id).unwrap();
    }
    assert_eq!(scheduler.next(), Some(1));
    scheduler.sleep(30, 4).unwrap();
    assert_eq!(scheduler.next(), Some(2));
    scheduler.sleep(10, 5).unwrap();
    assert_eq!(scheduler.next(), Some(3));
    scheduler.complete().unwrap();
    assert_eq!(scheduler.next_deadline(), Some(10));
    scheduler.wake(30);
    assert_eq!(scheduler.next(), Some(4));
    assert_eq!(scheduler.next(), Some(5));
    scheduler.complete().unwrap();
    scheduler.complete().unwrap();
    assert!(scheduler.finished());
}

struct Collect(Vec<usize>);

impl RootVisitor for Collect {
    fn visit(&mut self, id: usize) -> Result<(), String> {
        self.0.push(id);
        Ok(())
    }
}

struct Cancel;

impl RootVisitor for Cancel {
    fn visit(&mut self, _id: usize) -> Result<(), String> {
        Err("cancelled".to_owned())
    }
}

#[test]
fn live_queue_and_timer_roots_are_visited_and_errors_propagate() {
    let mut scheduler = State::new();
    scheduler.spawn(3).unwrap();
    scheduler.spawn(4).unwrap();
    assert_eq!(scheduler.next(), Some(3));
    scheduler.sleep(100, 5).unwrap();
    let mut roots = Collect(Vec::new());
    scheduler.visit_roots(&mut roots).unwrap();
    assert_eq!(roots.0, vec![4, 5]);
    assert!(scheduler.visit_roots(&mut Cancel).is_err());
}

#[test]
fn task_limit_is_reusable_after_completion() {
    let mut scheduler = State::new();
    scheduler.live = ARENA_LIMIT;
    assert!(scheduler.spawn(1).is_err());
    scheduler.complete().unwrap();
    scheduler.spawn(1).unwrap();
    assert_eq!(scheduler.next(), Some(1));
}

#[test]
fn timers_due_later_stay_parked_and_wake_before_respects_the_registration_bound() {
    let mut scheduler = State::new();
    scheduler.spawn(1).unwrap();
    scheduler.spawn(2).unwrap();
    scheduler.spawn(3).unwrap();
    scheduler.next();
    scheduler.next();
    scheduler.next();
    scheduler.sleep(5, 10).unwrap();
    scheduler.sleep(50, 11).unwrap();
    scheduler.sleep(5, 12).unwrap();
    assert!(!scheduler.has_ready());
    scheduler.wake_before(10, 2);
    assert_eq!(scheduler.roots(), vec![10, 11, 12]);
    scheduler.wake(10);
    assert_eq!(scheduler.roots(), vec![10, 12, 11]);
    assert_eq!(scheduler.next_deadline(), Some(50));
    assert_eq!(scheduler.next(), Some(10));
    assert_eq!(scheduler.next(), Some(12));
    assert_eq!(scheduler.next(), None);
}

#[test]
fn errors_for_counts_that_do_not_add_up() {
    let mut scheduler = State::new();
    assert!(scheduler.complete().is_err());
    assert!(scheduler.resume(7).is_err());
    assert!(scheduler.sleep(1, 7).is_err());
    scheduler.spawn(7).unwrap();
    assert!(scheduler.resume(8).is_err());
    assert_eq!(scheduler.next(), Some(7));
    scheduler.resume(8).unwrap();
    assert_eq!(scheduler.next(), Some(8));
    scheduler.next_wait = u64::MAX;
    assert!(scheduler.reserve_wait().is_err());
    assert!(scheduler.sleep(1, 9).is_err());
    assert_eq!(scheduler.next_deadline(), None);
}

#[test]
fn ready_tasks_run_first_in_first_out() {
    let mut scheduler = State::new();
    scheduler.spawn(10).unwrap();
    scheduler.spawn(20).unwrap();
    assert_eq!(scheduler.next(), Some(10));
    scheduler.resume(30).unwrap();
    assert_eq!(scheduler.next(), Some(20));
    assert_eq!(scheduler.next(), Some(30));
    assert_eq!(scheduler.next(), None);
}
