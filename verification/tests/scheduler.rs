use dirgrep::error::GrepError;
use dirgrep::scheduler::{concurrency_cap, Action, Scheduler};

fn names(list: &[&str]) -> Vec<String> {
    list.iter().map(|name| name.to_string()).collect()
}

fn dispatch(ticket: usize, candidate: &str) -> Action<String> {
    Action::Dispatch { ticket, candidate: candidate.to_string() }
}

#[test]
fn a_cap_of_zero_is_refused() {
    let made = Scheduler::<String, u32>::new(names(&["a", "b"]), 0);
    assert!(matches!(made, Err(GrepError::Configuration)));
    let empty = Scheduler::<String, u32>::new(Vec::new(), 0);
    assert!(matches!(empty, Err(GrepError::Configuration)));
}

#[test]
fn the_cap_is_taken_from_the_number_of_threads() {
    assert_eq!(concurrency_cap(0), Err(GrepError::Configuration));
    assert_eq!(concurrency_cap(1), Ok(1));
    assert_eq!(concurrency_cap(4), Ok(4));
    assert_eq!(concurrency_cap(u32::MAX), Ok(u32::MAX as usize));
}

#[test]
fn a_run_without_candidates_is_finished_at_once() {
    let mut scheduler = Scheduler::<String, u32>::new(Vec::new(), 3).unwrap();
    assert!(scheduler.is_finished());
    assert_eq!(scheduler.next_action(), Action::Finished);
    assert_eq!(scheduler.into_outcomes(), Vec::<u32>::new());
}

#[test]
fn candidates_are_handed_out_in_order_up_to_the_cap() {
    let mut scheduler = Scheduler::<String, u32>::new(names(&["a", "b", "c"]), 2).unwrap();
    assert_eq!(scheduler.cap(), 2);
    assert_eq!(scheduler.in_flight(), 0);
    assert_eq!(scheduler.next_action(), dispatch(0, "a"));
    assert_eq!(scheduler.in_flight(), 1);
    assert_eq!(scheduler.next_action(), dispatch(1, "b"));
    assert_eq!(scheduler.in_flight(), 2);
    assert_eq!(scheduler.next_action(), Action::Wait);
    assert_eq!(scheduler.next_action(), Action::Wait);
    assert_eq!(scheduler.in_flight(), 2);
    assert!(!scheduler.is_finished());
}

#[test]
fn a_freed_slot_is_taken_by_the_next_candidate() {
    let mut scheduler = Scheduler::<String, u32>::new(names(&["a", "b", "c", "d"]), 2).unwrap();
    assert_eq!(scheduler.next_action(), dispatch(0, "a"));
    assert_eq!(scheduler.next_action(), dispatch(1, "b"));
    assert_eq!(scheduler.next_action(), Action::Wait);
    assert!(scheduler.complete(1, 11));
    assert_eq!(scheduler.in_flight(), 1);
    assert_eq!(scheduler.next_action(), dispatch(2, "c"));
    assert_eq!(scheduler.next_action(), Action::Wait);
    assert!(scheduler.complete(0, 10));
    assert_eq!(scheduler.next_action(), dispatch(3, "d"));
    assert_eq!(scheduler.next_action(), Action::Wait);
    assert!(scheduler.complete(3, 13));
    assert_eq!(scheduler.next_action(), Action::Wait);
    assert!(scheduler.complete(2, 12));
    assert_eq!(scheduler.next_action(), Action::Finished);
    assert!(scheduler.is_finished());
    assert_eq!(scheduler.into_outcomes(), vec![11, 10, 13, 12]);
}

#[test]
fn the_number_in_flight_never_passes_the_cap() {
    for cap in 1..6usize {
        let candidates: Vec<usize> = (0..17).collect();
        let mut scheduler = Scheduler::<usize, usize>::new(candidates, cap).unwrap();
        let mut running: Vec<usize> = Vec::new();
        let mut round = 0usize;
        loop {
            assert!(scheduler.in_flight() <= cap);
            match scheduler.next_action() {
                Action::Dispatch { ticket, candidate } => {
                    assert_eq!(ticket, candidate);
                    running.push(ticket);
                }
                Action::Wait => {
                    round += 1;
                    let ticket = running.remove((round * 7) % running.len());
                    assert!(scheduler.complete(ticket, ticket * 2));
                }
                Action::Finished => break,
            }
            assert!(scheduler.in_flight() <= cap);
            assert_eq!(scheduler.in_flight(), running.len());
        }
        let mut outcomes = scheduler.into_outcomes();
        outcomes.sort();
        let expected: Vec<usize> = (0..17).map(|ticket| ticket * 2).collect();
        assert_eq!(outcomes, expected);
    }
}

#[test]
fn a_cap_above_the_number_of_candidates_starts_them_all() {
    let mut scheduler = Scheduler::<String, u32>::new(names(&["a", "b"]), 8).unwrap();
    assert_eq!(scheduler.next_action(), dispatch(0, "a"));
    assert_eq!(scheduler.next_action(), dispatch(1, "b"));
    assert_eq!(scheduler.next_action(), Action::Wait);
    assert_eq!(scheduler.in_flight(), 2);
}

#[test]
fn a_cap_of_one_runs_the_candidates_one_at_a_time() {
    let mut scheduler = Scheduler::<String, u32>::new(names(&["a", "b"]), 1).unwrap();
    assert_eq!(scheduler.next_action(), dispatch(0, "a"));
    assert_eq!(scheduler.next_action(), Action::Wait);
    assert!(scheduler.complete(0, 1));
    assert_eq!(scheduler.next_action(), dispatch(1, "b"));
    assert_eq!(scheduler.next_action(), Action::Wait);
    assert!(scheduler.complete(1, 2));
    assert_eq!(scheduler.next_action(), Action::Finished);
    assert_eq!(scheduler.into_outcomes(), vec![1, 2]);
}

#[test]
fn a_report_for_a_ticket_that_is_not_in_flight_is_refused() {
    let mut scheduler = Scheduler::<String, u32>::new(names(&["a", "b", "c"]), 2).unwrap();
    assert!(!scheduler.complete(0, 1));
    assert_eq!(scheduler.next_action(), dispatch(0, "a"));
    assert!(!scheduler.complete(1, 1));
    assert!(!scheduler.complete(7, 1));
    assert!(scheduler.complete(0, 5));
    assert!(!scheduler.complete(0, 6));
    assert_eq!(scheduler.in_flight(), 0);
    assert_eq!(scheduler.into_outcomes(), vec![5]);
}

#[test]
fn outcomes_are_kept_in_the_order_of_the_reports() {
    let mut scheduler = Scheduler::<String, String>::new(names(&["a", "b", "c"]), 3).unwrap();
    assert_eq!(scheduler.next_action(), dispatch(0, "a"));
    assert_eq!(scheduler.next_action(), dispatch(1, "b"));
    assert_eq!(scheduler.next_action(), dispatch(2, "c"));
    assert!(scheduler.complete(2, "third".to_string()));
    assert!(scheduler.complete(0, "first".to_string()));
    assert!(scheduler.complete(1, "second".to_string()));
    assert_eq!(scheduler.next_action(), Action::Finished);
    assert_eq!(scheduler.into_outcomes(), names(&["third", "first", "second"]));
}

#[test]
fn outcomes_can_be_had_in_candidate_order() {
    let mut scheduler = Scheduler::<String, String>::new(names(&["a", "b", "c"]), 3).unwrap();
    assert_eq!(scheduler.next_action(), dispatch(0, "a"));
    assert_eq!(scheduler.next_action(), dispatch(1, "b"));
    assert_eq!(scheduler.next_action(), dispatch(2, "c"));
    assert!(scheduler.complete(2, "third".to_string()));
    assert!(scheduler.complete(0, "first".to_string()));
    assert!(scheduler.complete(1, "second".to_string()));
    assert_eq!(
        scheduler.into_outcomes_by_candidate(),
        Some(names(&["first", "second", "third"]))
    );
}

#[test]
fn candidate_order_is_not_had_before_the_run_is_finished() {
    let mut scheduler = Scheduler::<String, u32>::new(names(&["a", "b"]), 1).unwrap();
    assert_eq!(scheduler.next_action(), dispatch(0, "a"));
    assert!(scheduler.complete(0, 1));
    assert_eq!(scheduler.into_outcomes_by_candidate(), None);
    let mut waiting = Scheduler::<String, u32>::new(names(&["a"]), 1).unwrap();
    assert_eq!(waiting.next_action(), dispatch(0, "a"));
    assert_eq!(waiting.into_outcomes_by_candidate(), None);
    let empty = Scheduler::<String, u32>::new(Vec::new(), 1).unwrap();
    assert_eq!(empty.into_outcomes_by_candidate(), Some(Vec::new()));
}
