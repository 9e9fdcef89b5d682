use std::sync::Arc;

use rs_mitm::pool::{
    ExitReply, ManagerAction, Negotiation, Pool, PoolEvent, PoolManagerMessage, PoolRequest,
    PoolWorkerManager,
};

#[derive(Debug, PartialEq)]
struct Fetch(u32);

impl PoolRequest for Fetch {}

const EMPTY: ManagerAction = ManagerAction::Emit { event: PoolEvent::PoolEmpty };
const EXITING: ManagerAction = ManagerAction::Emit { event: PoolEvent::Exiting };

fn pool_of(max_workers: usize, workers: &[usize]) -> PoolWorkerManager<&'static str> {
    let mut manager = PoolWorkerManager::new(max_workers);
    for &key in workers {
        manager.worker_ready(key, Arc::new("worker"));
    }
    manager
}

fn count(actions: &[ManagerAction], action: ManagerAction) -> usize {
    actions.iter().filter(|&&seen| seen == action).count()
}

#[test]
fn a_new_pool_holds_no_worker_and_may_spawn() {
    let manager: PoolWorkerManager<u64> = PoolWorkerManager::new(3);
    assert_eq!(manager.worker_count(), 0);
    assert_eq!(manager.available_count(), 0);
    assert!(manager.may_spawn());
    assert!(!manager.is_draining());
    assert_eq!(manager.top(), None);
    let manager: PoolWorkerManager<u64> = PoolWorkerManager::new(0);
    assert!(!manager.may_spawn());
}

#[test]
fn a_ready_worker_becomes_the_top_and_the_old_top_is_told() {
    let mut manager: PoolWorkerManager<u64> = PoolWorkerManager::new(3);
    assert_eq!(manager.worker_ready(10, Arc::new(1)), vec![]);
    assert_eq!(
        manager.worker_ready(20, Arc::new(2)),
        vec![ManagerAction::NextWorkerCreated { to: 10 }]
    );
    assert_eq!(
        manager.worker_ready(30, Arc::new(3)),
        vec![ManagerAction::NextWorkerCreated { to: 20 }]
    );
    assert_eq!(manager.top(), Some(30));
    assert_eq!(manager.worker_count(), 3);
    assert_eq!(manager.available_count(), 3);
    assert_eq!(**manager.worker(20).unwrap(), 2);
    assert!(manager.worker(40).is_none());
    assert_eq!(manager.negotiation(20), Some(Negotiation::Idle));
    assert_eq!(manager.negotiation(40), None);
}

#[test]
fn a_worker_that_is_known_already_changes_nothing() {
    let mut manager = pool_of(3, &[10, 20]);
    assert_eq!(manager.worker_ready(10, Arc::new("again")), vec![]);
    assert_eq!(manager.worker_count(), 2);
    assert_eq!(**manager.worker(10).unwrap(), "worker");
}

#[test]
fn a_full_pool_sends_a_ready_worker_away() {
    let mut manager = pool_of(2, &[10, 20]);
    assert!(!manager.may_spawn());
    assert_eq!(
        manager.worker_ready(30, Arc::new("late")),
        vec![ManagerAction::RequestExit { to: 30, force: true }]
    );
    assert_eq!(manager.worker_count(), 2);
    assert!(manager.worker(30).is_none());
}

#[test]
fn hints_of_a_full_queue_collapse_into_one() {
    let mut manager = pool_of(2, &[10]);
    assert!(manager.queue_full());
    assert!(!manager.queue_full());
    assert!(!manager.queue_full());
    assert_eq!(manager.wake(), vec![ManagerAction::Spawn]);
    assert!(manager.queue_full());
    assert!(!manager.queue_full());
}

#[test]
fn no_hint_is_posted_when_the_pool_may_not_spawn() {
    let mut manager = pool_of(1, &[10]);
    assert!(!manager.queue_full());
    assert_eq!(manager.wake(), vec![]);
    let mut manager = pool_of(2, &[10]);
    manager.drain();
    assert!(!manager.queue_full());
}

#[test]
fn a_wake_checks_again_before_it_spawns() {
    let mut manager = pool_of(2, &[10]);
    assert!(manager.queue_full());
    manager.worker_ready(20, Arc::new("meanwhile"));
    assert_eq!(manager.wake(), vec![]);
    assert_eq!(manager.wake(), vec![]);
    manager.worker_failed(20);
    assert_eq!(manager.wake(), vec![ManagerAction::Spawn]);
}

#[test]
fn requests_go_to_the_most_recent_worker_first() {
    let mut manager = pool_of(3, &[10, 20, 30]);
    assert_eq!(manager.assign(), Some(30));
    assert_eq!(manager.assign(), Some(20));
    assert_eq!(manager.available_count(), 1);
    assert_eq!(manager.worker_count(), 3);
    assert!(manager.worker(30).is_some());
    assert_eq!(manager.handle_message(PoolManagerMessage::WorkerAvailable(20)), vec![]);
    assert_eq!(manager.assign(), Some(20));
    assert_eq!(manager.assign(), Some(10));
    assert_eq!(manager.assign(), None);
}

#[test]
fn availability_of_a_listed_or_unknown_worker_is_swallowed() {
    let mut manager = pool_of(3, &[10, 20]);
    assert_eq!(manager.worker_available(10), vec![]);
    assert_eq!(manager.worker_available(99), vec![]);
    assert_eq!(manager.available_count(), 2);
    assert_eq!(manager.worker_count(), 2);
    assert_eq!(manager.assign(), Some(20));
    assert_eq!(manager.assign(), Some(10));
}

#[test]
fn a_refusal_leaves_the_worker_as_it_was() {
    let mut manager = pool_of(3, &[10, 20, 30]);
    assert_eq!(manager.assign(), Some(30));
    // Worker 30 is busy and out of the order; worker 20 is idle and in it.
    for (key, listed) in [(30usize, false), (20usize, true)] {
        let available = manager.available_count();
        assert_eq!(
            manager.request_exit(key, false),
            vec![ManagerAction::RequestExit { to: key, force: false }]
        );
        assert_eq!(manager.negotiation(key), Some(Negotiation::Requested { force: false }));
        assert_eq!(manager.exit_reply(key, ExitReply::WillNotExit), vec![]);
        assert_eq!(manager.negotiation(key), Some(Negotiation::Idle));
        assert!(manager.worker(key).is_some());
        assert_eq!(manager.available_count(), available);
        assert_eq!(manager.worker_count(), 3);
        let again = manager.worker_available(key);
        assert_eq!(again, vec![]);
        assert_eq!(manager.available_count(), if listed { available } else { available + 1 });
        if !listed {
            assert_eq!(manager.assign(), Some(30));
        }
    }
}

#[test]
fn a_second_request_waits_for_the_answer_to_the_first() {
    let mut manager = pool_of(3, &[10]);
    assert_eq!(
        manager.request_exit(10, false),
        vec![ManagerAction::RequestExit { to: 10, force: false }]
    );
    assert_eq!(manager.request_exit(10, true), vec![]);
    assert_eq!(manager.negotiation(10), Some(Negotiation::Requested { force: false }));
    assert_eq!(manager.request_exit(99, false), vec![]);
}

#[test]
fn an_answer_without_a_request_changes_nothing() {
    let mut manager = pool_of(3, &[10]);
    assert_eq!(manager.exit_reply(10, ExitReply::WillExit), vec![]);
    assert_eq!(manager.exit_reply(99, ExitReply::WillExit), vec![]);
    assert_eq!(manager.worker_count(), 1);
}

#[test]
fn a_worker_that_will_exit_is_joined_and_forgotten() {
    let mut manager = pool_of(3, &[10, 20, 30]);
    manager.request_exit(20, false);
    assert_eq!(
        manager.exit_reply(20, ExitReply::WillExit),
        vec![ManagerAction::Join { worker: 20 }]
    );
    assert!(manager.worker(20).is_none());
    assert_eq!(manager.worker_count(), 2);
    assert_eq!(manager.available_count(), 2);
    assert_eq!(manager.top(), Some(30));
    assert_eq!(manager.exit_reply(20, ExitReply::WillExit), vec![]);
    assert_eq!(manager.worker_available(20), vec![]);
    assert_eq!(manager.available_count(), 2);
}

#[test]
fn the_worker_below_a_leaving_top_is_told() {
    let mut manager = pool_of(3, &[10, 20, 30]);
    manager.request_exit(30, false);
    assert_eq!(
        manager.exit_reply(30, ExitReply::WillExit),
        vec![ManagerAction::Join { worker: 30 }, ManagerAction::NextWorkerExited { to: 20 }]
    );
    assert_eq!(manager.top(), Some(20));
    manager.request_exit(20, false);
    manager.exit_reply(20, ExitReply::WillExit);
    manager.request_exit(10, false);
    assert_eq!(
        manager.exit_reply(10, ExitReply::WillExit),
        vec![ManagerAction::Join { worker: 10 }]
    );
    assert_eq!(manager.top(), None);
}

#[test]
fn a_worker_that_is_forced_to_exit_gets_no_request() {
    let mut manager = pool_of(3, &[10, 20, 30]);
    assert_eq!(
        manager.request_exit(30, true),
        vec![ManagerAction::RequestExit { to: 30, force: true }]
    );
    assert_eq!(manager.available_count(), 2);
    assert!(manager.worker(30).is_some());
    assert_eq!(manager.worker_available(30), vec![]);
    assert_eq!(manager.available_count(), 2);
    assert_eq!(manager.assign(), Some(20));
    assert_eq!(manager.assign(), Some(10));
    assert_eq!(manager.assign(), None);
    // A request that is not forced leaves the worker where it is.
    let mut manager = pool_of(3, &[10, 20, 30]);
    manager.request_exit(30, false);
    assert_eq!(manager.available_count(), 3);
    assert_eq!(manager.assign(), Some(30));
    assert_eq!(manager.worker_available(30), vec![]);
    assert_eq!(manager.assign(), Some(30));
}

#[test]
fn a_pool_that_exits_by_force_hands_out_no_request() {
    let mut manager = pool_of(3, &[10, 20, 30]);
    assert_eq!(manager.assign(), Some(30));
    manager.exit(false);
    assert_eq!(manager.available_count(), 0);
    assert_eq!(manager.worker_count(), 3);
    assert_eq!(manager.assign(), None);
    assert_eq!(manager.worker_available(30), vec![]);
    assert_eq!(manager.worker_available(10), vec![]);
    assert_eq!(manager.assign(), None);
}

#[test]
fn a_forced_request_takes_no_refusal() {
    let mut manager = pool_of(3, &[10, 20]);
    assert_eq!(
        manager.request_exit(10, true),
        vec![ManagerAction::RequestExit { to: 10, force: true }]
    );
    assert_eq!(
        manager.exit_reply(10, ExitReply::WillNotExit),
        vec![ManagerAction::Join { worker: 10 }]
    );
    assert!(manager.worker(10).is_none());
}

#[test]
fn a_failed_worker_is_retired_without_negotiation() {
    let mut manager = pool_of(3, &[10, 20]);
    assert_eq!(manager.assign(), Some(20));
    assert_eq!(
        manager.worker_failed(20),
        vec![ManagerAction::Join { worker: 20 }, ManagerAction::NextWorkerExited { to: 10 }]
    );
    assert_eq!(manager.worker_failed(20), vec![]);
    assert_eq!(
        manager.handle_message(PoolManagerMessage::WorkerShutdown(10)),
        vec![ManagerAction::Join { worker: 10 }]
    );
    assert_eq!(manager.worker_count(), 0);
    assert_eq!(manager.available_count(), 0);
}

#[test]
fn draining_an_empty_pool_is_done_at_once() {
    let mut manager: PoolWorkerManager<u64> = PoolWorkerManager::new(3);
    assert_eq!(manager.drain(), vec![EMPTY, ManagerAction::AckDrain]);
    assert!(manager.is_draining());
    assert_eq!(manager.drain(), vec![ManagerAction::AckDrain]);
    assert_eq!(
        manager.worker_ready(10, Arc::new(1)),
        vec![ManagerAction::RequestExit { to: 10, force: true }]
    );
    assert_eq!(manager.worker_count(), 0);
    assert_eq!(manager.wake(), vec![]);
}

#[test]
fn a_drained_pool_is_announced_empty_exactly_once() {
    let mut manager = pool_of(4, &[10, 20, 30]);
    assert_eq!(manager.assign(), Some(30));
    let mut seen = Vec::new();
    let asked = manager.drain();
    assert_eq!(
        asked,
        vec![
            ManagerAction::RequestExit { to: 30, force: false },
            ManagerAction::RequestExit { to: 20, force: false },
            ManagerAction::RequestExit { to: 10, force: false },
        ]
    );
    seen.extend(asked);
    assert!(!manager.may_spawn());
    seen.extend(manager.exit_reply(30, ExitReply::WillNotExit));
    seen.extend(manager.exit_reply(20, ExitReply::WillExit));
    seen.extend(manager.exit_reply(10, ExitReply::WillExit));
    assert_eq!(count(&seen, EMPTY), 0);
    assert_eq!(manager.worker_count(), 1);
    // The busy worker finishes, is asked again, and leaves.
    let again = manager.handle_message(PoolManagerMessage::WorkerAvailable(30));
    assert_eq!(again, vec![ManagerAction::RequestExit { to: 30, force: false }]);
    seen.extend(again);
    let last = manager.exit_reply(30, ExitReply::WillExit);
    assert_eq!(
        last,
        vec![ManagerAction::Join { worker: 30 }, EMPTY, ManagerAction::AckDrain]
    );
    seen.extend(last);
    assert_eq!(manager.worker_count(), 0);
    assert_eq!(manager.available_count(), 0);
    seen.extend(manager.drain());
    seen.extend(manager.exit(true));
    seen.extend(manager.worker_failed(30));
    seen.extend(manager.wake());
    assert_eq!(count(&seen, EMPTY), 1);
    assert_eq!(count(&seen, ManagerAction::AckDrain), 2);
}

#[test]
fn a_graceful_exit_is_announced_once_and_asks_without_force() {
    let mut manager = pool_of(3, &[10, 20]);
    assert_eq!(
        manager.exit(true),
        vec![
            EXITING,
            ManagerAction::RequestExit { to: 20, force: false },
            ManagerAction::RequestExit { to: 10, force: false },
        ]
    );
    assert!(manager.is_draining());
    assert_eq!(manager.exit(true), vec![]);
    assert_eq!(manager.exit_reply(20, ExitReply::WillNotExit), vec![]);
    assert_eq!(
        manager.exit_reply(10, ExitReply::WillExit),
        vec![ManagerAction::Join { worker: 10 }]
    );
    assert_eq!(
        manager.worker_failed(20),
        vec![ManagerAction::Join { worker: 20 }, EMPTY]
    );
}

#[test]
fn an_exit_by_force_asks_again_where_it_is_refused() {
    let mut manager = pool_of(3, &[10, 20]);
    manager.request_exit(10, false);
    assert_eq!(
        manager.exit(false),
        vec![EXITING, ManagerAction::RequestExit { to: 20, force: true }]
    );
    // Worker 10 answers the request that was not forced.
    assert_eq!(
        manager.exit_reply(10, ExitReply::WillNotExit),
        vec![ManagerAction::RequestExit { to: 10, force: true }]
    );
    assert_eq!(manager.negotiation(10), Some(Negotiation::Requested { force: true }));
    assert_eq!(
        manager.exit_reply(10, ExitReply::WillNotExit),
        vec![ManagerAction::Join { worker: 10 }]
    );
    assert_eq!(
        manager.exit_reply(20, ExitReply::WillExit),
        vec![ManagerAction::Join { worker: 20 }, EMPTY]
    );
    assert_eq!(manager.exit(false), vec![]);
    assert_eq!(manager.drain(), vec![ManagerAction::AckDrain]);
}

#[test]
fn an_exit_on_an_empty_pool_announces_both_events() {
    let mut manager: PoolWorkerManager<u64> = PoolWorkerManager::new(2);
    assert_eq!(manager.exit(true), vec![EXITING, EMPTY]);
    assert_eq!(manager.exit(false), vec![]);
}

#[test]
fn a_new_facade_is_empty() {
    let pool: Pool<Fetch> = Pool::new(2);
    assert_eq!(pool.queued(), 0);
    assert_eq!(pool.received(), 0);
    assert_eq!(pool.completed(), 0);
    assert_eq!(pool.outstanding(), 0);
    assert!(!pool.is_full());
    let pool: Pool<Fetch> = Pool::new(0);
    assert!(pool.is_full());
}

#[test]
fn requests_wait_in_the_order_in_which_they_came() {
    let mut pool = Pool::new(3);
    assert_eq!(pool.submit(Fetch(1), "a.example".to_string()), Ok(()));
    assert_eq!(pool.submit(Fetch(2), "b.example".to_string()), Ok(()));
    assert_eq!(pool.queued(), 2);
    assert_eq!(pool.take(), Some((Fetch(1), "a.example".to_string())));
    assert_eq!(pool.submit(Fetch(3), "c.example".to_string()), Ok(()));
    assert_eq!(pool.take(), Some((Fetch(2), "b.example".to_string())));
    assert_eq!(pool.take(), Some((Fetch(3), "c.example".to_string())));
    assert_eq!(pool.take(), None);
}

#[test]
fn a_full_queue_hands_the_request_back() {
    let mut pool = Pool::new(2);
    assert_eq!(pool.submit(Fetch(1), "a.example".to_string()), Ok(()));
    assert!(!pool.is_full());
    assert_eq!(pool.submit(Fetch(2), "a.example".to_string()), Ok(()));
    assert!(pool.is_full());
    assert_eq!(
        pool.submit(Fetch(3), "a.example".to_string()),
        Err((Fetch(3), "a.example".to_string()))
    );
    assert_eq!(pool.queued(), 2);
    assert_eq!(pool.received(), 2);
    assert!(pool.take().is_some());
    assert!(!pool.is_full());
    assert_eq!(pool.submit(Fetch(3), "a.example".to_string()), Ok(()));
    assert_eq!(pool.received(), 3);
}

#[test]
fn the_gauges_count_what_came_in_and_what_is_done() {
    let mut pool = Pool::new(4);
    assert!(!pool.complete());
    for id in 0..3 {
        assert_eq!(pool.submit(Fetch(id), "a.example".to_string()), Ok(()));
    }
    assert_eq!((pool.received(), pool.completed(), pool.outstanding()), (3, 0, 3));
    // A request that still waits is not done with.
    assert!(!pool.complete());
    assert!(pool.take().is_some());
    assert!(pool.take().is_some());
    assert_eq!(pool.outstanding(), 3);
    assert!(pool.complete());
    assert_eq!((pool.received(), pool.completed(), pool.outstanding()), (3, 1, 2));
    assert!(pool.complete());
    assert!(!pool.complete());
    assert_eq!((pool.received(), pool.completed(), pool.outstanding()), (3, 2, 1));
    assert_eq!(pool.queued(), 1);
}

#[test]
fn a_full_queue_wakes_the_manager_once() {
    let mut pool = Pool::new(1);
    let mut manager = pool_of(2, &[10]);
    assert_eq!(manager.assign(), Some(10));
    assert_eq!(pool.submit(Fetch(1), "a.example".to_string()), Ok(()));
    let mut posted = 0;
    for id in 2..6 {
        if pool.submit(Fetch(id), "a.example".to_string()).is_err() && manager.queue_full() {
            posted += 1;
        }
    }
    assert_eq!(posted, 1);
    assert_eq!(manager.wake(), vec![ManagerAction::Spawn]);
    assert_eq!(manager.worker_ready(20, Arc::new("worker")), vec![
        ManagerAction::NextWorkerCreated { to: 10 }
    ]);
    assert_eq!(manager.assign(), Some(20));
    assert_eq!(pool.take(), Some((Fetch(1), "a.example".to_string())));
}
