use distributed_mapreduce::coordinator::{Coordinator, TaskStatus};

#[test]
fn test_register_worker_and_heartbeat() {
    let mut c = Coordinator::new();
    let id = c.register_worker("127.0.0.1:4000".to_string(), 0);
    assert!(c.heartbeat(id.as_str(), 5));
    assert!(!c.heartbeat("no-such-worker", 5));
}

#[test]
fn test_create_task_is_idempotent_per_id() {
    let mut c = Coordinator::new();
    assert!(c.create_task("t1".to_string()));
    assert!(!c.create_task("t1".to_string()));
    assert!(c.create_task("t2".to_string()));
}

#[test]
fn test_assign_task_requires_both_parties() {
    let mut c = Coordinator::new();
    let w = c.register_worker("addr".to_string(), 0);
    assert!(!c.assign_task("t1", w.as_str()));
    assert!(c.create_task("t1".to_string()));
    assert!(!c.assign_task("t1", "no-such-worker"));
    assert!(c.assign_task("t1", w.as_str()));
}

#[test]
fn test_assign_task_is_exclusive() {
    let mut c = Coordinator::new();
    let w1 = c.register_worker("addr1".to_string(), 0);
    let w2 = c.register_worker("addr2".to_string(), 0);
    assert!(c.create_task("t1".to_string()));

    // Two callers race to assign the same task: exactly one succeeds, the
    // loser observes `false` and nothing is rebound.
    assert!(c.assign_task("t1", w1.as_str()));
    assert!(!c.assign_task("t1", w2.as_str()));
    assert!(!c.assign_task("t1", w1.as_str()));
}

#[test]
fn test_update_task_status_releases_task() {
    let mut c = Coordinator::new();
    let w1 = c.register_worker("addr1".to_string(), 0);
    let w2 = c.register_worker("addr2".to_string(), 0);
    assert!(c.create_task("t1".to_string()));
    assert!(c.assign_task("t1", w1.as_str()));

    // Completing the task clears its binding; a later explicit move back to
    // Pending makes it assignable again.
    c.update_task_status("t1", TaskStatus::Completed);
    assert!(!c.assign_task("t1", w2.as_str()));
    c.update_task_status("t1", TaskStatus::Pending);
    assert!(c.assign_task("t1", w2.as_str()));
}

#[test]
fn test_configurable_liveness_timeout() {
    let mut c = Coordinator::new_with_timeout(2, 5_000);
    let w = c.register_worker("addr".to_string(), 0);
    c.check_worker_health(6_000);
    assert!(!c.heartbeat(w.as_str(), 6_000));
}

#[test]
fn test_check_worker_health_removes_stale_workers() {
    let mut c = Coordinator::new();
    let stale = c.register_worker("addr1".to_string(), 0);
    let fresh = c.register_worker("addr2".to_string(), 25_000);

    // At 31s the first worker's heartbeat is 31s old (over the 30s
    // timeout); the second is 6s old and survives untouched.
    c.check_worker_health(31_000);

    assert!(!c.heartbeat(stale.as_str(), 31_000));
    assert!(c.heartbeat(fresh.as_str(), 31_000));
}

#[test]
fn test_check_worker_health_requeues_tasks() {
    let mut c = Coordinator::new();
    let stale = c.register_worker("addr1".to_string(), 0);
    let fresh = c.register_worker("addr2".to_string(), 25_000);
    assert!(c.create_task("t1".to_string()));
    assert!(c.assign_task("t1", stale.as_str()));

    // While in progress the task cannot be assigned elsewhere.
    assert!(!c.assign_task("t1", fresh.as_str()));

    // The sweep removes the stale owner and returns its task to Pending,
    // so a surviving worker can pick it up.
    c.check_worker_health(31_000);
    assert!(c.assign_task("t1", fresh.as_str()));
}

#[test]
fn test_check_worker_health_keeps_live_bindings() {
    let mut c = Coordinator::new();
    let w1 = c.register_worker("addr1".to_string(), 0);
    let w2 = c.register_worker("addr2".to_string(), 0);
    assert!(c.create_task("t1".to_string()));
    assert!(c.assign_task("t1", w1.as_str()));

    // Everyone is within the timeout: the sweep changes nothing, and the
    // task stays bound.
    c.check_worker_health(10_000);
    assert!(c.heartbeat(w1.as_str(), 10_000));
    assert!(!c.assign_task("t1", w2.as_str()));
}
