//! The coordinator: the worker registry, the task registry, heartbeat
//! tracking, and the health sweep that requeues the tasks of failed workers.
//!
//! All registry state is owned by the `Coordinator` value and mutated only
//! through its methods, so every mutation is one indivisible check-then-act
//! step with respect to its exclusive borrow: no caller can observe or
//! interleave a partial update.

use vstd::prelude::*;
use vstd::string::*;
use crate::ext::{cpu_count, fresh_worker_id, new_update_channel, send_update};
use crate::utils::str_eq;

verus! {

/// How long a worker may go without a heartbeat before the health sweep
/// declares it failed, in milliseconds.
pub const DEFAULT_LIVENESS_TIMEOUT_MS: u64 = 30000;

/// Capacity of the best-effort task-update broadcast channel.
pub const TASK_UPDATE_CHANNEL_CAPACITY: usize = 100;

/// The lifecycle states of a task.
#[derive(Debug, Clone, Copy, PartialEq, Eq, Structural)]
pub enum TaskStatus {
    Pending,
    InProgress,
    Completed,
    Failed,
}

/// A unit of work tracked by the coordinator. `worker_id` names the owning
/// worker exactly while the task is in progress.
#[derive(Debug, Clone)]
pub struct Task {
    pub id: String,
    pub status: TaskStatus,
    pub worker_id: Option<String>,
    pub retries: u32,
}

/// A registered worker: its coordinator-assigned identifier, its reported
/// address, the time of its latest liveness signal, and the identifiers of
/// the tasks currently assigned to it.
#[derive(Debug, Clone)]
pub struct Worker {
    pub id: String,
    pub address: String,
    pub last_heartbeat: u64,
    pub tasks: Vec<String>,
}

/// The mathematical value of a [`Task`].
pub struct TaskView {
    pub id: Seq<char>,
    pub status: TaskStatus,
    pub worker_id: Option<Seq<char>>,
    pub retries: u32,
}

/// The mathematical value of a [`Worker`].
pub struct WorkerView {
    pub id: Seq<char>,
    pub address: Seq<char>,
    pub last_heartbeat: u64,
    pub tasks: Seq<Seq<char>>,
}

impl View for Task {
    type V = TaskView;

    open spec fn view(&self) -> TaskView {
        TaskView {
            id: self.id@,
            status: self.status,
            worker_id: match self.worker_id {
                Some(w) => Some(w@),
                None => None,
            },
            retries: self.retries,
        }
    }
}

impl View for Worker {
    type V = WorkerView;

    open spec fn view(&self) -> WorkerView {
        WorkerView {
            id: self.id@,
            address: self.address@,
            last_heartbeat: self.last_heartbeat,
            tasks: self.tasks@.map_values(|t: String| t@),
        }
    }
}

/// Whether some worker in `ws` carries the identifier `id`.
pub open spec fn has_worker(ws: Seq<WorkerView>, id: Seq<char>) -> bool {
    exists|k: int| 0 <= k < ws.len() && ws[k].id == id
}

/// The position of the worker carrying `id` (meaningful when worker
/// identifiers are unique and `has_worker` holds).
pub open spec fn worker_index(ws: Seq<WorkerView>, id: Seq<char>) -> int {
    choose|k: int| 0 <= k < ws.len() && ws[k].id == id
}

/// Whether some task in `ts` carries the identifier `id`.
pub open spec fn has_task(ts: Seq<TaskView>, id: Seq<char>) -> bool {
    exists|j: int| 0 <= j < ts.len() && ts[j].id == id
}

/// The position of the task carrying `id` (meaningful when task
/// identifiers are unique and `has_task` holds).
pub open spec fn task_index(ts: Seq<TaskView>, id: Seq<char>) -> int {
    choose|j: int| 0 <= j < ts.len() && ts[j].id == id
}

/// Worker identifiers are pairwise distinct.
pub open spec fn workers_unique(ws: Seq<WorkerView>) -> bool {
    forall|i: int, j: int| 0 <= i < j < ws.len() ==> ws[i].id != ws[j].id
}

/// Task identifiers are pairwise distinct.
pub open spec fn tasks_unique(ts: Seq<TaskView>) -> bool {
    forall|i: int, j: int| 0 <= i < j < ts.len() ==> ts[i].id != ts[j].id
}

/// The whole registry state of a coordinator.
pub struct CoordinatorView {
    pub workers: Seq<WorkerView>,
    pub tasks: Seq<TaskView>,
    pub timeout_ms: u64,
}

impl CoordinatorView {
    /// The registry invariant.
    ///
    /// Beyond unique identifiers it links the two registries: a task names
    /// an owning worker exactly while it is `InProgress`; the named owner
    /// exists and lists the task; and every listed task is an in-progress
    /// task bound to exactly that worker. Each worker's task list holds no
    /// duplicates.
    pub open spec fn wf(self) -> bool {
        &&& workers_unique(self.workers)
        &&& tasks_unique(self.tasks)
        &&& forall|j: int|
            0 <= j < self.tasks.len() ==> ((#[trigger] self.tasks[j].status) == TaskStatus::InProgress
                <==> self.tasks[j].worker_id is Some)
        &&& forall|j: int|
            0 <= j < self.tasks.len() && (#[trigger] self.tasks[j].worker_id) is Some ==> {
                let w = self.tasks[j].worker_id->0;
                &&& has_worker(self.workers, w)
                &&& self.workers[worker_index(self.workers, w)].tasks.contains(self.tasks[j].id)
            }
        &&& forall|k: int, m: int|
            0 <= k < self.workers.len() && 0 <= m < self.workers[k].tasks.len() ==> {
                let tid = #[trigger] self.workers[k].tasks[m];
                &&& has_task(self.tasks, tid)
                &&& self.tasks[task_index(self.tasks, tid)].worker_id == Some(self.workers[k].id)
                &&& self.tasks[task_index(self.tasks, tid)].status == TaskStatus::InProgress
            }
        &&& forall|k: int, m1: int, m2: int|
            0 <= k < self.workers.len() && 0 <= m1 < m2 < self.workers[k].tasks.len() ==> (
            #[trigger] self.workers[k].tasks[m1]) != (#[trigger] self.workers[k].tasks[m2])
    }
}

/// Pins down `worker_index` under unique identifiers: the index of a
/// matching worker is the index `choose` picks.
pub proof fn lemma_worker_index_unique(ws: Seq<WorkerView>, id: Seq<char>, k: int)
    requires
        workers_unique(ws),
        0 <= k < ws.len(),
        ws[k].id == id,
    ensures
        has_worker(ws, id),
        worker_index(ws, id) == k,
{
    assert(has_worker(ws, id));
    let k2 = worker_index(ws, id);
    if k2 != k {
        assert(ws[k2].id == id);
        assert(false);
    }
}

/// Pins down `task_index` under unique identifiers.
pub proof fn lemma_task_index_unique(ts: Seq<TaskView>, id: Seq<char>, j: int)
    requires
        tasks_unique(ts),
        0 <= j < ts.len(),
        ts[j].id == id,
    ensures
        has_task(ts, id),
        task_index(ts, id) == j,
{
    assert(has_task(ts, id));
    let j2 = task_index(ts, id);
    if j2 != j {
        assert(ts[j2].id == id);
        assert(false);
    }
}

/// The coordinator. It exclusively owns both registries; every public
/// method is one atomic check-then-act step over them.
pub struct Coordinator {
    workers: Vec<Worker>,
    tasks: Vec<Task>,
    timeout_ms: u64,
    task_updates: tokio::sync::broadcast::Sender<String>,
}

impl View for Coordinator {
    type V = CoordinatorView;

    closed spec fn view(&self) -> CoordinatorView {
        CoordinatorView {
            workers: self.workers@.map_values(|w: Worker| w@),
            tasks: self.tasks@.map_values(|t: Task| t@),
            timeout_ms: self.timeout_ms,
        }
    }
}

impl Default for Coordinator {
    /// An empty coordinator with the default liveness timeout.
    fn default() -> (r: Coordinator)
        ensures
            r@.workers =~= Seq::<WorkerView>::empty(),
            r@.tasks =~= Seq::<TaskView>::empty(),
            r@.timeout_ms == DEFAULT_LIVENESS_TIMEOUT_MS,
            r@.wf(),
    {
        Coordinator::new()
    }
}

impl Coordinator {
    /// Builds an empty coordinator sized for the given worker-thread count,
    /// with the default liveness timeout.
    pub fn new_with_threads(thread_count: usize) -> (r: Coordinator)
        ensures
            r@.workers =~= Seq::<WorkerView>::empty(),
            r@.tasks =~= Seq::<TaskView>::empty(),
            r@.timeout_ms == DEFAULT_LIVENESS_TIMEOUT_MS,
            r@.wf(),
    {
        Coordinator::new_with_timeout(thread_count, DEFAULT_LIVENESS_TIMEOUT_MS)
    }

    /// Builds an empty coordinator with an explicit liveness timeout: the
    /// timeout is configuration, not a constant of the sweep.
    pub fn new_with_timeout(thread_count: usize, timeout_ms: u64) -> (r: Coordinator)
        ensures
            r@.workers =~= Seq::<WorkerView>::empty(),
            r@.tasks =~= Seq::<TaskView>::empty(),
            r@.timeout_ms == timeout_ms,
            r@.wf(),
    {
        let r = Coordinator {
            workers: Vec::with_capacity(thread_count),
            tasks: Vec::new(),
            timeout_ms,
            task_updates: new_update_channel(TASK_UPDATE_CHANNEL_CAPACITY),
        };
        proof {
            assert(r@.workers =~= Seq::<WorkerView>::empty());
            assert(r@.tasks =~= Seq::<TaskView>::empty());
        }
        r
    }

    /// Builds an empty coordinator sized for the machine's CPU count.
    pub fn new() -> (r: Coordinator)
        ensures
            r@.workers =~= Seq::<WorkerView>::empty(),
            r@.tasks =~= Seq::<TaskView>::empty(),
            r@.timeout_ms == DEFAULT_LIVENESS_TIMEOUT_MS,
            r@.wf(),
    {
        let threads = cpu_count();
        Coordinator::new_with_threads(threads)
    }

    /// Finds the position of the worker carrying `id`.
    fn find_worker(&self, id: &str) -> (r: Option<usize>)
        requires
            workers_unique(self@.workers),
        ensures
            r is Some <==> has_worker(self@.workers, id@),
            r matches Some(k) ==> k < self.workers@.len() && self@.workers[k as int].id == id@ && k
                as int == worker_index(self@.workers, id@),
    {
        let n = self.workers.len();
        let mut k: usize = 0;
        while k < n
            invariant
                k <= n,
                n == self.workers@.len(),
                workers_unique(self@.workers),
                forall|m: int| 0 <= m < k ==> self@.workers[m].id != id@,
            decreases n - k,
        {
            if str_eq(self.workers[k].id.as_str(), id) {
                proof {
                    lemma_worker_index_unique(self@.workers, id@, k as int);
                }
                return Some(k);
            }
            k += 1;
        }
        proof {
            if has_worker(self@.workers, id@) {
                let m = choose|m: int| 0 <= m < self@.workers.len() && self@.workers[m].id == id@;
                assert(self@.workers[m].id != id@);
            }
        }
        None
    }

    /// Finds the position of the task carrying `id`.
    fn find_task(&self, id: &str) -> (r: Option<usize>)
        requires
            tasks_unique(self@.tasks),
        ensures
            r is Some <==> has_task(self@.tasks, id@),
            r matches Some(j) ==> j < self.tasks@.len() && self@.tasks[j as int].id == id@ && j
                as int == task_index(self@.tasks, id@),
    {
        let n = self.tasks.len();
        let mut j: usize = 0;
        while j < n
            invariant
                j <= n,
                n == self.tasks@.len(),
                tasks_unique(self@.tasks),
                forall|m: int| 0 <= m < j ==> self@.tasks[m].id != id@,
            decreases n - j,
        {
            if str_eq(self.tasks[j].id.as_str(), id) {
                proof {
                    lemma_task_index_unique(self@.tasks, id@, j as int);
                }
                return Some(j);
            }
            j += 1;
        }
        proof {
            if has_task(self@.tasks, id@) {
                let m = choose|m: int| 0 <= m < self@.tasks.len() && self@.tasks[m].id == id@;
                assert(self@.tasks[m].id != id@);
            }
        }
        None
    }

    /// Creates a task in the `Pending` state. Returns whether the task was
    /// new; an existing identifier leaves the registries unchanged.
    pub fn create_task(&mut self, task_id: String) -> (r: bool)
        requires
            old(self)@.wf(),
        ensures
            final(self)@.wf(),
            r == !has_task(old(self)@.tasks, task_id@),
            r ==> final(self)@.tasks == old(self)@.tasks.push(
                TaskView {
                    id: task_id@,
                    status: TaskStatus::Pending,
                    worker_id: None,
                    retries: 0,
                },
            ) && final(self)@.workers == old(self)@.workers,
            !r ==> final(self)@ == old(self)@,
            final(self)@.timeout_ms == old(self)@.timeout_ms,
    {
        match self.find_task(task_id.as_str()) {
            Some(_) => false,
            None => {
                let ghost prev = self@;
                self.tasks.push(
                    Task { id: task_id, status: TaskStatus::Pending, worker_id: None, retries: 0 },
                );
                proof {
                    assert(self@.tasks =~= prev.tasks.push(
                        TaskView {
                            id: self.tasks@.last().id@,
                            status: TaskStatus::Pending,
                            worker_id: None,
                            retries: 0,
                        },
                    ));
                    assert(self@.workers =~= prev.workers);
                    lemma_wf_after_task_push(prev, self@);
                }
                true
            },
        }
    }

    /// Registers a worker: draws a fresh identifier and inserts a record
    /// with the given address, the current time as its first heartbeat, and
    /// no tasks. In the (never observed) case that the drawn identifier is
    /// already present, the registries are left unchanged.
    pub fn register_worker(&mut self, address: String, now_ms: u64) -> (r: String)
        requires
            old(self)@.wf(),
        ensures
            final(self)@.wf(),
            final(self)@.tasks == old(self)@.tasks,
            final(self)@.timeout_ms == old(self)@.timeout_ms,
            !has_worker(old(self)@.workers, r@) ==> final(self)@.workers == old(
                self,
            )@.workers.push(
                WorkerView {
                    id: r@,
                    address: address@,
                    last_heartbeat: now_ms,
                    tasks: Seq::empty(),
                },
            ),
            has_worker(old(self)@.workers, r@) ==> final(self)@ == old(self)@,
    {
        let id = fresh_worker_id();
        match self.find_worker(id.as_str()) {
            Some(_) => id,
            None => {
                let ghost prev = self@;
                let worker = Worker {
                    id: id.clone(),
                    address,
                    last_heartbeat: now_ms,
                    tasks: Vec::new(),
                };
                proof {
                    assert(worker@.tasks =~= Seq::<Seq<char>>::empty());
                }
                self.workers.push(worker);
                proof {
                    assert(self@.tasks =~= prev.tasks);
                    assert(self@.workers =~= prev.workers.push(
                        WorkerView {
                            id: id@,
                            address: self.workers@.last().address@,
                            last_heartbeat: now_ms,
                            tasks: Seq::empty(),
                        },
                    ));
                    lemma_wf_after_worker_push(prev, self@);
                }
                id
            },
        }
    }

    /// Refreshes a worker's heartbeat to `now_ms`; returns whether the
    /// worker exists. Nothing else changes.
    pub fn heartbeat(&mut self, worker_id: &str, now_ms: u64) -> (r: bool)
        requires
            old(self)@.wf(),
        ensures
            final(self)@.wf(),
            r == has_worker(old(self)@.workers, worker_id@),
            final(self)@.tasks == old(self)@.tasks,
            final(self)@.timeout_ms == old(self)@.timeout_ms,
            r ==> final(self)@.workers == old(self)@.workers.update(
                worker_index(old(self)@.workers, worker_id@),
                WorkerView {
                    last_heartbeat: now_ms,
                    ..old(self)@.workers[worker_index(old(self)@.workers, worker_id@)]
                },
            ),
            !r ==> final(self)@ == old(self)@,
    {
        match self.find_worker(worker_id) {
            Some(k) => {
                let ghost prev = self@;
                let mut w = self.workers.remove(k);
                w.last_heartbeat = now_ms;
                self.workers.insert(k, w);
                proof {
                    assert(self@.tasks =~= prev.tasks);
                    assert(self@.workers =~= prev.workers.update(
                        k as int,
                        WorkerView { last_heartbeat: now_ms, ..prev.workers[k as int] },
                    ));
                    lemma_wf_after_heartbeat(prev, self@, k as int, now_ms);
                }
                true
            },
            None => false,
        }
    }

    /// Atomically assigns a pending task to a registered worker: in one
    /// check-then-act step over both registries, the task becomes
    /// `InProgress` and bound to the worker, and the worker's task list
    /// gains the task. When the task is missing, not `Pending`, or the
    /// worker is missing, nothing is mutated and `false` is returned; of
    /// two racing callers for the same task, the second therefore loses
    /// with `false` and no effect.
    pub fn assign_task(&mut self, task_id: &str, worker_id: &str) -> (r: bool)
        requires
            old(self)@.wf(),
        ensures
            final(self)@.wf(),
            final(self)@.timeout_ms == old(self)@.timeout_ms,
            r == (has_task(old(self)@.tasks, task_id@) && old(self)@.tasks[task_index(
                old(self)@.tasks,
                task_id@,
            )].status == TaskStatus::Pending && has_worker(old(self)@.workers, worker_id@)),
            !r ==> final(self)@ == old(self)@,
            r ==> {
                let j = task_index(old(self)@.tasks, task_id@);
                let k = worker_index(old(self)@.workers, worker_id@);
                &&& final(self)@.tasks == old(self)@.tasks.update(
                    j,
                    TaskView {
                        status: TaskStatus::InProgress,
                        worker_id: Some(worker_id@),
                        ..old(self)@.tasks[j]
                    },
                )
                &&& final(self)@.workers == old(self)@.workers.update(
                    k,
                    WorkerView {
                        tasks: old(self)@.workers[k].tasks.push(task_id@),
                        ..old(self)@.workers[k]
                    },
                )
            },
    {
        let tj = self.find_task(task_id);
        let wk = self.find_worker(worker_id);
        match (tj, wk) {
            (Some(j), Some(k)) => {
                if self.tasks[j].status == TaskStatus::Pending {
                    let ghost prev = self@;
                    let t = self.tasks.remove(j);
                    let new_t = Task {
                        id: t.id,
                        status: TaskStatus::InProgress,
                        worker_id: Some(worker_id.to_owned()),
                        retries: t.retries,
                    };
                    self.tasks.insert(j, new_t);
                    let mut w = self.workers.remove(k);
                    w.tasks.push(task_id.to_owned());
                    let ghost wfinal = w@;
                    proof {
                        assert(wfinal.tasks =~= prev.workers[k as int].tasks.push(task_id@));
                        assert(wfinal == WorkerView {
                            tasks: prev.workers[k as int].tasks.push(task_id@),
                            ..prev.workers[k as int]
                        });
                    }
                    self.workers.insert(k, w);
                    proof {
                        assert(self@.tasks =~= prev.tasks.update(
                            j as int,
                            TaskView {
                                status: TaskStatus::InProgress,
                                worker_id: Some(worker_id@),
                                ..prev.tasks[j as int]
                            },
                        ));
                        assert(self@.workers =~= prev.workers.update(
                            k as int,
                            WorkerView {
                                tasks: prev.workers[k as int].tasks.push(task_id@),
                                ..prev.workers[k as int]
                            },
                        ));
                        lemma_wf_after_assign(prev, self@, j as int, k as int, task_id@, worker_id@);
                    }
                    true
                } else {
                    false
                }
            },
            _ => false,
        }
    }

    /// Sets the status of an existing task and publishes a best-effort
    /// notification carrying the task identifier (a full or subscriber-less
    /// channel never blocks or fails the call). A missing task changes
    /// nothing. A transition into `InProgress` is not performed here:
    /// `assign_task` is the only path into that state, which keeps the
    /// worker linkage intact. When a task leaves `InProgress`, its worker
    /// binding is cleared and the owning worker's task list drops it.
    pub fn update_task_status(&mut self, task_id: &str, status: TaskStatus)
        requires
            old(self)@.wf(),
        ensures
            final(self)@.wf(),
            final(self)@.timeout_ms == old(self)@.timeout_ms,
            (!has_task(old(self)@.tasks, task_id@) || status == TaskStatus::InProgress)
                ==> final(self)@ == old(self)@,
            has_task(old(self)@.tasks, task_id@) && status != TaskStatus::InProgress ==> {
                let j = task_index(old(self)@.tasks, task_id@);
                let t = old(self)@.tasks[j];
                &&& final(self)@.tasks == old(self)@.tasks.update(
                    j,
                    TaskView { status: status, worker_id: None, ..t },
                )
                &&& (t.worker_id matches Some(w) ==> final(self)@.workers
                    == old(self)@.workers.update(
                    worker_index(old(self)@.workers, w),
                    WorkerView {
                        tasks: old(self)@.workers[worker_index(old(self)@.workers, w)].tasks.remove_value(
                            task_id@,
                        ),
                        ..old(self)@.workers[worker_index(old(self)@.workers, w)]
                    },
                ))
                &&& (t.worker_id is None ==> final(self)@.workers == old(self)@.workers)
            },
    {
        if status == TaskStatus::InProgress {
            return ;
        }
        match self.find_task(task_id) {
            None => {},
            Some(j) => {
                let ghost prev = self@;
                let t = self.tasks.remove(j);
                let Task { id: tid_s, status: _, worker_id: owner, retries } = t;
                let new_t = Task { id: tid_s, status: status, worker_id: None, retries: retries };
                self.tasks.insert(j, new_t);
                proof {
                    assert(self@.tasks =~= prev.tasks.update(
                        j as int,
                        TaskView { status: status, worker_id: None, ..prev.tasks[j as int] },
                    ));
                    assert(self@.workers =~= prev.workers);
                }
                match owner {
                    None => {
                        proof {
                            lemma_wf_after_status_clear(prev, self@, j as int, status);
                        }
                    },
                    Some(wid_s) => {
                        proof {
                            assert(prev.tasks[j as int].worker_id == Some(wid_s@));
                            assert(has_worker(prev.workers, wid_s@));
                        }
                        match self.find_worker(wid_s.as_str()) {
                            None => {
                                proof {
                                    assert(false);
                                }
                            },
                            Some(k) => {
                                let mut w = self.workers.remove(k);
                                let ghost wlist = w@.tasks;
                                proof {
                                    assert(prev.workers[k as int].tasks.contains(task_id@));
                                    assert(wlist == prev.workers[k as int].tasks);
                                }
                                let n = w.tasks.len();
                                let mut m: usize = 0;
                                while m < n && !str_eq(w.tasks[m].as_str(), task_id)
                                    invariant
                                        m <= n,
                                        n == w.tasks@.len(),
                                        w@.tasks == wlist,
                                        wlist.contains(task_id@),
                                        forall|i: int| 0 <= i < m ==> wlist[i] != task_id@,
                                    decreases n - m,
                                {
                                    m += 1;
                                }
                                proof {
                                    if m == n {
                                        let i = choose|i: int|
                                            0 <= i < wlist.len() && wlist[i] == task_id@;
                                        assert(wlist[i] != task_id@);
                                    }
                                    wlist.index_of_first_ensures(task_id@);
                                    let fi = wlist.index_of_first(task_id@)->0;
                                    assert(wlist[fi] == task_id@);
                                    if fi < m {
                                        assert(wlist[fi] != task_id@);
                                    }
                                    if m < fi {
                                        assert(wlist[m as int] != task_id@);
                                    }
                                    assert(fi == m as int);
                                }
                                let _removed = w.tasks.remove(m);
                                let ghost wfinal = w@;
                                proof {
                                    assert(wfinal.tasks =~= wlist.remove(m as int));
                                    assert(wfinal.tasks == wlist.remove_value(task_id@));
                                }
                                self.workers.insert(k, w);
                                proof {
                                    assert(self@.workers =~= prev.workers.update(
                                        k as int,
                                        WorkerView {
                                            tasks: prev.workers[k as int].tasks.remove_value(
                                                task_id@,
                                            ),
                                            ..prev.workers[k as int]
                                        },
                                    ));
                                    lemma_wf_after_status_unbind(
                                        prev,
                                        self@,
                                        j as int,
                                        k as int,
                                        m as int,
                                        status,
                                    );
                                }
                            },
                        }
                    },
                }
                let _ = send_update(&self.task_updates, task_id.to_owned());
            },
        }
    }

    /// Records a liveness signal from the given identity: refreshes the
    /// worker's heartbeat, creating a record (with an empty address and no
    /// tasks) when the identity is new. This backs the Ping operation,
    /// which carries an identity chosen by the worker itself.
    pub fn touch_worker(&mut self, worker_id: &str, now_ms: u64)
        requires
            old(self)@.wf(),
        ensures
            final(self)@.wf(),
            final(self)@ == touched(old(self)@, worker_id@, now_ms),
    {
        if !self.heartbeat(worker_id, now_ms) {
            let ghost prev = self@;
            let worker = Worker {
                id: worker_id.to_owned(),
                address: String::new(),
                last_heartbeat: now_ms,
                tasks: Vec::new(),
            };
            proof {
                assert(worker@.tasks =~= Seq::<Seq<char>>::empty());
            }
            self.workers.push(worker);
            proof {
                assert(self@.tasks =~= prev.tasks);
                assert(self@.workers =~= prev.workers.push(
                    WorkerView {
                        id: worker_id@,
                        address: Seq::empty(),
                        last_heartbeat: now_ms,
                        tasks: Seq::empty(),
                    },
                ));
                assert(self@.workers.last().address =~= Seq::<char>::empty());
                lemma_wf_after_worker_push(prev, self@);
                assert(self@ == touched(prev, worker_id@, now_ms));
            }
        }
    }

    /// Runtime test for [`worker_dead`].
    fn worker_is_dead(w: &Worker, now_ms: u64, timeout_ms: u64) -> (r: bool)
        ensures
            r == worker_dead(w@, now_ms, timeout_ms),
    {
        now_ms > w.last_heartbeat && now_ms - w.last_heartbeat > timeout_ms
    }

    /// The failure detector's sweep. Every worker whose heartbeat is older
    /// than the liveness timeout at `now_ms` is removed — the sole deletion
    /// path for workers — and, as one logical unit per worker, each task it
    /// owned is returned to `Pending`, unbound, with `retries` one higher
    /// (capped at the counter's range). Workers within the timeout are left
    /// untouched, task bindings included.
    pub fn check_worker_health(&mut self, now_ms: u64)
        requires
            old(self)@.wf(),
        ensures
            final(self)@.wf(),
            final(self)@.timeout_ms == old(self)@.timeout_ms,
            final(self)@.workers == live_workers(
                old(self)@.workers,
                now_ms,
                old(self)@.timeout_ms,
            ),
            final(self)@.tasks.len() == old(self)@.tasks.len(),
            forall|j: int|
                0 <= j < old(self)@.tasks.len() ==> final(self)@.tasks[j] == sweep_task(
                    old(self)@.workers,
                    old(self)@.tasks[j],
                    now_ms,
                    old(self)@.timeout_ms,
                ),
    {
        let ghost ows = self@.workers;
        let ghost ots = self@.tasks;
        let timeout_ms = self.timeout_ms;
        let mut survivors: Vec<Worker> = Vec::new();
        let ghost mut g: int = 0;
        proof {
            assert(ows.skip(0) =~= ows);
            assert(ows.take(0) =~= Seq::<WorkerView>::empty());
            assert(survivors@.map_values(|w: Worker| w@) =~= Seq::<WorkerView>::empty());
        }
        while self.workers.len() > 0
            invariant
                old(self)@.wf(),
                ows == old(self)@.workers,
                ots == old(self)@.tasks,
                timeout_ms == old(self)@.timeout_ms,
                self@.timeout_ms == timeout_ms,
                0 <= g <= ows.len(),
                self@.workers == ows.skip(g),
                survivors@.map_values(|w: Worker| w@) == live_workers(
                    ows.take(g),
                    now_ms,
                    timeout_ms,
                ),
                self@.tasks.len() == ots.len(),
                forall|j: int| 0 <= j < ots.len() ==> (#[trigger] self@.tasks[j]) == sweep_task(
                    ows.take(g),
                    ots[j],
                    now_ms,
                    timeout_ms,
                ),
            decreases self.workers@.len(),
        {
            let ghost pw = self.workers@;
            let w = self.workers.remove(0);
            proof {
                assert(0 <= g && g < ows.len()) by {
                    assert(pw.map_values(|x: Worker| x@) == ows.skip(g));
                    assert(pw.len() > 0);
                }
                assert(pw.map_values(|x: Worker| x@) =~= ows.skip(g));
                assert(w@ == ows.skip(g)[0]);
                assert(ows.skip(g)[0] == ows[0 + g]);
                assert(w@ == ows[g as int]);
                pw.remove_ensures(0);
                assert(self@.workers =~= ows.skip(g + 1)) by {
                    assert(self.workers@ == pw.remove(0));
                    assert(forall|i: int|
                        0 <= i < self@.workers.len() ==> self@.workers[i] == #[trigger] self.workers@[i]@);
                    assert(forall|i: int|
                        0 <= i < pw.remove(0).len() ==> #[trigger] pw.remove(0)[i] == pw[i + 1]);
                    assert(forall|i: int|
                        0 <= i < ows.skip(g + 1).len() ==> #[trigger] ows.skip(g + 1)[i] == ows[i
                            + g + 1]);
                    assert(forall|i: int|
                        0 <= i < pw.len() ==> (#[trigger] pw[i])@ == ows.skip(g)[i]);
                }
                assert(ows.take(g + 1) =~= ows.take(g).push(ows[g as int]));
            }
            if Coordinator::worker_is_dead(&w, now_ms, timeout_ms) {
                // Requeue every task this worker owned, then drop the record.
                let tn = w.tasks.len();
                let ghost wl = ows[g].tasks;
                let mut m: usize = 0;
                while m < tn
                    invariant
                        old(self)@.wf(),
                        ows == old(self)@.workers,
                        ots == old(self)@.tasks,
                        timeout_ms == old(self)@.timeout_ms,
                        self@.timeout_ms == timeout_ms,
                        0 <= g < ows.len(),
                        w@ == ows[g as int],
                        worker_dead(ows[g as int], now_ms, timeout_ms),
                        wl == ows[g as int].tasks,
                        m <= tn,
                        tn == wl.len(),
                        self@.workers == ows.skip(g + 1),
                        self@.tasks.len() == ots.len(),
                        forall|j: int|
                            0 <= j < ots.len() ==> (#[trigger] self@.tasks[j]) == (
                            if wl.take(m as int).contains(ots[j].id) {
                                requeued(ots[j])
                            } else {
                                sweep_task(ows.take(g), ots[j], now_ms, timeout_ms)
                            }),
                    decreases tn - m,
                {
                    let ghost prevts = self@.tasks;
                    proof {
                        assert(tasks_unique(self@.tasks)) by {
                            assert(forall|j: int|
                                0 <= j < ots.len() ==> (#[trigger] self@.tasks[j]).id
                                    == ots[j].id);
                        }
                        // The listed task exists: the old registry holds it
                        // and identifiers never change.
                        assert(wl[m as int] == w@.tasks[m as int]);
                        assert(has_task(ots, wl[m as int]));
                        let jw = task_index(ots, wl[m as int]);
                        assert(self@.tasks[jw].id == wl[m as int]);
                        assert(has_task(self@.tasks, wl[m as int]));
                    }
                    let jo = match self.find_task(w.tasks[m].as_str()) {
                        Some(j) => j,
                        None => {
                            proof {
                                assert(false);
                            }
                            0
                        },
                    };
                    let t = self.tasks.remove(jo);
                    let nr: u32 = if t.retries < u32::MAX {
                        t.retries + 1
                    } else {
                        t.retries
                    };
                    let new_t = Task {
                        id: t.id,
                        status: TaskStatus::Pending,
                        worker_id: None,
                        retries: nr,
                    };
                    self.tasks.insert(jo, new_t);
                    proof {
                        let tid = wl[m as int];
                        let jot = task_index(ots, tid);
                        lemma_task_index_unique(ots, tid, jot);
                        // Before this step the task was still untouched: its
                        // identifier appears once in the list, and its owner
                        // is this worker, absent from the prefix already
                        // swept.
                        assert(jo as int == jot) by {
                            assert(prevts[jo as int].id == tid);
                            assert(prevts[jot].id == ots[jot].id);
                            if jo as int != jot {
                                assert(prevts[jo as int].id == ots[jo as int].id);
                                assert(ots[jo as int].id != ots[jot].id);
                            }
                        }
                        assert(!wl.take(m as int).contains(tid)) by {
                            if wl.take(m as int).contains(tid) {
                                let i = choose|i: int|
                                    0 <= i < m && wl.take(m as int)[i] == tid;
                                assert(wl[i] == wl[m as int]);
                            }
                        }
                        assert(ots[jot].worker_id == Some(ows[g as int].id));
                        assert(sweep_task(ows.take(g), ots[jot], now_ms, timeout_ms) == ots[jot])
                            by {
                            if has_worker(ows.take(g), ows[g as int].id) {
                                let k = choose|k: int|
                                    0 <= k < g && ows.take(g)[k].id == ows[g as int].id;
                                assert(ows[k].id == ows[g as int].id);
                            }
                        }
                        assert(prevts[jot] == ots[jot]);
                        assert(self@.tasks =~= prevts.update(jot, requeued(ots[jot])));
                        assert(wl.take(m + 1) =~= wl.take(m as int).push(tid));
                        assert forall|j: int| 0 <= j < ots.len() implies (#[trigger] self@.tasks[j])
                            == (if wl.take(m + 1).contains(ots[j].id) {
                            requeued(ots[j])
                        } else {
                            sweep_task(ows.take(g), ots[j], now_ms, timeout_ms)
                        }) by {
                            if j == jot {
                                assert(wl.take(m + 1)[m as int] == tid);
                                assert(wl.take(m + 1).contains(ots[j].id));
                            } else {
                                assert(self@.tasks[j] == prevts[j]);
                                assert(ots[j].id != tid) by {
                                    if ots[j].id == tid {
                                        lemma_task_index_unique(ots, tid, j);
                                    }
                                }
                                if wl.take(m + 1).contains(ots[j].id) {
                                    let i = choose|i: int|
                                        0 <= i < m + 1 && (#[trigger] wl.take(m + 1)[i]) == ots[
                                            j
                                        ].id;
                                    assert(i != m);
                                    assert(wl.take(m as int)[i] == ots[j].id);
                                    assert(wl.take(m as int).contains(ots[j].id));
                                } else {
                                    if wl.take(m as int).contains(ots[j].id) {
                                        let i = choose|i: int|
                                            0 <= i < m && wl.take(m as int)[i] == ots[j].id;
                                        assert(wl.take(m + 1)[i] == ots[j].id);
                                        assert(wl.take(m + 1).contains(ots[j].id));
                                    }
                                }
                            }
                        }
                    }
                    m += 1;
                }
                // The whole list is swept: exactly this worker's tasks are
                // requeued, which is the sweep's verdict once it is counted
                // among the examined workers.
                proof {
                    assert(wl.take(tn as int) =~= wl);
                    assert forall|j: int| 0 <= j < ots.len() implies (#[trigger] self@.tasks[j])
                        == sweep_task(ows.take(g + 1), ots[j], now_ms, timeout_ms) by {
                        lemma_sweep_extend(ows, g, ots[j], now_ms, timeout_ms);
                        match ots[j].worker_id {
                            Some(wv) => {
                                if wv == ows[g as int].id {
                                    lemma_worker_index_unique(ows, wv, g);
                                    assert(ows[worker_index(ows, wv)].tasks.contains(ots[j].id));
                                    assert(wl.contains(ots[j].id));
                                } else {
                                    assert(!wl.contains(ots[j].id)) by {
                                        if wl.contains(ots[j].id) {
                                            let i = choose|i: int|
                                                0 <= i < wl.len() && wl[i] == ots[j].id;
                                            let jt = task_index(ots, ots[j].id);
                                            lemma_task_index_unique(ots, ots[j].id, j);
                                            assert(ots[j].worker_id == Some(ows[g as int].id));
                                        }
                                    }
                                }
                            },
                            None => {
                                assert(!wl.contains(ots[j].id)) by {
                                    if wl.contains(ots[j].id) {
                                        let i = choose|i: int|
                                            0 <= i < wl.len() && wl[i] == ots[j].id;
                                        let jt = task_index(ots, ots[j].id);
                                        lemma_task_index_unique(ots, ots[j].id, j);
                                        assert(ots[j].worker_id is Some);
                                    }
                                }
                            },
                        }
                    }
                    lemma_live_workers_push(ows.take(g), ows[g as int], now_ms, timeout_ms);
                    g = g + 1;
                }
            } else {
                let ghost prevs = survivors@.map_values(|w: Worker| w@);
                survivors.push(w);
                proof {
                    assert(survivors@.map_values(|w: Worker| w@) =~= prevs.push(ows[g as int]));
                    lemma_live_workers_push(ows.take(g), ows[g as int], now_ms, timeout_ms);
                    assert forall|j: int| 0 <= j < ots.len() implies (#[trigger] self@.tasks[j])
                        == sweep_task(ows.take(g + 1), ots[j], now_ms, timeout_ms) by {
                        lemma_sweep_extend(ows, g, ots[j], now_ms, timeout_ms);
                        match ots[j].worker_id {
                            Some(wv) => {
                                if wv == ows[g as int].id {
                                    assert(!has_worker(ows.take(g), wv)) by {
                                        if has_worker(ows.take(g), wv) {
                                            let k = choose|k: int|
                                                0 <= k < g && ows.take(g)[k].id == wv;
                                            assert(ows[k].id == ows[g as int].id);
                                        }
                                    }
                                }
                            },
                            None => {},
                        }
                    }
                    g = g + 1;
                }
            }
        }
        proof {
            assert(g == ows.len());
            assert(ows.take(g) =~= ows);
        }
        self.workers = survivors;
        proof {
            assert(self@.workers == live_workers(ows, now_ms, timeout_ms));
            assert(self@.tasks.len() == ots.len());
            lemma_wf_after_sweep(old(self)@, self@, now_ms);
        }
    }
}

/// A coordinator state after a liveness signal from `id`: the identity's
/// heartbeat is refreshed, with a fresh (empty-address, task-less) record
/// created when the identity was unknown.
pub open spec fn touched(c: CoordinatorView, id: Seq<char>, now_ms: u64) -> CoordinatorView {
    if has_worker(c.workers, id) {
        CoordinatorView {
            workers: c.workers.update(
                worker_index(c.workers, id),
                WorkerView { last_heartbeat: now_ms, ..c.workers[worker_index(c.workers, id)] },
            ),
            ..c
        }
    } else {
        CoordinatorView {
            workers: c.workers.push(
                WorkerView {
                    id: id,
                    address: Seq::empty(),
                    last_heartbeat: now_ms,
                    tasks: Seq::empty(),
                },
            ),
            ..c
        }
    }
}

/// Whether a worker's heartbeat is stale at `now_ms`: strictly more than
/// the liveness timeout has elapsed since its last liveness signal.
pub open spec fn worker_dead(w: WorkerView, now_ms: u64, timeout_ms: u64) -> bool {
    now_ms - w.last_heartbeat > timeout_ms
}

/// One more retry, capped at the counter's range.
pub open spec fn inc_retries(r: u32) -> u32 {
    if r < u32::MAX {
        (r + 1) as u32
    } else {
        r
    }
}

/// A task as the health sweep requeues it: back to `Pending`, unbound, with
/// one more retry on record.
pub open spec fn requeued(t: TaskView) -> TaskView {
    TaskView { status: TaskStatus::Pending, worker_id: None, retries: inc_retries(t.retries), ..t }
}

/// What the health sweep leaves of one task, judging its owner against the
/// given worker set: a task owned by a stale worker is requeued, every
/// other task is untouched.
pub open spec fn sweep_task(ws: Seq<WorkerView>, t: TaskView, now_ms: u64, timeout_ms: u64) -> TaskView {
    match t.worker_id {
        Some(w) => if has_worker(ws, w) && worker_dead(ws[worker_index(ws, w)], now_ms, timeout_ms) {
            requeued(t)
        } else {
            t
        },
        None => t,
    }
}

/// The workers that survive the health sweep at `now_ms`, in order.
pub open spec fn live_workers(ws: Seq<WorkerView>, now_ms: u64, timeout_ms: u64) -> Seq<WorkerView>
    decreases ws.len(),
{
    if ws.len() == 0 {
        Seq::empty()
    } else {
        let rest = live_workers(ws.drop_last(), now_ms, timeout_ms);
        if !worker_dead(ws.last(), now_ms, timeout_ms) {
            rest.push(ws.last())
        } else {
            rest
        }
    }
}

/// Extending the examined workers by one extends the surviving set exactly
/// when that worker is live.
proof fn lemma_live_workers_push(ws: Seq<WorkerView>, x: WorkerView, now_ms: u64, timeout_ms: u64)
    ensures
        live_workers(ws.push(x), now_ms, timeout_ms) == if !worker_dead(x, now_ms, timeout_ms) {
            live_workers(ws, now_ms, timeout_ms).push(x)
        } else {
            live_workers(ws, now_ms, timeout_ms)
        },
{
    assert(ws.push(x).drop_last() =~= ws);
    assert(ws.push(x).last() == x);
}

/// Every survivor was a worker.
proof fn lemma_live_workers_subset(ws: Seq<WorkerView>, now_ms: u64, timeout_ms: u64)
    ensures
        forall|x: WorkerView|
            live_workers(ws, now_ms, timeout_ms).contains(x) ==> ws.contains(x),
    decreases ws.len(),
{
    if ws.len() > 0 {
        lemma_live_workers_subset(ws.drop_last(), now_ms, timeout_ms);
        assert forall|x: WorkerView|
            live_workers(ws, now_ms, timeout_ms).contains(x) implies ws.contains(x) by {
            let live = live_workers(ws, now_ms, timeout_ms);
            let rest = live_workers(ws.drop_last(), now_ms, timeout_ms);
            let i = choose|i: int| 0 <= i < live.len() && live[i] == x;
            if !worker_dead(ws.last(), now_ms, timeout_ms) && i == live.len() - 1 {
                assert(ws[ws.len() - 1] == x);
            } else {
                assert(rest[i] == x);
                assert(rest.contains(x));
                assert(ws.drop_last().contains(x));
                let j = choose|j: int| 0 <= j < ws.drop_last().len() && ws.drop_last()[j] == x;
                assert(ws.drop_last()[j] == ws[j]);
                assert(ws[j] == x);
            }
        }
    }
}

/// Every survivor is live.
proof fn lemma_live_workers_alive(ws: Seq<WorkerView>, now_ms: u64, timeout_ms: u64)
    ensures
        forall|i: int|
            0 <= i < live_workers(ws, now_ms, timeout_ms).len() ==> !worker_dead(
                #[trigger] live_workers(ws, now_ms, timeout_ms)[i],
                now_ms,
                timeout_ms,
            ),
    decreases ws.len(),
{
    if ws.len() > 0 {
        lemma_live_workers_alive(ws.drop_last(), now_ms, timeout_ms);
        let rest = live_workers(ws.drop_last(), now_ms, timeout_ms);
        assert forall|i: int|
            0 <= i < live_workers(ws, now_ms, timeout_ms).len() implies !worker_dead(
            live_workers(ws, now_ms, timeout_ms)[i],
            now_ms,
            timeout_ms,
        ) by {
            if i < rest.len() {
                assert(live_workers(ws, now_ms, timeout_ms)[i] == rest[i]);
            }
        }
    }
}

/// A live worker survives the sweep.
proof fn lemma_live_workers_keeps(ws: Seq<WorkerView>, now_ms: u64, timeout_ms: u64, k: int)
    requires
        0 <= k < ws.len(),
        !worker_dead(ws[k], now_ms, timeout_ms),
    ensures
        live_workers(ws, now_ms, timeout_ms).contains(ws[k]),
    decreases ws.len(),
{
    let live = live_workers(ws, now_ms, timeout_ms);
    let rest = live_workers(ws.drop_last(), now_ms, timeout_ms);
    if k == ws.len() - 1 {
        assert(live[live.len() - 1] == ws[k]);
    } else {
        lemma_live_workers_keeps(ws.drop_last(), now_ms, timeout_ms, k);
        let i = choose|i: int| 0 <= i < rest.len() && rest[i] == ws.drop_last()[k];
        assert(live[i] == ws[k]);
    }
}

/// Unique worker identifiers stay unique across the sweep.
proof fn lemma_live_workers_unique(ws: Seq<WorkerView>, now_ms: u64, timeout_ms: u64)
    requires
        workers_unique(ws),
    ensures
        workers_unique(live_workers(ws, now_ms, timeout_ms)),
    decreases ws.len(),
{
    if ws.len() > 0 {
        assert(workers_unique(ws.drop_last())) by {
            assert(forall|i: int|
                0 <= i < ws.drop_last().len() ==> ws.drop_last()[i] == ws[i]);
        }
        lemma_live_workers_unique(ws.drop_last(), now_ms, timeout_ms);
        lemma_live_workers_subset(ws.drop_last(), now_ms, timeout_ms);
        let live = live_workers(ws, now_ms, timeout_ms);
        let rest = live_workers(ws.drop_last(), now_ms, timeout_ms);
        assert forall|i: int, j: int| 0 <= i < j < live.len() implies live[i].id != live[j].id by {
            if j < rest.len() {
                assert(live[i] == rest[i] && live[j] == rest[j]);
            } else {
                assert(live[j] == ws.last());
                assert(live[i] == rest[i]);
                assert(rest.contains(rest[i]));
                assert(ws.drop_last().contains(rest[i]));
                let m = choose|m: int|
                    0 <= m < ws.drop_last().len() && ws.drop_last()[m] == rest[i];
                assert(ws[m] == rest[i]);
                assert(ws[m].id != ws.last().id);
            }
        }
    }
}

/// How one more examined worker changes the sweep's verdict on a task.
proof fn lemma_sweep_extend(
    ws: Seq<WorkerView>,
    g: int,
    t: TaskView,
    now_ms: u64,
    timeout_ms: u64,
)
    requires
        workers_unique(ws),
        0 <= g < ws.len(),
    ensures
        sweep_task(ws.take(g + 1), t, now_ms, timeout_ms) == (match t.worker_id {
            Some(w) => {
                if w == ws[g].id {
                    if worker_dead(ws[g], now_ms, timeout_ms) {
                        requeued(t)
                    } else {
                        t
                    }
                } else {
                    sweep_task(ws.take(g), t, now_ms, timeout_ms)
                }
            },
            None => t,
        }),
{
    let pre = ws.take(g);
    let cur = ws.take(g + 1);
    assert(forall|i: int| 0 <= i <= g ==> cur[i] == ws[i]);
    assert(forall|i: int| 0 <= i < g ==> pre[i] == ws[i]);
    match t.worker_id {
        Some(w) => {
            if w == ws[g].id {
                assert(workers_unique(cur));
                lemma_worker_index_unique(cur, w, g);
            } else {
                if has_worker(pre, w) {
                    let k = choose|k: int| 0 <= k < pre.len() && pre[k].id == w;
                    assert(workers_unique(pre));
                    lemma_worker_index_unique(pre, w, k);
                    assert(workers_unique(cur));
                    lemma_worker_index_unique(cur, w, k);
                } else {
                    if has_worker(cur, w) {
                        let k = choose|k: int| 0 <= k < cur.len() && cur[k].id == w;
                        assert(k != g);
                        assert(pre[k].id == w);
                    }
                }
            }
        },
        None => {},
    }
}

/// The health sweep preserves the registry invariant: survivors keep their
/// (unchanged) lists of untouched in-progress tasks, and every requeued
/// task is unbound.
proof fn lemma_wf_after_sweep(prev: CoordinatorView, cur: CoordinatorView, now_ms: u64)
    requires
        prev.wf(),
        cur.workers == live_workers(prev.workers, now_ms, prev.timeout_ms),
        cur.tasks.len() == prev.tasks.len(),
        forall|j: int|
            0 <= j < prev.tasks.len() ==> cur.tasks[j] == sweep_task(
                prev.workers,
                prev.tasks[j],
                now_ms,
                prev.timeout_ms,
            ),
    ensures
        cur.wf(),
{
    let t_ms = prev.timeout_ms;
    lemma_live_workers_unique(prev.workers, now_ms, t_ms);
    lemma_live_workers_subset(prev.workers, now_ms, t_ms);
    lemma_live_workers_alive(prev.workers, now_ms, t_ms);
    assert forall|i1: int, i2: int| 0 <= i1 < i2 < cur.tasks.len() implies cur.tasks[i1].id
        != cur.tasks[i2].id by {
        assert(cur.tasks[i1].id == prev.tasks[i1].id);
        assert(cur.tasks[i2].id == prev.tasks[i2].id);
    }
    assert forall|j: int|
        0 <= j < cur.tasks.len() implies ((#[trigger] cur.tasks[j].status)
        == TaskStatus::InProgress <==> cur.tasks[j].worker_id is Some) by {
        assert(cur.tasks[j] == sweep_task(prev.workers, prev.tasks[j], now_ms, t_ms));
    }
    assert forall|j: int|
        0 <= j < cur.tasks.len() && (#[trigger] cur.tasks[j].worker_id) is Some implies {
        let w = cur.tasks[j].worker_id->0;
        &&& has_worker(cur.workers, w)
        &&& cur.workers[worker_index(cur.workers, w)].tasks.contains(cur.tasks[j].id)
    } by {
        // The task was not requeued, so its owner is present and live.
        assert(cur.tasks[j] == prev.tasks[j]);
        let w = prev.tasks[j].worker_id->0;
        let kw = worker_index(prev.workers, w);
        assert(prev.workers[kw].id == w);
        assert(!worker_dead(prev.workers[kw], now_ms, t_ms));
        lemma_live_workers_keeps(prev.workers, now_ms, t_ms, kw);
        let k2 = choose|k2: int|
            0 <= k2 < cur.workers.len() && cur.workers[k2] == prev.workers[kw];
        lemma_worker_index_unique(cur.workers, w, k2);
    }
    assert forall|k: int, m: int|
        0 <= k < cur.workers.len() && 0 <= m < cur.workers[k].tasks.len() implies {
        let tid = #[trigger] cur.workers[k].tasks[m];
        &&& has_task(cur.tasks, tid)
        &&& cur.tasks[task_index(cur.tasks, tid)].worker_id == Some(cur.workers[k].id)
        &&& cur.tasks[task_index(cur.tasks, tid)].status == TaskStatus::InProgress
    } by {
        let wv = cur.workers[k];
        assert(cur.workers.contains(wv));
        assert(prev.workers.contains(wv));
        let kp = choose|kp: int| 0 <= kp < prev.workers.len() && prev.workers[kp] == wv;
        assert(!worker_dead(wv, now_ms, t_ms));
        let tid = wv.tasks[m];
        let jp = task_index(prev.tasks, tid);
        assert(prev.tasks[jp].worker_id == Some(wv.id));
        assert(prev.tasks[jp].status == TaskStatus::InProgress);
        // Its owner is this live worker, so the sweep left it alone.
        lemma_worker_index_unique(prev.workers, wv.id, kp);
        assert(sweep_task(prev.workers, prev.tasks[jp], now_ms, t_ms) == prev.tasks[jp]);
        assert(cur.tasks[jp] == prev.tasks[jp]);
        lemma_task_index_unique(cur.tasks, tid, jp);
    }
    assert forall|k: int, m1: int, m2: int|
        0 <= k < cur.workers.len() && 0 <= m1 < m2 < cur.workers[k].tasks.len() implies (
    #[trigger] cur.workers[k].tasks[m1]) != (#[trigger] cur.workers[k].tasks[m2]) by {
        let wv = cur.workers[k];
        assert(cur.workers.contains(wv));
        assert(prev.workers.contains(wv));
        let kp = choose|kp: int| 0 <= kp < prev.workers.len() && prev.workers[kp] == wv;
        assert(prev.workers[kp].tasks[m1] != prev.workers[kp].tasks[m2]);
    }
}

/// Law: task assignment is exclusive. Once one caller has successfully
/// assigned a pending task to a worker — the state change `assign_task`
/// promises on success — any racing caller's attempt to assign the same
/// task (to any worker) finds it no longer `Pending`, so by `assign_task`'s
/// contract that caller is answered `false` and neither registry is
/// mutated: of two racing callers, exactly one succeeds.
pub proof fn lemma_assign_exclusive(
    c: CoordinatorView,
    task_id: Seq<char>,
    w1: Seq<char>,
)
    requires
        c.wf(),
        has_task(c.tasks, task_id),
        c.tasks[task_index(c.tasks, task_id)].status == TaskStatus::Pending,
        has_worker(c.workers, w1),
    ensures
        ({
            let j = task_index(c.tasks, task_id);
            let k = worker_index(c.workers, w1);
            let after = CoordinatorView {
                tasks: c.tasks.update(
                    j,
                    TaskView {
                        status: TaskStatus::InProgress,
                        worker_id: Some(w1),
                        ..c.tasks[j]
                    },
                ),
                workers: c.workers.update(
                    k,
                    WorkerView { tasks: c.workers[k].tasks.push(task_id), ..c.workers[k] },
                ),
                timeout_ms: c.timeout_ms,
            };
            &&& has_task(after.tasks, task_id)
            &&& after.tasks[task_index(after.tasks, task_id)].status != TaskStatus::Pending
        }),
{
    let j = task_index(c.tasks, task_id);
    let after_tasks = c.tasks.update(
        j,
        TaskView { status: TaskStatus::InProgress, worker_id: Some(w1), ..c.tasks[j] },
    );
    assert(0 <= j < c.tasks.len());
    assert(after_tasks[j].id == task_id);
    assert(tasks_unique(after_tasks)) by {
        assert(forall|i: int| 0 <= i < after_tasks.len() ==> (#[trigger] after_tasks[i]).id == c.tasks[i].id);
    }
    lemma_task_index_unique(after_tasks, task_id, j);
}

/// Law: the health sweep's verdicts, worker by worker. A worker whose
/// heartbeat is stale at `now_ms` does not survive the sweep, and every
/// task it owned is requeued: back to `Pending`, unbound, with exactly one
/// more retry on record (the counter saturates at its range's top). A
/// worker within the timeout survives, and its tasks are left untouched,
/// binding included.
pub proof fn lemma_health_sweep_verdicts(c: CoordinatorView, now_ms: u64, k: int, j: int)
    requires
        c.wf(),
        0 <= k < c.workers.len(),
        0 <= j < c.tasks.len(),
        c.tasks[j].worker_id == Some(c.workers[k].id),
    ensures
        worker_dead(c.workers[k], now_ms, c.timeout_ms) ==> !live_workers(
            c.workers,
            now_ms,
            c.timeout_ms,
        ).contains(c.workers[k]),
        !worker_dead(c.workers[k], now_ms, c.timeout_ms) ==> live_workers(
            c.workers,
            now_ms,
            c.timeout_ms,
        ).contains(c.workers[k]),
        worker_dead(c.workers[k], now_ms, c.timeout_ms) ==> sweep_task(
            c.workers,
            c.tasks[j],
            now_ms,
            c.timeout_ms,
        ) == requeued(c.tasks[j]),
        !worker_dead(c.workers[k], now_ms, c.timeout_ms) ==> sweep_task(
            c.workers,
            c.tasks[j],
            now_ms,
            c.timeout_ms,
        ) == c.tasks[j],
        c.tasks[j].retries < u32::MAX ==> requeued(c.tasks[j]).retries == c.tasks[j].retries + 1,
{
    lemma_worker_index_unique(c.workers, c.workers[k].id, k);
    if worker_dead(c.workers[k], now_ms, c.timeout_ms) {
        if live_workers(c.workers, now_ms, c.timeout_ms).contains(c.workers[k]) {
            lemma_live_workers_alive(c.workers, now_ms, c.timeout_ms);
            let live = live_workers(c.workers, now_ms, c.timeout_ms);
            let i = choose|i: int| 0 <= i < live.len() && live[i] == c.workers[k];
            assert(!worker_dead(live[i], now_ms, c.timeout_ms));
        }
    } else {
        lemma_live_workers_keeps(c.workers, now_ms, c.timeout_ms, k);
    }
}

/// Removing one entry keeps every other value present in a list.
proof fn lemma_remove_keeps_other_values(l: Seq<Seq<char>>, m: int, x: Seq<char>)
    requires
        0 <= m < l.len(),
        l.contains(x),
        x != l[m],
    ensures
        l.remove(m).contains(x),
{
    let i = choose|i: int| 0 <= i < l.len() && l[i] == x;
    l.remove_ensures(m);
    if i < m {
        assert(l.remove(m)[i] == x);
    } else {
        assert(l.remove(m)[i - 1] == x);
    }
}

/// Binding a pending task to an existing worker preserves the registry
/// invariant.
proof fn lemma_wf_after_assign(
    prev: CoordinatorView,
    cur: CoordinatorView,
    j: int,
    k: int,
    tid: Seq<char>,
    wid: Seq<char>,
)
    requires
        prev.wf(),
        0 <= j < prev.tasks.len(),
        prev.tasks[j].id == tid,
        prev.tasks[j].status == TaskStatus::Pending,
        0 <= k < prev.workers.len(),
        prev.workers[k].id == wid,
        cur.tasks == prev.tasks.update(
            j,
            TaskView { status: TaskStatus::InProgress, worker_id: Some(wid), ..prev.tasks[j] },
        ),
        cur.workers == prev.workers.update(
            k,
            WorkerView { tasks: prev.workers[k].tasks.push(tid), ..prev.workers[k] },
        ),
    ensures
        cur.wf(),
{
    assert(prev.tasks[j].worker_id is None);
    // The task was pending, so its identifier is in no worker's list.
    assert forall|m: int| 0 <= m < prev.workers[k].tasks.len() implies prev.workers[k].tasks[m]
        != tid by {
        if prev.workers[k].tasks[m] == tid {
            lemma_task_index_unique(prev.tasks, tid, j);
        }
    }
    assert forall|i1: int, i2: int| 0 <= i1 < i2 < cur.tasks.len() implies cur.tasks[i1].id
        != cur.tasks[i2].id by {
        assert(cur.tasks[i1].id == prev.tasks[i1].id);
        assert(cur.tasks[i2].id == prev.tasks[i2].id);
    }
    assert forall|i1: int, i2: int| 0 <= i1 < i2 < cur.workers.len() implies cur.workers[i1].id
        != cur.workers[i2].id by {
        assert(cur.workers[i1].id == prev.workers[i1].id);
        assert(cur.workers[i2].id == prev.workers[i2].id);
    }
    assert forall|i: int|
        0 <= i < cur.tasks.len() && (#[trigger] cur.tasks[i].worker_id) is Some implies {
        let w = cur.tasks[i].worker_id->0;
        &&& has_worker(cur.workers, w)
        &&& cur.workers[worker_index(cur.workers, w)].tasks.contains(cur.tasks[i].id)
    } by {
        let w = cur.tasks[i].worker_id->0;
        if i == j {
            lemma_worker_index_unique(cur.workers, wid, k);
            assert(cur.workers[k].tasks.last() == tid);
        } else {
            let kw = worker_index(prev.workers, w);
            assert(prev.workers[kw].id == w);
            lemma_worker_index_unique(cur.workers, w, kw);
            let l = prev.workers[kw].tasks;
            let mi = choose|mi: int| 0 <= mi < l.len() && l[mi] == prev.tasks[i].id;
            if kw == k {
                assert(cur.workers[kw].tasks[mi] == prev.tasks[i].id);
            } else {
                assert(cur.workers[kw].tasks[mi] == prev.tasks[i].id);
            }
        }
    }
    assert forall|kk: int, m: int|
        0 <= kk < cur.workers.len() && 0 <= m < cur.workers[kk].tasks.len() implies {
        let t = #[trigger] cur.workers[kk].tasks[m];
        &&& has_task(cur.tasks, t)
        &&& cur.tasks[task_index(cur.tasks, t)].worker_id == Some(cur.workers[kk].id)
        &&& cur.tasks[task_index(cur.tasks, t)].status == TaskStatus::InProgress
    } by {
        let t = cur.workers[kk].tasks[m];
        if kk == k && m == prev.workers[k].tasks.len() {
            assert(t == tid);
            lemma_task_index_unique(cur.tasks, tid, j);
        } else {
            assert(t == prev.workers[kk].tasks[m]);
            let ji = task_index(prev.tasks, t);
            assert(prev.tasks[ji].worker_id == Some(prev.workers[kk].id));
            assert(ji != j);
            lemma_task_index_unique(cur.tasks, t, ji);
        }
    }
    assert forall|kk: int, m1: int, m2: int|
        0 <= kk < cur.workers.len() && 0 <= m1 < m2 < cur.workers[kk].tasks.len() implies (
    #[trigger] cur.workers[kk].tasks[m1]) != (#[trigger] cur.workers[kk].tasks[m2]) by {
        if kk == k {
            let l = prev.workers[k].tasks;
            if m2 == l.len() {
                assert(cur.workers[kk].tasks[m1] == l[m1]);
                assert(cur.workers[kk].tasks[m2] == tid);
            } else {
                assert(cur.workers[kk].tasks[m1] == l[m1]);
                assert(cur.workers[kk].tasks[m2] == l[m2]);
            }
        }
    }
}

/// Clearing the status of a task that has no owning worker preserves the
/// registry invariant.
proof fn lemma_wf_after_status_clear(
    prev: CoordinatorView,
    cur: CoordinatorView,
    j: int,
    status: TaskStatus,
)
    requires
        prev.wf(),
        0 <= j < prev.tasks.len(),
        prev.tasks[j].worker_id is None,
        status != TaskStatus::InProgress,
        cur.tasks == prev.tasks.update(
            j,
            TaskView { status: status, worker_id: None, ..prev.tasks[j] },
        ),
        cur.workers == prev.workers,
    ensures
        cur.wf(),
{
    assert forall|i1: int, i2: int| 0 <= i1 < i2 < cur.tasks.len() implies cur.tasks[i1].id
        != cur.tasks[i2].id by {
        assert(cur.tasks[i1].id == prev.tasks[i1].id);
        assert(cur.tasks[i2].id == prev.tasks[i2].id);
    }
    assert forall|kk: int, m: int|
        0 <= kk < cur.workers.len() && 0 <= m < cur.workers[kk].tasks.len() implies {
        let t = #[trigger] cur.workers[kk].tasks[m];
        &&& has_task(cur.tasks, t)
        &&& cur.tasks[task_index(cur.tasks, t)].worker_id == Some(cur.workers[kk].id)
        &&& cur.tasks[task_index(cur.tasks, t)].status == TaskStatus::InProgress
    } by {
        let t = cur.workers[kk].tasks[m];
        assert(prev.workers[kk].tasks[m] == t);
        let ji = task_index(prev.tasks, t);
        assert(prev.tasks[ji].worker_id == Some(prev.workers[kk].id));
        assert(ji != j);
        lemma_task_index_unique(cur.tasks, t, ji);
    }
}

/// Moving a task out of `InProgress` — clearing its worker binding and
/// dropping it from the owner's task list — preserves the registry
/// invariant.
proof fn lemma_wf_after_status_unbind(
    prev: CoordinatorView,
    cur: CoordinatorView,
    j: int,
    k: int,
    m: int,
    status: TaskStatus,
)
    requires
        prev.wf(),
        0 <= j < prev.tasks.len(),
        prev.tasks[j].worker_id matches Some(w) && {
            &&& has_worker(prev.workers, w)
            &&& worker_index(prev.workers, w) == k
        },
        status != TaskStatus::InProgress,
        0 <= m < prev.workers[k].tasks.len(),
        prev.workers[k].tasks[m] == prev.tasks[j].id,
        cur.tasks == prev.tasks.update(
            j,
            TaskView { status: status, worker_id: None, ..prev.tasks[j] },
        ),
        cur.workers == prev.workers.update(
            k,
            WorkerView { tasks: prev.workers[k].tasks.remove(m), ..prev.workers[k] },
        ),
    ensures
        cur.wf(),
{
    let tid = prev.tasks[j].id;
    let l = prev.workers[k].tasks;
    l.remove_ensures(m);
    assert forall|i1: int, i2: int| 0 <= i1 < i2 < cur.tasks.len() implies cur.tasks[i1].id
        != cur.tasks[i2].id by {
        assert(cur.tasks[i1].id == prev.tasks[i1].id);
        assert(cur.tasks[i2].id == prev.tasks[i2].id);
    }
    assert forall|i1: int, i2: int| 0 <= i1 < i2 < cur.workers.len() implies cur.workers[i1].id
        != cur.workers[i2].id by {
        assert(cur.workers[i1].id == prev.workers[i1].id);
        assert(cur.workers[i2].id == prev.workers[i2].id);
    }
    // Other tasks keep their owner, whose (possibly shortened) list still
    // holds them.
    assert forall|i: int|
        0 <= i < cur.tasks.len() && (#[trigger] cur.tasks[i].worker_id) is Some implies {
        let w = cur.tasks[i].worker_id->0;
        &&& has_worker(cur.workers, w)
        &&& cur.workers[worker_index(cur.workers, w)].tasks.contains(cur.tasks[i].id)
    } by {
        assert(i != j);
        let w = prev.tasks[i].worker_id->0;
        let kw = worker_index(prev.workers, w);
        assert(prev.workers[kw].id == w);
        lemma_worker_index_unique(cur.workers, w, kw);
        if kw == k {
            assert(prev.tasks[i].id != tid) by {
                assert(prev.tasks[i].id == cur.tasks[i].id);
            }
            lemma_remove_keeps_other_values(l, m, prev.tasks[i].id);
        } else {
            assert(cur.workers[kw].tasks == prev.workers[kw].tasks);
        }
    }
    // Every remaining list entry names an in-progress task bound to its
    // worker.
    assert forall|kk: int, mm: int|
        0 <= kk < cur.workers.len() && 0 <= mm < cur.workers[kk].tasks.len() implies {
        let t = #[trigger] cur.workers[kk].tasks[mm];
        &&& has_task(cur.tasks, t)
        &&& cur.tasks[task_index(cur.tasks, t)].worker_id == Some(cur.workers[kk].id)
        &&& cur.tasks[task_index(cur.tasks, t)].status == TaskStatus::InProgress
    } by {
        let t = cur.workers[kk].tasks[mm];
        if kk == k {
            let mo: int = if mm < m {
                mm
            } else {
                mm + 1
            };
            assert(t == l[mo]);
            assert(t != tid);
            let ji = task_index(prev.tasks, t);
            assert(prev.tasks[ji].worker_id == Some(prev.workers[k].id));
            assert(ji != j);
            lemma_task_index_unique(cur.tasks, t, ji);
        } else {
            assert(t == prev.workers[kk].tasks[mm]);
            let ji = task_index(prev.tasks, t);
            assert(prev.tasks[ji].worker_id == Some(prev.workers[kk].id));
            assert(ji != j) by {
                if ji == j {
                    assert(prev.workers[kk].id != prev.workers[k].id);
                }
            }
            lemma_task_index_unique(cur.tasks, t, ji);
        }
    }
    // Lists stay duplicate-free after the removal.
    assert forall|kk: int, m1: int, m2: int|
        0 <= kk < cur.workers.len() && 0 <= m1 < m2 < cur.workers[kk].tasks.len() implies (
    #[trigger] cur.workers[kk].tasks[m1]) != (#[trigger] cur.workers[kk].tasks[m2]) by {
        if kk == k {
            let o1: int = if m1 < m {
                m1
            } else {
                m1 + 1
            };
            let o2: int = if m2 < m {
                m2
            } else {
                m2 + 1
            };
            assert(cur.workers[kk].tasks[m1] == l[o1]);
            assert(cur.workers[kk].tasks[m2] == l[o2]);
        }
    }
}

/// Appending a fresh `Pending` task preserves the registry invariant.
proof fn lemma_wf_after_task_push(prev: CoordinatorView, cur: CoordinatorView)
    requires
        prev.wf(),
        cur.workers == prev.workers,
        cur.tasks.len() == prev.tasks.len() + 1,
        forall|j: int| 0 <= j < prev.tasks.len() ==> cur.tasks[j] == prev.tasks[j],
        cur.tasks.last().status == TaskStatus::Pending,
        cur.tasks.last().worker_id is None,
        !has_task(prev.tasks, cur.tasks.last().id),
    ensures
        cur.wf(),
{
    let n = prev.tasks.len() as int;
    assert forall|i: int, j: int| 0 <= i < j < cur.tasks.len() implies cur.tasks[i].id
        != cur.tasks[j].id by {
        if j == n {
            assert(cur.tasks[i] == prev.tasks[i]);
            if cur.tasks[i].id == cur.tasks[n].id {
                assert(has_task(prev.tasks, cur.tasks.last().id));
            }
        }
    }
    assert forall|k: int, m: int|
        0 <= k < cur.workers.len() && 0 <= m < cur.workers[k].tasks.len() implies {
        let tid = #[trigger] cur.workers[k].tasks[m];
        &&& has_task(cur.tasks, tid)
        &&& cur.tasks[task_index(cur.tasks, tid)].worker_id == Some(cur.workers[k].id)
        &&& cur.tasks[task_index(cur.tasks, tid)].status == TaskStatus::InProgress
    } by {
        let tid = cur.workers[k].tasks[m];
        assert(has_task(prev.tasks, tid));
        let j = task_index(prev.tasks, tid);
        assert(prev.tasks[j].id == tid);
        lemma_task_index_unique(cur.tasks, tid, j);
    }
}

/// Appending a fresh worker with an empty task list preserves the registry
/// invariant.
proof fn lemma_wf_after_worker_push(prev: CoordinatorView, cur: CoordinatorView)
    requires
        prev.wf(),
        cur.tasks == prev.tasks,
        cur.workers.len() == prev.workers.len() + 1,
        forall|k: int| 0 <= k < prev.workers.len() ==> cur.workers[k] == prev.workers[k],
        cur.workers.last().tasks.len() == 0,
        !has_worker(prev.workers, cur.workers.last().id),
    ensures
        cur.wf(),
{
    let n = prev.workers.len() as int;
    assert forall|i: int, j: int| 0 <= i < j < cur.workers.len() implies cur.workers[i].id
        != cur.workers[j].id by {
        if j == n {
            assert(cur.workers[i] == prev.workers[i]);
            if cur.workers[i].id == cur.workers[n].id {
                assert(has_worker(prev.workers, cur.workers.last().id));
            }
        }
    }
    assert forall|j: int|
        0 <= j < cur.tasks.len() && (#[trigger] cur.tasks[j].worker_id) is Some implies {
        let w = cur.tasks[j].worker_id->0;
        &&& has_worker(cur.workers, w)
        &&& cur.workers[worker_index(cur.workers, w)].tasks.contains(cur.tasks[j].id)
    } by {
        let w = cur.tasks[j].worker_id->0;
        assert(has_worker(prev.workers, w));
        let k = worker_index(prev.workers, w);
        assert(prev.workers[k].id == w);
        lemma_worker_index_unique(cur.workers, w, k);
    }
}

/// Refreshing one worker's heartbeat preserves the registry invariant.
proof fn lemma_wf_after_heartbeat(prev: CoordinatorView, cur: CoordinatorView, k: int, now: u64)
    requires
        prev.wf(),
        cur.tasks == prev.tasks,
        0 <= k < prev.workers.len(),
        cur.workers == prev.workers.update(
            k,
            WorkerView { last_heartbeat: now, ..prev.workers[k] },
        ),
    ensures
        cur.wf(),
{
    assert(cur.workers.len() == prev.workers.len());
    assert forall|i: int| 0 <= i < cur.workers.len() implies #[trigger] cur.workers[i].id
        == prev.workers[i].id && cur.workers[i].tasks == prev.workers[i].tasks by {}
    assert forall|j: int|
        0 <= j < cur.tasks.len() && (#[trigger] cur.tasks[j].worker_id) is Some implies {
        let w = cur.tasks[j].worker_id->0;
        &&& has_worker(cur.workers, w)
        &&& cur.workers[worker_index(cur.workers, w)].tasks.contains(cur.tasks[j].id)
    } by {
        let w = prev.tasks[j].worker_id->0;
        let kw = worker_index(prev.workers, w);
        assert(prev.workers[kw].id == w);
        assert(cur.workers[kw].id == w);
        lemma_worker_index_unique(cur.workers, w, kw);
    }
    assert forall|kk: int, m: int|
        0 <= kk < cur.workers.len() && 0 <= m < cur.workers[kk].tasks.len() implies {
        let tid = #[trigger] cur.workers[kk].tasks[m];
        &&& has_task(cur.tasks, tid)
        &&& cur.tasks[task_index(cur.tasks, tid)].worker_id == Some(cur.workers[kk].id)
        &&& cur.tasks[task_index(cur.tasks, tid)].status == TaskStatus::InProgress
    } by {
        assert(cur.workers[kk].tasks == prev.workers[kk].tasks);
        assert(cur.workers[kk].id == prev.workers[kk].id);
    }
}

} // verus!
