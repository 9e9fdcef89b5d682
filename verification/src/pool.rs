//! Connection pools
//!
//! The pool manager owns the availability list and decides, one event at a
//! time, what becomes of the workers: whether one may be spawned, which one
//! takes the next request, and how an idle worker is talked into leaving.
//! It performs no I/O. Each of its operations takes what happened and
//! returns what is to be done about it, as a list of [`ManagerAction`]s for
//! the control loop to carry out.

use crate::avail_list::Availability;
use crate::avail_list::AvailabilityList;
use crate::avail_list::CursorAtKeyResult;
use crate::avail_list::lemma_admitted_valid;
use crate::avail_list::lemma_listed_tracked;
use crate::avail_list::lemma_new_entry_valid;
use crate::avail_list::lemma_removed_valid;
use crate::avail_list::lemma_unlisted_valid;
use std::collections::VecDeque;
use std::sync::Arc;
use vstd::prelude::*;

verus! {

/// What a pool can be asked to carry to a worker.
pub trait PoolRequest {

}

/// What a worker tells the manager about itself. The worker is named by its
/// identity: a name that has outlived its worker finds nothing.
#[derive(Clone, Copy, Debug, PartialEq, Eq, Structural)]
pub enum PoolManagerMessage {
    /// The worker can take a request again.
    WorkerAvailable(usize),
    /// The worker has shut down.
    WorkerShutdown(usize),
}

/// A worker's answer to a request to exit.
#[derive(Clone, Copy, Debug, PartialEq, Eq, Structural)]
pub enum ExitReply {
    /// The worker leaves.
    WillExit,
    /// The worker is busy and stays. No answer to a forced request.
    WillNotExit,
}

/// What the manager announces to whoever watches the pool.
#[derive(Clone, Copy, Debug, PartialEq, Eq, Structural)]
pub enum PoolEvent {
    /// A drained pool has lost its last worker.
    PoolEmpty,
    /// The pool has been told to exit.
    Exiting,
}

/// What the control loop is to do after an event.
#[derive(Clone, Copy, Debug, PartialEq, Eq, Structural)]
pub enum ManagerAction {
    /// Start a new worker.
    Spawn,
    /// Tell worker `to` that a newer worker has taken the top of the stack.
    NextWorkerCreated { to: usize },
    /// Tell worker `to` that the worker above it is gone and that it is the
    /// top of the stack now.
    NextWorkerExited { to: usize },
    /// Ask worker `to` to exit. A forced request takes no refusal.
    RequestExit { to: usize, force: bool },
    /// Join the task of `worker`, which is gone from the manager's books.
    Join { worker: usize },
    /// Announce `event`.
    Emit { event: PoolEvent },
    /// Acknowledge the drain commands received so far.
    AckDrain,
}

/// Whether a worker has been asked to exit and has not answered yet.
#[derive(Clone, Copy, Debug, PartialEq, Eq, Structural)]
pub enum Negotiation {
    /// No request is under way.
    Idle,
    /// A request is under way.
    Requested { force: bool },
}

/// One live worker as the manager's stack holds it.
#[derive(Clone, Copy, Debug, PartialEq, Eq, Structural)]
pub struct LiveWorker {
    /// The worker's identity.
    pub key: usize,
    /// The state of the exit negotiation with the worker.
    pub exit: Negotiation,
}

/// An event, as the model of the manager takes it.
pub enum ManagerInput<T> {
    /// The request queue was seen full.
    QueueFull,
    /// The control loop woke up on a posted hint.
    Wake,
    /// A started worker reports ready.
    WorkerReady { key: usize, shared: Arc<T> },
    /// A worker sent a message.
    Message { message: PoolManagerMessage },
    /// A request needs a worker.
    Assign,
    /// The control loop, or the worker itself, wants the worker to exit.
    RequestExit { key: usize, force: bool },
    /// A worker answered a request to exit.
    Reply { key: usize, reply: ExitReply },
    /// A worker's task ended on its own.
    WorkerFailed { key: usize },
    /// The operator wants the pool without workers.
    Drain,
    /// The operator wants the pool to exit.
    Exit { graceful: bool },
}

/// How often `action` stands in `actions`.
pub open spec fn occurrences(actions: Seq<ManagerAction>, action: ManagerAction) -> nat
    decreases actions.len(),
{
    if actions.len() == 0 {
        0
    } else {
        occurrences(actions.drop_last(), action) + (if actions.last() == action {
            1nat
        } else {
            0nat
        })
    }
}

/// Whether worker `key` is on `stack`.
pub open spec fn on_stack(stack: Seq<LiveWorker>, key: usize) -> bool {
    exists|i: int| 0 <= i < stack.len() && (#[trigger] stack[i]).key == key
}

/// The position of worker `key` on `stack`, where it is there.
pub open spec fn position_of(stack: Seq<LiveWorker>, key: usize) -> int {
    choose|i: int| 0 <= i < stack.len() && (#[trigger] stack[i]).key == key
}

/// The stack with a request to exit under way for every idle worker.
pub open spec fn all_asked(stack: Seq<LiveWorker>, force: bool) -> Seq<LiveWorker> {
    Seq::new(
        stack.len(),
        |i: int|
            if stack[i].exit == Negotiation::Idle {
                LiveWorker { key: stack[i].key, exit: Negotiation::Requested { force } }
            } else {
                stack[i]
            },
    )
}

/// The requests to exit that go to the idle workers of `stack`, from the
/// top of the stack down.
pub open spec fn requests(stack: Seq<LiveWorker>, force: bool) -> Seq<ManagerAction>
    decreases stack.len(),
{
    if stack.len() == 0 {
        Seq::empty()
    } else if stack[0].exit == Negotiation::Idle {
        requests(stack.drop_first(), force).push(
            ManagerAction::RequestExit { to: stack[0].key, force },
        )
    } else {
        requests(stack.drop_first(), force)
    }
}

/// The mathematical model of the pool manager.
pub struct Manager<T> {
    /// The availability list.
    pub workers: Availability<T>,
    /// The live workers in the order in which they reported ready. The last
    /// one is the top of the stack.
    pub stack: Seq<LiveWorker>,
    /// The number of workers that the pool may hold.
    pub max_workers: nat,
    /// Whether a hint that the queue is full waits for the control loop.
    pub wake_pending: bool,
    /// Whether the pool takes no new worker any more.
    pub draining: bool,
    /// Whether the requests to exit are forced.
    pub forcing: bool,
    /// Whether the pool has been told to exit.
    pub exiting: bool,
    /// Whether a drain command waits for its acknowledgement.
    pub ack_owed: bool,
    /// Whether `PoolEmpty` has been announced.
    pub announced: bool,
}

impl<T> Manager<T> {
    /// The manager of a pool that holds no worker yet.
    pub open spec fn initial(max_workers: nat) -> Self {
        Manager {
            workers: Availability::empty(),
            stack: Seq::empty(),
            max_workers,
            wake_pending: false,
            draining: false,
            forcing: false,
            exiting: false,
            ack_owed: false,
            announced: false,
        }
    }

    /// Whether worker `key` is on the stack.
    pub open spec fn knows(self, key: usize) -> bool {
        on_stack(self.stack, key)
    }

    /// The invariant of the manager.
    pub open spec fn wf(self) -> bool {
        &&& self.workers.valid()
        &&& forall|i: int, j: int|
            0 <= i < j < self.stack.len() ==> (#[trigger] self.stack[i]).key != (
            #[trigger] self.stack[j]).key
        &&& forall|i: int|
            0 <= i < self.stack.len() ==> self.workers.tracks((#[trigger] self.stack[i]).key)
        &&& forall|key: usize| #[trigger] self.workers.tracks(key) ==> self.knows(key)
        &&& self.stack.len() <= self.max_workers
        &&& self.draining ==> (self.announced <==> self.stack.len() == 0)
        &&& !self.draining ==> !self.announced && !self.forcing && !self.exiting
        &&& self.ack_owed ==> self.draining && !self.announced
        &&& self.forcing ==> self.workers.order.len() == 0
        &&& forall|i: int|
            0 <= i < self.stack.len() && (#[trigger] self.stack[i]).exit == (
            Negotiation::Requested { force: true }) ==> !self.workers.lists(self.stack[i].key)
    }

    /// The admission flag: whether the pool may take one more worker.
    pub open spec fn may_spawn(self) -> bool {
        !self.draining && self.stack.len() < self.max_workers
    }

    /// The queue was seen full: a hint is posted if the pool may spawn and
    /// none is waiting. Returns the manager and whether to post.
    pub open spec fn queue_full(self) -> (Self, bool) {
        (
            Manager { wake_pending: self.wake_pending || self.may_spawn(), ..self },
            self.may_spawn() && !self.wake_pending,
        )
    }

    /// The control loop woke up: the hint is taken, and a worker is spawned
    /// if the pool may still spawn.
    pub open spec fn wake(self) -> (Self, Seq<ManagerAction>) {
        (
            Manager { wake_pending: false, ..self },
            if self.may_spawn() {
                seq![ManagerAction::Spawn]
            } else {
                Seq::empty()
            },
        )
    }

    /// A started worker reports ready. A pool that may spawn takes it as
    /// the new top of the stack and the front of the order, and tells the
    /// old top. A pool that may not sends it away. A worker that is known
    /// already changes nothing.
    pub open spec fn worker_ready(self, key: usize, shared: Arc<T>) -> (Self, Seq<ManagerAction>) {
        if self.workers.tracks(key) {
            (self, Seq::empty())
        } else if !self.may_spawn() {
            (self, seq![ManagerAction::RequestExit { to: key, force: true }])
        } else {
            (
                Manager {
                    workers: self.workers.with_entry(key, shared).with_front(key),
                    stack: self.stack.push(LiveWorker { key, exit: Negotiation::Idle }),
                    ..self
                },
                if self.stack.len() > 0 {
                    seq![ManagerAction::NextWorkerCreated { to: self.stack.last().key }]
                } else {
                    Seq::empty()
                },
            )
        }
    }

    /// A worker reports that it can take a request again: it goes to the
    /// front of the order unless it stands there already. In a draining
    /// pool a worker with no request to exit under way is asked to exit.
    /// A worker that is not known changes nothing, and neither does one
    /// that is being forced to exit, alone or with the whole pool.
    pub open spec fn worker_available(self, key: usize) -> (Self, Seq<ManagerAction>) {
        let at = position_of(self.stack, key);
        if !self.workers.tracks(key) || self.forcing || self.stack[at].exit == (
        Negotiation::Requested { force: true }) {
            (self, Seq::empty())
        } else {
            let workers = self.workers.push_front_existing(key);
            if self.draining && self.stack[at].exit == Negotiation::Idle {
                (
                    Manager {
                        workers,
                        stack: self.stack.update(
                            at,
                            LiveWorker { key, exit: Negotiation::Requested { force: false } },
                        ),
                        ..self
                    },
                    seq![ManagerAction::RequestExit { to: key, force: false }],
                )
            } else {
                (Manager { workers, ..self }, Seq::empty())
            }
        }
    }

    /// A request needs a worker: the worker at the front of the order
    /// leaves the order and stays in the index. Returns the manager and the
    /// worker, if there is one.
    pub open spec fn assign(self) -> (Self, Option<usize>) {
        if self.workers.order.len() == 0 {
            (self, None)
        } else {
            (
                Manager { workers: self.workers.without_position(0), ..self },
                Some(self.workers.order.first()),
            )
        }
    }

    /// A known worker with no request to exit under way is asked to exit.
    /// The index keeps it. It keeps its place in the order too, unless the
    /// request is forced: a worker that is forced to exit leaves the order,
    /// so that no request is handed to it any more.
    pub open spec fn request_exit(self, key: usize, force: bool) -> (Self, Seq<ManagerAction>) {
        let at = position_of(self.stack, key);
        if self.workers.tracks(key) && self.stack[at].exit == Negotiation::Idle {
            (
                Manager {
                    workers: if force {
                        self.workers.without_listing(key)
                    } else {
                        self.workers
                    },
                    stack: self.stack.update(
                        at,
                        LiveWorker { key, exit: Negotiation::Requested { force } },
                    ),
                    ..self
                },
                seq![ManagerAction::RequestExit { to: key, force }],
            )
        } else {
            (self, Seq::empty())
        }
    }

    /// A known worker leaves the books: the index, the order and the stack.
    /// Its task is joined. If it was the top of the stack, the worker below
    /// is told. If it was the last worker of a draining pool, the pool is
    /// announced empty and the drain acknowledged.
    pub open spec fn retire(self, key: usize) -> (Self, Seq<ManagerAction>) {
        if !self.workers.tracks(key) {
            (self, Seq::empty())
        } else {
            let at = position_of(self.stack, key);
            let stack = self.stack.remove(at);
            let done = self.draining && stack.len() == 0;
            (
                Manager {
                    workers: self.workers.without(key),
                    stack,
                    announced: self.announced || done,
                    ack_owed: self.ack_owed && !done,
                    ..self
                },
                seq![ManagerAction::Join { worker: key }] + (if at == self.stack.len() - 1
                    && stack.len() > 0 {
                    seq![ManagerAction::NextWorkerExited { to: stack.last().key }]
                } else {
                    Seq::empty()
                }) + (if done {
                    seq![ManagerAction::Emit { event: PoolEvent::PoolEmpty }]
                } else {
                    Seq::empty()
                }) + (if done && self.ack_owed {
                    seq![ManagerAction::AckDrain]
                } else {
                    Seq::empty()
                }),
            )
        }
    }

    /// A worker answers a request to exit. With `WillExit`, and with any
    /// answer to a forced request, the worker is retired. With
    /// `WillNotExit` to a request that was not forced the worker stays as
    /// it was before the request; if the pool forces exits by now, it is
    /// asked again at once, by force. An answer without a request changes
    /// nothing.
    pub open spec fn reply(self, key: usize, reply: ExitReply) -> (Self, Seq<ManagerAction>) {
        let at = position_of(self.stack, key);
        if !self.workers.tracks(key) {
            (self, Seq::empty())
        } else {
            match self.stack[at].exit {
                Negotiation::Idle => (self, Seq::empty()),
                Negotiation::Requested { force } => {
                    if force || reply == ExitReply::WillExit {
                        self.retire(key)
                    } else if self.forcing {
                        (
                            Manager {
                                stack: self.stack.update(
                                    at,
                                    LiveWorker { key, exit: Negotiation::Requested { force: true } },
                                ),
                                ..self
                            },
                            seq![ManagerAction::RequestExit { to: key, force: true }],
                        )
                    } else {
                        (
                            Manager {
                                stack: self.stack.update(
                                    at,
                                    LiveWorker { key, exit: Negotiation::Idle },
                                ),
                                ..self
                            },
                            Seq::empty(),
                        )
                    }
                },
            }
        }
    }

    /// A worker's message: availability, or a shutdown, which retires it.
    pub open spec fn message(self, message: PoolManagerMessage) -> (Self, Seq<ManagerAction>) {
        match message {
            PoolManagerMessage::WorkerAvailable(key) => self.worker_available(key),
            PoolManagerMessage::WorkerShutdown(key) => self.retire(key),
        }
    }

    /// The pool stops taking workers and asks every worker with no request
    /// under way to exit, from the top of the stack down; `first` stands
    /// before those requests. If the requests are forced, every worker
    /// leaves the order, so that no request is handed out any more. A pool
    /// that holds no worker is announced empty, unless it has been.
    pub open spec fn wind_down(self, first: Seq<ManagerAction>, forcing: bool, exiting: bool, ack: bool) -> (
        Self,
        Seq<ManagerAction>,
    ) {
        let done = self.stack.len() == 0;
        (
            Manager {
                workers: if forcing {
                    self.workers.without_order()
                } else {
                    self.workers
                },
                stack: all_asked(self.stack, forcing),
                draining: true,
                forcing,
                exiting,
                announced: done,
                ack_owed: (self.ack_owed || ack) && !done,
                ..self
            },
            first + requests(self.stack, forcing) + (if done && !self.announced {
                seq![ManagerAction::Emit { event: PoolEvent::PoolEmpty }]
            } else {
                Seq::empty()
            }) + (if done && ack {
                seq![ManagerAction::AckDrain]
            } else {
                Seq::empty()
            }),
        )
    }

    /// The operator wants the pool without workers: see
    /// [`Manager::wind_down`]. The command is acknowledged when the last
    /// worker is gone: at once, if there is none.
    pub open spec fn drain(self) -> (Self, Seq<ManagerAction>) {
        self.wind_down(Seq::empty(), self.forcing, self.exiting, true)
    }

    /// The operator wants the pool to exit. The first such command is
    /// announced. The pool then winds down as for a drain; unless the exit
    /// is graceful, requests to exit are forced from now on.
    pub open spec fn exit(self, graceful: bool) -> (Self, Seq<ManagerAction>) {
        self.wind_down(
            if self.exiting {
                Seq::empty()
            } else {
                seq![ManagerAction::Emit { event: PoolEvent::Exiting }]
            },
            self.forcing || !graceful,
            true,
            false,
        )
    }

    /// The manager after one event, and what the control loop is to do.
    pub open spec fn step(self, input: ManagerInput<T>) -> (Self, Seq<ManagerAction>) {
        match input {
            ManagerInput::QueueFull => (self.queue_full().0, Seq::empty()),
            ManagerInput::Wake => self.wake(),
            ManagerInput::WorkerReady { key, shared } => self.worker_ready(key, shared),
            ManagerInput::Message { message } => self.message(message),
            ManagerInput::Assign => (self.assign().0, Seq::empty()),
            ManagerInput::RequestExit { key, force } => self.request_exit(key, force),
            ManagerInput::Reply { key, reply } => self.reply(key, reply),
            ManagerInput::WorkerFailed { key } => self.retire(key),
            ManagerInput::Drain => self.drain(),
            ManagerInput::Exit { graceful } => self.exit(graceful),
        }
    }

    /// The manager after a run of events, and all that the control loop was
    /// told to do, in order.
    pub open spec fn run(self, inputs: Seq<ManagerInput<T>>) -> (Self, Seq<ManagerAction>)
        decreases inputs.len(),
    {
        if inputs.len() == 0 {
            (self, Seq::empty())
        } else {
            let before = self.run(inputs.drop_last());
            let last = before.0.step(inputs.last());
            (last.0, before.1 + last.1)
        }
    }
}

/// Where a worker is on a stack of distinct workers.
pub proof fn lemma_position_of(stack: Seq<LiveWorker>, at: int)
    requires
        0 <= at < stack.len(),
        forall|i: int, j: int|
            0 <= i < j < stack.len() ==> (#[trigger] stack[i]).key != (#[trigger] stack[j]).key,
    ensures
        on_stack(stack, stack[at].key),
        position_of(stack, stack[at].key) == at,
{
    let key = stack[at].key;
    let found = position_of(stack, key);
    assert(0 <= found < stack.len() && stack[found].key == key);
    if found < at {
        assert(stack[found].key != stack[at].key);
    }
    if at < found {
        assert(stack[at].key != stack[found].key);
    }
}

/// The occurrences in two runs of actions add up.
pub proof fn lemma_occurrences_add(
    first: Seq<ManagerAction>,
    second: Seq<ManagerAction>,
    action: ManagerAction,
)
    ensures
        occurrences(first + second, action) == occurrences(first, action) + occurrences(
            second,
            action,
        ),
    decreases second.len(),
{
    if second.len() == 0 {
        assert(first + second =~= first);
    } else {
        assert((first + second).drop_last() =~= first + second.drop_last());
        lemma_occurrences_add(first, second.drop_last(), action);
    }
}

/// The requests that wind a pool down announce nothing.
pub proof fn lemma_requests_announce_nothing(stack: Seq<LiveWorker>, force: bool, event: PoolEvent)
    ensures
        occurrences(requests(stack, force), ManagerAction::Emit { event }) == 0,
    decreases stack.len(),
{
    if stack.len() > 0 {
        lemma_requests_announce_nothing(stack.drop_first(), force, event);
        if stack[0].exit == Negotiation::Idle {
            assert(requests(stack, force).drop_last() =~= requests(stack.drop_first(), force));
        }
    }
}

impl<T> Manager<T> {
    /// Changing what is known of the exit negotiation with one worker keeps
    /// the invariant, as long as a worker that is forced to exit is not in
    /// the order.
    proof fn lemma_negotiation_wf(self, at: int, exit: Negotiation)
        requires
            self.wf(),
            0 <= at < self.stack.len(),
            exit == (Negotiation::Requested { force: true }) ==> !self.workers.lists(
                self.stack[at].key,
            ),
        ensures
            (Manager {
                stack: self.stack.update(at, LiveWorker { key: self.stack[at].key, exit }),
                ..self
            }).wf(),
    {
        let next = Manager {
            stack: self.stack.update(at, LiveWorker { key: self.stack[at].key, exit }),
            ..self
        };
        assert forall|i: int| 0 <= i < next.stack.len() implies (#[trigger] next.stack[i]).key
            == self.stack[i].key by {}
        assert forall|key: usize| #[trigger] next.workers.tracks(key) implies next.knows(key) by {
            assert(self.knows(key));
            let i = position_of(self.stack, key);
            assert(next.stack[i].key == key);
        }
        assert forall|i: int|
            0 <= i < next.stack.len() && (#[trigger] next.stack[i]).exit == (
            Negotiation::Requested { force: true }) implies !next.workers.lists(
            next.stack[i].key,
        ) by {
            if i != at {
                assert(next.stack[i] == self.stack[i]);
            }
        }
    }

    /// Changing who stands in the order keeps the invariant, as long as the
    /// order holds workers of the index only, each once, none that is
    /// forced to exit, and none at all while the pool forces exits.
    proof fn lemma_order_wf(self, workers: Availability<T>)
        requires
            self.wf(),
            workers.valid(),
            workers.index == self.workers.index,
            self.forcing ==> workers.order.len() == 0,
            forall|i: int|
                0 <= i < self.stack.len() && (#[trigger] self.stack[i]).exit == (
                Negotiation::Requested { force: true }) ==> !workers.lists(self.stack[i].key),
        ensures
            (Manager { workers, ..self }).wf(),
    {
        let next = Manager { workers, ..self };
        assert forall|key: usize| #[trigger] next.workers.tracks(key) implies next.knows(key) by {
            assert(self.workers.tracks(key));
            assert(self.knows(key));
        }
        assert forall|i: int| 0 <= i < next.stack.len() implies next.workers.tracks(
            (#[trigger] next.stack[i]).key,
        ) by {
            assert(self.workers.tracks(self.stack[i].key));
        }
    }

    /// Retiring a worker keeps the invariant. It announces the pool empty
    /// exactly if the worker was the last one of a draining pool.
    proof fn lemma_retire(self, key: usize)
        requires
            self.wf(),
        ensures
            self.retire(key).0.wf(),
            self.retire(key).0.draining == self.draining,
            occurrences(self.retire(key).1, ManagerAction::Emit { event: PoolEvent::PoolEmpty })
                == (if self.retire(key).0.announced && !self.announced {
                1nat
            } else {
                0nat
            }),
    {
        let empty = ManagerAction::Emit { event: PoolEvent::PoolEmpty };
        if self.workers.tracks(key) {
            let next = self.retire(key).0;
            let at = position_of(self.stack, key);
            assert(self.knows(key));
            lemma_removed_valid(self.workers, key);
            assert forall|i: int| 0 <= i < next.stack.len() implies next.workers.tracks(
                (#[trigger] next.stack[i]).key,
            ) && next.stack[i].key != key by {
                let a = if i < at {
                    i
                } else {
                    i + 1
                };
                assert(next.stack[i] == self.stack[a]);
                assert(self.workers.tracks(self.stack[a].key));
                if a < at {
                    assert(self.stack[a].key != self.stack[at].key);
                } else {
                    assert(self.stack[at].key != self.stack[a].key);
                }
            }
            assert forall|i: int, j: int| 0 <= i < j < next.stack.len() implies (
            #[trigger] next.stack[i]).key != (#[trigger] next.stack[j]).key by {
                let a = if i < at {
                    i
                } else {
                    i + 1
                };
                let b = if j < at {
                    j
                } else {
                    j + 1
                };
                assert(next.stack[i] == self.stack[a]);
                assert(next.stack[j] == self.stack[b]);
            }
            assert forall|other: usize| #[trigger] next.workers.tracks(other) implies next.knows(
                other,
            ) by {
                assert(self.workers.tracks(other));
                assert(self.knows(other));
                let a = position_of(self.stack, other);
                let i = if a < at {
                    a
                } else {
                    a - 1
                };
                assert(next.stack[i] == self.stack[a]);
            }
            let join = seq![ManagerAction::Join { worker: key }];
            let told = if at == self.stack.len() - 1 && next.stack.len() > 0 {
                seq![ManagerAction::NextWorkerExited { to: next.stack.last().key }]
            } else {
                Seq::empty()
            };
            let done = self.draining && next.stack.len() == 0;
            let announce = if done {
                seq![empty]
            } else {
                Seq::empty()
            };
            let ack = if done && self.ack_owed {
                seq![ManagerAction::AckDrain]
            } else {
                Seq::empty()
            };
            assert(self.retire(key).1 == join + told + announce + ack);
            lemma_occurrences_add(join + told + announce, ack, empty);
            lemma_occurrences_add(join + told, announce, empty);
            lemma_occurrences_add(join, told, empty);
            lemma_occurrences_one(ManagerAction::Join { worker: key }, empty);
            if told.len() > 0 {
                lemma_occurrences_one(told[0], empty);
            }
            if done {
                lemma_occurrences_one(empty, empty);
            }
            if ack.len() > 0 {
                lemma_occurrences_one(ManagerAction::AckDrain, empty);
            }
        }
    }

    /// Winding down keeps the invariant. It announces the pool empty
    /// exactly if the pool holds no worker and has not been announced
    /// empty before.
    proof fn lemma_wind_down(self, first: Seq<ManagerAction>, forcing: bool, exiting: bool, ack: bool)
        requires
            self.wf(),
            occurrences(first, ManagerAction::Emit { event: PoolEvent::PoolEmpty }) == 0,
        ensures
            self.wind_down(first, forcing, exiting, ack).0.wf(),
            self.wind_down(first, forcing, exiting, ack).0.draining,
            occurrences(
                self.wind_down(first, forcing, exiting, ack).1,
                ManagerAction::Emit { event: PoolEvent::PoolEmpty },
            ) == (if self.wind_down(first, forcing, exiting, ack).0.announced && !self.announced {
                1nat
            } else {
                0nat
            }),
    {
        let empty = ManagerAction::Emit { event: PoolEvent::PoolEmpty };
        let next = self.wind_down(first, forcing, exiting, ack).0;
        assert forall|i: int| 0 <= i < next.stack.len() implies (#[trigger] next.stack[i]).key
            == self.stack[i].key by {}
        assert forall|key: usize| #[trigger] next.workers.tracks(key) implies next.knows(key) by {
            assert(self.workers.tracks(key));
            assert(self.knows(key));
            let i = position_of(self.stack, key);
            assert(next.stack[i].key == key);
        }
        assert forall|i: int| 0 <= i < next.stack.len() implies next.workers.tracks(
            (#[trigger] next.stack[i]).key,
        ) by {
            assert(self.workers.tracks(self.stack[i].key));
        }
        assert forall|i: int|
            0 <= i < next.stack.len() && (#[trigger] next.stack[i]).exit == (
            Negotiation::Requested { force: true }) implies !next.workers.lists(
            next.stack[i].key,
        ) by {
            if !forcing {
                assert(self.stack[i].exit == Negotiation::Requested { force: true });
            }
        }
        let done = self.stack.len() == 0;
        let asked = requests(self.stack, forcing);
        let announce = if done && !self.announced {
            seq![empty]
        } else {
            Seq::empty()
        };
        let acked = if done && ack {
            seq![ManagerAction::AckDrain]
        } else {
            Seq::empty()
        };
        assert(self.wind_down(first, forcing, exiting, ack).1 == first + asked + announce + acked);
        lemma_requests_announce_nothing(self.stack, forcing, PoolEvent::PoolEmpty);
        lemma_occurrences_add(first + asked + announce, acked, empty);
        lemma_occurrences_add(first + asked, announce, empty);
        lemma_occurrences_add(first, asked, empty);
        if announce.len() > 0 {
            lemma_occurrences_one(empty, empty);
        }
        if acked.len() > 0 {
            lemma_occurrences_one(ManagerAction::AckDrain, empty);
        }
    }

    /// Every event keeps the invariant of the manager, and with it the
    /// invariant of the availability list: whatever stands in the order is
    /// in the index. `PoolEmpty` is announced by the event that takes the
    /// last worker from a draining pool, or that starts to drain a pool
    /// without workers, and by no other.
    pub proof fn lemma_step(self, input: ManagerInput<T>)
        requires
            self.wf(),
        ensures
            self.step(input).0.wf(),
            self.draining ==> self.step(input).0.draining,
            self.step(input).0.max_workers == self.max_workers,
            occurrences(self.step(input).1, ManagerAction::Emit { event: PoolEvent::PoolEmpty })
                == (if self.step(input).0.announced && !self.announced {
                1nat
            } else {
                0nat
            }),
    {
        let empty = ManagerAction::Emit { event: PoolEvent::PoolEmpty };
        let next = self.step(input).0;
        match input {
            ManagerInput::QueueFull => {
                assert(next.stack == self.stack);
                assert forall|key: usize| #[trigger] next.workers.tracks(key) implies next.knows(
                    key,
                ) by {
                    assert(self.knows(key));
                }
            },
            ManagerInput::Wake => {
                assert(next.stack == self.stack);
                assert forall|key: usize| #[trigger] next.workers.tracks(key) implies next.knows(
                    key,
                ) by {
                    assert(self.knows(key));
                }
                if self.may_spawn() {
                    lemma_occurrences_one(ManagerAction::Spawn, empty);
                }
            },
            ManagerInput::WorkerReady { key, shared } => {
                if self.workers.tracks(key) {
                } else if !self.may_spawn() {
                    lemma_occurrences_one(ManagerAction::RequestExit { to: key, force: true }, empty);
                } else {
                    lemma_new_entry_valid(self.workers, key, shared);
                    assert forall|i: int| 0 <= i < self.stack.len() implies (
                    #[trigger] next.stack[i]) == self.stack[i] && self.stack[i].key != key by {
                        assert(self.workers.tracks(self.stack[i].key));
                    }
                    assert forall|other: usize| #[trigger]
                        next.workers.tracks(other) implies next.knows(other) by {
                        if other == key {
                            assert(next.stack[self.stack.len() as int].key == key);
                        } else {
                            assert(self.workers.tracks(other));
                            assert(self.knows(other));
                            let i = position_of(self.stack, other);
                            assert(next.stack[i].key == other);
                        }
                    }
                    if self.stack.len() > 0 {
                        lemma_occurrences_one(
                            ManagerAction::NextWorkerCreated { to: self.stack.last().key },
                            empty,
                        );
                    }
                }
            },
            ManagerInput::Message { message } => {
                match message {
                    PoolManagerMessage::WorkerAvailable(key) => {
                        self.lemma_worker_available(key);
                    },
                    PoolManagerMessage::WorkerShutdown(key) => {
                        self.lemma_retire(key);
                    },
                }
            },
            ManagerInput::Assign => {
                assert(next.stack == self.stack);
                assert forall|key: usize| #[trigger] next.workers.tracks(key) implies next.knows(
                    key,
                ) by {
                    assert(self.workers.tracks(key));
                    assert(self.knows(key));
                }
                if self.workers.order.len() > 0 {
                    lemma_unlisted_valid(self.workers, 0);
                    let key = self.workers.order[0];
                    assert forall|i: int|
                        0 <= i < next.stack.len() && (#[trigger] next.stack[i]).exit == (
                        Negotiation::Requested { force: true }) implies !next.workers.lists(
                        next.stack[i].key,
                    ) by {
                        assert(!self.workers.lists(self.stack[i].key));
                    }
                }
            },
            ManagerInput::RequestExit { key, force } => {
                if self.workers.tracks(key) {
                    assert(self.knows(key));
                    let at = position_of(self.stack, key);
                    let unlisted = self.lemma_unlisted(key, force);
                    unlisted.lemma_negotiation_wf(at, Negotiation::Requested { force });
                    lemma_occurrences_one(ManagerAction::RequestExit { to: key, force }, empty);
                }
            },
            ManagerInput::Reply { key, reply } => {
                self.lemma_reply(key, reply);
            },
            ManagerInput::WorkerFailed { key } => {
                self.lemma_retire(key);
            },
            ManagerInput::Drain => {
                self.lemma_wind_down(Seq::empty(), self.forcing, self.exiting, true);
            },
            ManagerInput::Exit { graceful } => {
                let first = if self.exiting {
                    Seq::empty()
                } else {
                    seq![ManagerAction::Emit { event: PoolEvent::Exiting }]
                };
                if !self.exiting {
                    lemma_occurrences_one(ManagerAction::Emit { event: PoolEvent::Exiting }, empty);
                }
                self.lemma_wind_down(first, self.forcing || !graceful, true, false);
            },
        }
    }

    /// Taking a worker out of the order, if `unlist` says so, keeps the
    /// invariant. Returns the manager with the worker out of the order.
    proof fn lemma_unlisted(self, key: usize, unlist: bool) -> (next: Self)
        requires
            self.wf(),
        ensures
            next.wf(),
            next == (Manager {
                workers: if unlist {
                    self.workers.without_listing(key)
                } else {
                    self.workers
                },
                ..self
            }),
            unlist ==> !next.workers.lists(key),
    {
        let workers = if unlist {
            self.workers.without_listing(key)
        } else {
            self.workers
        };
        if unlist && self.workers.lists(key) {
            let position = self.workers.order.index_of(key);
            lemma_unlisted_valid(self.workers, position);
            assert forall|i: int|
                0 <= i < self.stack.len() && (#[trigger] self.stack[i]).exit == (
                Negotiation::Requested { force: true }) implies !workers.lists(
                self.stack[i].key,
            ) by {
                assert(!self.workers.lists(self.stack[i].key));
            }
        }
        self.lemma_order_wf(workers);
        Manager { workers, ..self }
    }

    proof fn lemma_worker_available(self, key: usize)
        requires
            self.wf(),
        ensures
            self.worker_available(key).0.wf(),
            self.worker_available(key).0.draining == self.draining,
            self.worker_available(key).0.announced == self.announced,
            occurrences(
                self.worker_available(key).1,
                ManagerAction::Emit { event: PoolEvent::PoolEmpty },
            ) == 0,
    {
        let empty = ManagerAction::Emit { event: PoolEvent::PoolEmpty };
        let at = position_of(self.stack, key);
        if self.workers.tracks(key) && !self.forcing && self.stack[at].exit != (
        Negotiation::Requested { force: true }) {
            assert(self.knows(key));
            let workers = self.workers.push_front_existing(key);
            if !self.workers.lists(key) {
                lemma_admitted_valid(self.workers, key);
                assert forall|i: int|
                    0 <= i < self.stack.len() && (#[trigger] self.stack[i]).exit == (
                    Negotiation::Requested { force: true }) implies !workers.lists(
                    self.stack[i].key,
                ) by {
                    assert(!self.workers.lists(self.stack[i].key));
                    if self.stack[i].key == key {
                        lemma_position_of(self.stack, i);
                    }
                    lemma_front_order(self.workers.order, key, self.stack[i].key);
                }
            }
            self.lemma_order_wf(workers);
            let listed = Manager { workers, ..self };
            if self.draining && self.stack[at].exit == Negotiation::Idle {
                listed.lemma_negotiation_wf(at, Negotiation::Requested { force: false });
                lemma_occurrences_one(ManagerAction::RequestExit { to: key, force: false }, empty);
            }
        }
    }

    proof fn lemma_reply(self, key: usize, reply: ExitReply)
        requires
            self.wf(),
        ensures
            self.reply(key, reply).0.wf(),
            self.reply(key, reply).0.draining == self.draining,
            occurrences(self.reply(key, reply).1, ManagerAction::Emit { event: PoolEvent::PoolEmpty })
                == (if self.reply(key, reply).0.announced && !self.announced {
                1nat
            } else {
                0nat
            }),
    {
        let empty = ManagerAction::Emit { event: PoolEvent::PoolEmpty };
        if self.workers.tracks(key) {
            assert(self.knows(key));
            let at = position_of(self.stack, key);
            match self.stack[at].exit {
                Negotiation::Idle => {},
                Negotiation::Requested { force } => {
                    if force || reply == ExitReply::WillExit {
                        self.lemma_retire(key);
                    } else if self.forcing {
                        assert(!self.workers.lists(key));
                        self.lemma_negotiation_wf(at, Negotiation::Requested { force: true });
                        lemma_occurrences_one(
                            ManagerAction::RequestExit { to: key, force: true },
                            empty,
                        );
                    } else {
                        self.lemma_negotiation_wf(at, Negotiation::Idle);
                    }
                },
            }
        }
    }

    /// Every run of events keeps the invariant. `PoolEmpty` is announced
    /// once in the run if the run leaves a pool announced empty that was
    /// not so before, and not at all otherwise.
    pub proof fn lemma_run(self, inputs: Seq<ManagerInput<T>>)
        requires
            self.wf(),
        ensures
            self.run(inputs).0.wf(),
            self.draining ==> self.run(inputs).0.draining,
            self.announced ==> self.run(inputs).0.announced,
            occurrences(self.run(inputs).1, ManagerAction::Emit { event: PoolEvent::PoolEmpty })
                == (if self.run(inputs).0.announced && !self.announced {
                1nat
            } else {
                0nat
            }),
        decreases inputs.len(),
    {
        if inputs.len() > 0 {
            let before = self.run(inputs.drop_last());
            self.lemma_run(inputs.drop_last());
            before.0.lemma_step(inputs.last());
            lemma_occurrences_add(
                before.1,
                before.0.step(inputs.last()).1,
                ManagerAction::Emit { event: PoolEvent::PoolEmpty },
            );
        }
    }

    /// A worker that answers `WillNotExit` to a request that was not forced
    /// is in the index as before, and stands in the order, or does not, as
    /// it did before the request: the availability list is what it was.
    pub proof fn lemma_refusal_keeps_worker(self, key: usize)
        requires
            self.wf(),
            self.workers.tracks(key),
            self.stack[position_of(self.stack, key)].exit == Negotiation::Idle,
        ensures
            self.request_exit(key, false).1 == seq![
                ManagerAction::RequestExit { to: key, force: false },
            ],
            self.request_exit(key, false).0.workers == self.workers,
            self.request_exit(key, false).0.reply(key, ExitReply::WillNotExit).0.workers
                == self.workers,
            self.request_exit(key, false).0.reply(key, ExitReply::WillNotExit).0.workers.tracks(key),
            self.request_exit(key, false).0.reply(key, ExitReply::WillNotExit).0.workers.lists(key)
                == self.workers.lists(key),
            !self.forcing ==> self.request_exit(key, false).0.reply(key, ExitReply::WillNotExit).0
                == self,
    {
        assert(self.knows(key));
        let at = position_of(self.stack, key);
        let asked = self.request_exit(key, false).0;
        assert(asked.stack[at].key == key);
        self.lemma_negotiation_wf(at, Negotiation::Requested { force: false });
        lemma_position_of(asked.stack, at);
        assert(asked.stack[at].exit == Negotiation::Requested { force: false });
        if !self.forcing {
            let back = asked.reply(key, ExitReply::WillNotExit).0;
            assert(back.stack =~= self.stack);
        }
    }

    /// A worker that is forced to exit is handed no request: a forced
    /// request takes its worker out of the order, the next request goes to
    /// a worker that is not forced to exit, and to none at all while the
    /// pool itself forces exits.
    pub proof fn lemma_forced_worker_gets_no_request(self, key: usize)
        requires
            self.wf(),
        ensures
            !self.request_exit(key, true).0.workers.lists(key) || self.request_exit(key, true).1.len()
                == 0,
            self.forcing ==> self.assign().1 is None,
            self.assign().1 == Some(key) ==> self.workers.tracks(key) && self.stack[position_of(
                self.stack,
                key,
            )].exit != (Negotiation::Requested { force: true }),
    {
        if self.workers.tracks(key) {
            assert(self.knows(key));
            self.lemma_unlisted(key, true);
        }
        if self.assign().1 == Some(key) {
            assert(self.workers.order[0] == key);
            assert(self.workers.lists(key));
            lemma_listed_tracked(self.workers, key);
            assert(self.knows(key));
        }
    }

    /// After a drain command, `PoolEmpty` has been announced once if the
    /// pool holds no worker, and not at all if it holds one; a pool that
    /// holds no worker has an empty order and an empty index.
    pub proof fn lemma_drain_completion(self, inputs: Seq<ManagerInput<T>>)
        requires
            self.wf(),
            !self.announced,
        ensures
            ({
                let drained = self.drain();
                let after = drained.0.run(inputs);
                &&& after.0.wf()
                &&& after.0.draining
                &&& occurrences(
                    drained.1 + after.1,
                    ManagerAction::Emit { event: PoolEvent::PoolEmpty },
                ) == (if after.0.stack.len() == 0 {
                    1nat
                } else {
                    0nat
                })
                &&& after.0.stack.len() == 0 ==> after.0.workers == Availability::<T>::empty()
            }),
    {
        let drained = self.drain();
        let after = drained.0.run(inputs);
        self.lemma_wind_down(Seq::empty(), self.forcing, self.exiting, true);
        drained.0.lemma_run(inputs);
        lemma_occurrences_add(
            drained.1,
            after.1,
            ManagerAction::Emit { event: PoolEvent::PoolEmpty },
        );
        if after.0.stack.len() == 0 {
            after.0.lemma_no_worker();
        }
    }

    /// A pool without workers has an empty order and an empty index.
    pub proof fn lemma_no_worker(self)
        requires
            self.wf(),
            self.stack.len() == 0,
        ensures
            self.workers == Availability::<T>::empty(),
    {
        assert forall|key: usize| !self.workers.index.contains_key(key) by {
            if self.workers.tracks(key) {
                assert(self.knows(key));
            }
        }
        assert(self.workers.index =~= Map::<usize, Arc<T>>::empty());
        if self.workers.order.len() > 0 {
            assert(self.workers.index.contains_key(self.workers.order[0]));
        }
        assert(self.workers.order =~= Seq::<usize>::empty());
    }
}

/// Who stands in an order with `key` put at its front: `key`, and whoever
/// stood there before.
proof fn lemma_front_order(order: Seq<usize>, key: usize, other: usize)
    ensures
        (seq![key] + order).contains(other) <==> (other == key || order.contains(other)),
{
    let longer = seq![key] + order;
    assert(longer[0] == key);
    if order.contains(other) {
        let i = choose|i: int| 0 <= i < order.len() && order[i] == other;
        assert(longer[i + 1] == other);
    }
    if longer.contains(other) {
        let i = choose|i: int| 0 <= i < longer.len() && longer[i] == other;
        if i > 0 {
            assert(order[i - 1] == other);
        }
    }
}

/// A single action is itself, once, and no other action.
proof fn lemma_occurrences_one(action: ManagerAction, other: ManagerAction)
    ensures
        occurrences(seq![action], other) == (if action == other {
            1nat
        } else {
            0nat
        }),
{
    assert(seq![action].drop_last() =~= Seq::<ManagerAction>::empty());
    assert(occurrences(Seq::<ManagerAction>::empty(), other) == 0);
}


/// The pool manager: the availability list, the stack of live workers and
/// the flags of admission and drain.
pub struct PoolWorkerManager<T> {
    available: AvailabilityList<T>,
    stack: Vec<LiveWorker>,
    max_workers: usize,
    wake_pending: bool,
    draining: bool,
    forcing: bool,
    exiting: bool,
    ack_owed: bool,
    announced: bool,
}

impl<T> View for PoolWorkerManager<T> {
    type V = Manager<T>;

    closed spec fn view(&self) -> Manager<T> {
        Manager {
            workers: self.available@,
            stack: self.stack@,
            max_workers: self.max_workers as nat,
            wake_pending: self.wake_pending,
            draining: self.draining,
            forcing: self.forcing,
            exiting: self.exiting,
            ack_owed: self.ack_owed,
            announced: self.announced,
        }
    }
}

impl<T> PoolWorkerManager<T> {
    /// The invariant of the representation.
    pub closed spec fn wf(&self) -> bool {
        self.available.wf() && self@.wf()
    }

    /// A well-formed manager has a well-formed model.
    pub proof fn lemma_wf(&self)
        requires
            self.wf(),
        ensures
            self@.wf(),
    {
    }

    /// The manager of a pool that may hold `max_workers` workers and holds
    /// none yet.
    pub fn new(max_workers: usize) -> (r: Self)
        ensures
            r.wf(),
            r@ == Manager::<T>::initial(max_workers as nat),
    {
        let r = PoolWorkerManager {
            available: AvailabilityList::new(),
            stack: Vec::new(),
            max_workers,
            wake_pending: false,
            draining: false,
            forcing: false,
            exiting: false,
            ack_owed: false,
            announced: false,
        };
        assert(r@.stack =~= Seq::<LiveWorker>::empty());
        r
    }

    /// The admission flag: whether the pool may take one more worker.
    pub fn may_spawn(&self) -> (r: bool)
        ensures
            r == self@.may_spawn(),
    {
        !self.draining && self.stack.len() < self.max_workers
    }

    /// The number of live workers.
    pub fn worker_count(&self) -> (r: usize)
        ensures
            r == self@.stack.len(),
    {
        self.stack.len()
    }

    /// The number of workers that can take a request.
    pub fn available_count(&self) -> (r: usize)
        ensures
            r == self@.workers.order.len(),
    {
        self.available.available()
    }

    /// Whether the pool takes no new worker any more.
    pub fn is_draining(&self) -> (r: bool)
        ensures
            r == self@.draining,
    {
        self.draining
    }

    /// The handle of worker `key`; `None` if the worker is not known.
    pub fn worker(&self, key: usize) -> (r: Option<&Arc<T>>)
        requires
            self.wf(),
        ensures
            match r {
                Some(shared) => self@.workers.tracks(key) && *shared == self@.workers.index[key],
                None => !self@.workers.tracks(key),
            },
    {
        self.available.get(key)
    }

    /// The state of the exit negotiation with worker `key`; `None` if the
    /// worker is not known.
    pub fn negotiation(&self, key: usize) -> (r: Option<Negotiation>)
        requires
            self.wf(),
        ensures
            match r {
                Some(exit) => self@.workers.tracks(key) && exit == self@.stack[position_of(
                    self@.stack,
                    key,
                )].exit,
                None => !self@.workers.tracks(key),
            },
    {
        match self.find(key) {
            Some(at) => Some(self.stack[at].exit),
            None => None,
        }
    }

    /// The worker at the top of the stack, which is the one to ask first
    /// when the pool is to shrink; `None` if the pool holds no worker.
    pub fn top(&self) -> (r: Option<usize>)
        ensures
            r == (if self@.stack.len() == 0 {
                None
            } else {
                Some(self@.stack.last().key)
            }),
    {
        let length = self.stack.len();
        if length == 0 {
            None
        } else {
            Some(self.stack[length - 1].key)
        }
    }

    /// The position of worker `key` on the stack.
    fn find(&self, key: usize) -> (r: Option<usize>)
        requires
            self.wf(),
        ensures
            match r {
                Some(at) => {
                    &&& at < self.stack@.len()
                    &&& self.stack@[at as int].key == key
                    &&& at == position_of(self.stack@, key)
                    &&& self@.workers.tracks(key)
                },
                None => !on_stack(self.stack@, key) && !self@.workers.tracks(key),
            },
    {
        let mut at: usize = 0;
        while at < self.stack.len()
            invariant
                at <= self.stack@.len(),
                forall|i: int| 0 <= i < at ==> (#[trigger] self.stack@[i]).key != key,
                self.wf(),
            decreases self.stack@.len() - at,
        {
            if self.stack[at].key == key {
                proof {
                    lemma_position_of(self.stack@, at as int);
                }
                return Some(at);
            }
            at = at + 1;
        }
        proof {
            if self@.workers.tracks(key) {
                assert(self@.knows(key));
            }
        }
        None
    }

    /// The queue was seen full. Returns whether a hint is to be posted to
    /// the control loop: only if the pool may spawn, and only if no hint
    /// waits there already.
    pub fn queue_full(&mut self) -> (post: bool)
        requires
            old(self).wf(),
        ensures
            final(self).wf(),
            final(self)@ == old(self)@.queue_full().0,
            post == old(self)@.queue_full().1,
    {
        proof {
            old(self)@.lemma_step(ManagerInput::QueueFull);
        }
        if self.may_spawn() {
            let post = !self.wake_pending;
            self.wake_pending = true;
            post
        } else {
            false
        }
    }

    /// The control loop woke up on a hint. The hint is taken; a worker is
    /// to be spawned if the pool may spawn by now.
    pub fn wake(&mut self) -> (actions: Vec<ManagerAction>)
        requires
            old(self).wf(),
        ensures
            final(self).wf(),
            final(self)@ == old(self)@.wake().0,
            actions@ == old(self)@.wake().1,
    {
        proof {
            old(self)@.lemma_step(ManagerInput::Wake);
        }
        self.wake_pending = false;
        let mut actions = Vec::new();
        if self.may_spawn() {
            actions.push(ManagerAction::Spawn);
        }
        assert(actions@ =~= old(self)@.wake().1);
        actions
    }

    /// A started worker reports ready.
    pub fn worker_ready(&mut self, key: usize, shared: Arc<T>) -> (actions: Vec<ManagerAction>)
        requires
            old(self).wf(),
        ensures
            final(self).wf(),
            final(self)@ == old(self)@.worker_ready(key, shared).0,
            actions@ == old(self)@.worker_ready(key, shared).1,
    {
        proof {
            old(self)@.lemma_step(ManagerInput::WorkerReady { key, shared });
        }
        let mut actions = Vec::new();
        if self.available.contains(key) {
        } else if !self.may_spawn() {
            actions.push(ManagerAction::RequestExit { to: key, force: true });
        } else {
            let length = self.stack.len();
            if length > 0 {
                actions.push(ManagerAction::NextWorkerCreated { to: self.stack[length - 1].key });
            }
            self.available.insert_front(key, shared);
            self.stack.push(LiveWorker { key, exit: Negotiation::Idle });
        }
        assert(actions@ =~= old(self)@.worker_ready(key, shared).1);
        actions
    }

    /// A worker sent a message.
    pub fn handle_message(&mut self, message: PoolManagerMessage) -> (actions: Vec<ManagerAction>)
        requires
            old(self).wf(),
        ensures
            final(self).wf(),
            final(self)@ == old(self)@.message(message).0,
            actions@ == old(self)@.message(message).1,
    {
        match message {
            PoolManagerMessage::WorkerAvailable(key) => self.worker_available(key),
            PoolManagerMessage::WorkerShutdown(key) => self.retire(key),
        }
    }

    /// A worker reports that it can take a request again.
    pub fn worker_available(&mut self, key: usize) -> (actions: Vec<ManagerAction>)
        requires
            old(self).wf(),
        ensures
            final(self).wf(),
            final(self)@ == old(self)@.worker_available(key).0,
            actions@ == old(self)@.worker_available(key).1,
    {
        proof {
            old(self)@.lemma_step(
                ManagerInput::Message { message: PoolManagerMessage::WorkerAvailable(key) },
            );
        }
        let mut actions = Vec::new();
        match self.find(key) {
            None => {},
            Some(at) => {
                let worker = self.stack[at];
                let forced = match worker.exit {
                    Negotiation::Idle => false,
                    Negotiation::Requested { force } => force,
                };
                if !self.forcing && !forced {
                    self.available.admit_front(key);
                    if self.draining {
                        match worker.exit {
                            Negotiation::Idle => {
                                self.stack.set(
                                    at,
                                    LiveWorker { key, exit: Negotiation::Requested { force: false } },
                                );
                                actions.push(ManagerAction::RequestExit { to: key, force: false });
                            },
                            Negotiation::Requested { force } => {},
                        }
                    }
                }
            },
        }
        assert(actions@ =~= old(self)@.worker_available(key).1);
        assert(self@.stack =~= old(self)@.worker_available(key).0.stack);
        actions
    }

    /// A request needs a worker. Returns the worker at the front of the
    /// order, which leaves the order and stays in the index; `None` if no
    /// worker is available.
    pub fn assign(&mut self) -> (worker: Option<usize>)
        requires
            old(self).wf(),
        ensures
            final(self).wf(),
            final(self)@ == old(self)@.assign().0,
            worker == old(self)@.assign().1,
    {
        proof {
            old(self)@.lemma_step(ManagerInput::Assign);
        }
        let mut cursor = self.available.cursor_front();
        let worker = cursor.key();
        cursor.remove_list();
        worker
    }

    /// Asks worker `key` to exit, if the worker is known and no request to
    /// exit is under way with it.
    pub fn request_exit(&mut self, key: usize, force: bool) -> (actions: Vec<ManagerAction>)
        requires
            old(self).wf(),
        ensures
            final(self).wf(),
            final(self)@ == old(self)@.request_exit(key, force).0,
            actions@ == old(self)@.request_exit(key, force).1,
    {
        proof {
            old(self)@.lemma_step(ManagerInput::RequestExit { key, force });
        }
        let mut actions = Vec::new();
        match self.find(key) {
            None => {},
            Some(at) => {
                match self.stack[at].exit {
                    Negotiation::Idle => {
                        if force {
                            match self.available.cursor_at(key) {
                                CursorAtKeyResult::InList(mut cursor) => {
                                    cursor.remove_list();
                                },
                                _ => {},
                            }
                        }
                        self.stack.set(
                            at,
                            LiveWorker { key, exit: Negotiation::Requested { force } },
                        );
                        actions.push(ManagerAction::RequestExit { to: key, force });
                    },
                    Negotiation::Requested { force: under_way } => {},
                }
            },
        }
        assert(actions@ =~= old(self)@.request_exit(key, force).1);
        assert(self@.stack =~= old(self)@.request_exit(key, force).0.stack);
        actions
    }

    /// A worker answered a request to exit.
    pub fn exit_reply(&mut self, key: usize, reply: ExitReply) -> (actions: Vec<ManagerAction>)
        requires
            old(self).wf(),
        ensures
            final(self).wf(),
            final(self)@ == old(self)@.reply(key, reply).0,
            actions@ == old(self)@.reply(key, reply).1,
    {
        proof {
            old(self)@.lemma_step(ManagerInput::Reply { key, reply });
        }
        match self.find(key) {
            None => {
                let actions = Vec::new();
                assert(actions@ =~= old(self)@.reply(key, reply).1);
                actions
            },
            Some(at) => {
                match self.stack[at].exit {
                    Negotiation::Idle => {
                        let actions = Vec::new();
                        assert(actions@ =~= old(self)@.reply(key, reply).1);
                        actions
                    },
                    Negotiation::Requested { force } => {
                        let leaves = match reply {
                            ExitReply::WillExit => true,
                            ExitReply::WillNotExit => force,
                        };
                        if leaves {
                            self.retire(key)
                        } else {
                            let mut actions = Vec::new();
                            if self.forcing {
                                self.stack.set(
                                    at,
                                    LiveWorker { key, exit: Negotiation::Requested { force: true } },
                                );
                                actions.push(ManagerAction::RequestExit { to: key, force: true });
                            } else {
                                self.stack.set(at, LiveWorker { key, exit: Negotiation::Idle });
                            }
                            assert(actions@ =~= old(self)@.reply(key, reply).1);
                            assert(self@.stack =~= old(self)@.reply(key, reply).0.stack);
                            actions
                        }
                    },
                }
            },
        }
    }

    /// A worker's task ended on its own: the worker is retired with no
    /// negotiation.
    pub fn worker_failed(&mut self, key: usize) -> (actions: Vec<ManagerAction>)
        requires
            old(self).wf(),
        ensures
            final(self).wf(),
            final(self)@ == old(self)@.retire(key).0,
            actions@ == old(self)@.retire(key).1,
    {
        self.retire(key)
    }

    /// The operator wants the pool without workers.
    pub fn drain(&mut self) -> (actions: Vec<ManagerAction>)
        requires
            old(self).wf(),
        ensures
            final(self).wf(),
            final(self)@ == old(self)@.drain().0,
            actions@ == old(self)@.drain().1,
    {
        proof {
            old(self)@.lemma_step(ManagerInput::Drain);
        }
        let actions = Vec::new();
        let forcing = self.forcing;
        let exiting = self.exiting;
        assert(actions@ =~= Seq::<ManagerAction>::empty());
        self.wind_down(actions, forcing, exiting, true)
    }

    /// The operator wants the pool to exit.
    pub fn exit(&mut self, graceful: bool) -> (actions: Vec<ManagerAction>)
        requires
            old(self).wf(),
        ensures
            final(self).wf(),
            final(self)@ == old(self)@.exit(graceful).0,
            actions@ == old(self)@.exit(graceful).1,
    {
        proof {
            old(self)@.lemma_step(ManagerInput::Exit { graceful });
        }
        let mut actions = Vec::new();
        if !self.exiting {
            actions.push(ManagerAction::Emit { event: PoolEvent::Exiting });
        }
        let forcing = self.forcing || !graceful;
        assert(actions@ =~= (if old(self)@.exiting {
            Seq::<ManagerAction>::empty()
        } else {
            seq![ManagerAction::Emit { event: PoolEvent::Exiting }]
        }));
        self.wind_down(actions, forcing, true, false)
    }

    /// Takes a known worker off the books.
    fn retire(&mut self, key: usize) -> (actions: Vec<ManagerAction>)
        requires
            old(self).wf(),
        ensures
            final(self).wf(),
            final(self)@ == old(self)@.retire(key).0,
            actions@ == old(self)@.retire(key).1,
    {
        proof {
            old(self)@.lemma_step(ManagerInput::WorkerFailed { key });
        }
        let mut actions = Vec::new();
        match self.find(key) {
            None => {},
            Some(at) => {
                self.available.remove(key);
                self.stack.remove(at);
                let length = self.stack.len();
                actions.push(ManagerAction::Join { worker: key });
                if at == length && length > 0 {
                    actions.push(ManagerAction::NextWorkerExited { to: self.stack[length - 1].key });
                }
                if self.draining && length == 0 {
                    self.announced = true;
                    actions.push(ManagerAction::Emit { event: PoolEvent::PoolEmpty });
                    if self.ack_owed {
                        actions.push(ManagerAction::AckDrain);
                        self.ack_owed = false;
                    }
                }
            },
        }
        assert(actions@ =~= old(self)@.retire(key).1);
        actions
    }

    /// Stops the pool from taking workers and asks the idle ones to exit.
    fn wind_down(&mut self, first: Vec<ManagerAction>, forcing: bool, exiting: bool, ack: bool) -> (actions:
        Vec<ManagerAction>)
        requires
            old(self).available.wf(),
        ensures
            final(self).available.wf(),
            final(self)@ == old(self)@.wind_down(first@, forcing, exiting, ack).0,
            actions@ == old(self)@.wind_down(first@, forcing, exiting, ack).1,
    {
        let mut actions = first;
        let length = self.stack.len();
        let mut at = length;
        while at > 0
            invariant
                at <= length,
                length == self.stack@.len(),
                length == old(self).stack@.len(),
                forall|i: int| 0 <= i < at ==> self.stack@[i] == old(self).stack@[i],
                forall|i: int|
                    at <= i < length ==> self.stack@[i] == all_asked(old(self).stack@, forcing)[i],
                actions@ == first@ + requests(old(self).stack@.skip(at as int), forcing),
                self.available == old(self).available,
                self.max_workers == old(self).max_workers,
                self.wake_pending == old(self).wake_pending,
                self.draining == old(self).draining,
                self.forcing == old(self).forcing,
                self.exiting == old(self).exiting,
                self.ack_owed == old(self).ack_owed,
                self.announced == old(self).announced,
            decreases at,
        {
            at = at - 1;
            let worker = self.stack[at];
            proof {
                assert(old(self).stack@.skip(at as int).drop_first() =~= old(self).stack@.skip(
                    at + 1,
                ));
                assert(old(self).stack@.skip(at as int)[0] == old(self).stack@[at as int]);
            }
            match worker.exit {
                Negotiation::Idle => {
                    self.stack.set(
                        at,
                        LiveWorker { key: worker.key, exit: Negotiation::Requested { force: forcing } },
                    );
                    actions.push(ManagerAction::RequestExit { to: worker.key, force: forcing });
                },
                Negotiation::Requested { force } => {},
            }
            assert(actions@ =~= first@ + requests(old(self).stack@.skip(at as int), forcing));
        }
        assert(old(self).stack@.skip(0) =~= old(self).stack@);
        assert(self.stack@ =~= all_asked(old(self).stack@, forcing));
        if forcing {
            self.available.unlist_all();
        }
        let done = length == 0;
        if done && !self.announced {
            actions.push(ManagerAction::Emit { event: PoolEvent::PoolEmpty });
        }
        if done && ack {
            actions.push(ManagerAction::AckDrain);
        }
        self.draining = true;
        self.forcing = forcing;
        self.exiting = exiting;
        self.announced = done;
        self.ack_owed = (self.ack_owed || ack) && !done;
        assert(actions@ =~= old(self)@.wind_down(first@, forcing, exiting, ack).1);
        actions
    }
}


/// The mathematical model of the pool's facade: the requests that wait
/// for a worker, and the counts of requests taken in and done with.
pub struct Requests<R> {
    /// The waiting requests, each with its destination, oldest first.
    pub queue: Seq<(R, String)>,
    /// The number of requests that may wait.
    pub capacity: nat,
    /// The number of requests taken in so far.
    pub received: nat,
    /// The number of requests done with so far.
    pub completed: nat,
}

impl<R> Requests<R> {
    /// The number of requests taken in and not done with: those that wait
    /// and those that a worker holds.
    pub open spec fn outstanding(self) -> nat {
        (self.received - self.completed) as nat
    }

    /// The number of requests that a worker holds.
    pub open spec fn in_flight(self) -> nat {
        (self.received - self.completed - self.queue.len()) as nat
    }

    /// The invariant of the facade: no more requests wait than may, and no
    /// more are done with than workers have been given.
    pub open spec fn wf(self) -> bool {
        &&& self.queue.len() <= self.capacity
        &&& self.completed + self.queue.len() <= self.received
    }

    /// Whether one more request may wait.
    pub open spec fn has_room(self) -> bool {
        self.queue.len() < self.capacity && self.received < u64::MAX
    }
}

/// The pool's facade: the queue of the requests that wait for a worker, and
/// the gauges.
pub struct Pool<R: PoolRequest> {
    queue: VecDeque<(R, String)>,
    capacity: usize,
    received: u64,
    completed: u64,
}

impl<R: PoolRequest> View for Pool<R> {
    type V = Requests<R>;

    closed spec fn view(&self) -> Requests<R> {
        Requests {
            queue: self.queue@,
            capacity: self.capacity as nat,
            received: self.received as nat,
            completed: self.completed as nat,
        }
    }
}

impl<R: PoolRequest> Pool<R> {
    /// The invariant of the representation.
    pub closed spec fn wf(&self) -> bool {
        self@.wf()
    }

    /// A well-formed facade has a well-formed model.
    pub proof fn lemma_wf(&self)
        requires
            self.wf(),
        ensures
            self@.wf(),
    {
    }

    /// A facade with room for `capacity` waiting requests.
    pub fn new(capacity: usize) -> (r: Self)
        ensures
            r.wf(),
            r@ == (Requests::<R> {
                queue: Seq::empty(),
                capacity: capacity as nat,
                received: 0,
                completed: 0,
            }),
    {
        Pool { queue: VecDeque::new(), capacity, received: 0, completed: 0 }
    }

    /// Takes a request in, if there is room for it in the queue; hands it
    /// back if there is none. A caller that gets its request back has seen
    /// the queue full, and is to tell the manager so.
    pub fn submit(&mut self, request: R, destination: String) -> (r: Result<(), (R, String)>)
        requires
            old(self).wf(),
        ensures
            final(self).wf(),
            r is Ok <==> old(self)@.has_room(),
            r is Ok ==> final(self)@ == (Requests {
                queue: old(self)@.queue.push((request, destination)),
                received: old(self)@.received + 1,
                ..old(self)@
            }),
            r is Err ==> final(self)@ == old(self)@ && r == Err::<(), (R, String)>(
                (request, destination),
            ),
    {
        if self.queue.len() < self.capacity && self.received < u64::MAX {
            self.queue.push_back((request, destination));
            self.received = self.received + 1;
            Ok(())
        } else {
            Err((request, destination))
        }
    }

    /// Whether the queue is full.
    pub fn is_full(&self) -> (r: bool)
        ensures
            r == !self@.has_room(),
    {
        !(self.queue.len() < self.capacity && self.received < u64::MAX)
    }

    /// Takes the oldest waiting request out of the queue, for a worker;
    /// `None` if no request waits.
    pub fn take(&mut self) -> (r: Option<(R, String)>)
        requires
            old(self).wf(),
        ensures
            final(self).wf(),
            match r {
                Some(request) => old(self)@.queue.len() > 0 && request == old(self)@.queue.first()
                    && final(self)@ == (Requests {
                    queue: old(self)@.queue.drop_first(),
                    ..old(self)@
                }),
                None => old(self)@.queue.len() == 0 && final(self)@ == old(self)@,
            },
    {
        let r = self.queue.pop_front();
        proof {
            if old(self)@.queue.len() > 0 {
                assert(self@.queue =~= old(self)@.queue.drop_first());
            }
        }
        r
    }

    /// Counts a request that a worker is done with. Returns whether a
    /// worker held one: if none did, nothing is counted.
    pub fn complete(&mut self) -> (r: bool)
        requires
            old(self).wf(),
        ensures
            final(self).wf(),
            r == (old(self)@.in_flight() > 0),
            final(self)@ == (if r {
                Requests { completed: old(self)@.completed + 1, ..old(self)@ }
            } else {
                old(self)@
            }),
    {
        let waiting = self.queue.len() as u64;
        if self.received - self.completed > waiting {
            self.completed = self.completed + 1;
            true
        } else {
            false
        }
    }

    /// The number of requests taken in and not done with.
    pub fn outstanding(&self) -> (r: u64)
        requires
            self.wf(),
        ensures
            r == self@.outstanding(),
    {
        self.received - self.completed
    }

    /// The number of requests that wait for a worker.
    pub fn queued(&self) -> (r: usize)
        ensures
            r == self@.queue.len(),
    {
        self.queue.len()
    }

    /// The number of requests taken in so far.
    pub fn received(&self) -> (r: u64)
        ensures
            r == self@.received,
    {
        self.received
    }

    /// The number of requests done with so far.
    pub fn completed(&self) -> (r: u64)
        ensures
            r == self@.completed,
    {
        self.completed
    }
}

} // verus!
