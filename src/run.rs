//! One run of the engine as a state machine. The caller performs each
//! returned action (take the database lock, read the ledger, apply a unit in
//! its transaction, release the lock) and reports what happened by calling
//! the matching method.
use vstd::prelude::*;
use crate::catalog::Catalog;
use crate::ledger::Ledger;
use crate::planner::{
    down_plan, has_anomaly, ids_at, lemma_down_plan_step, lemma_up_plan_resumes, plan_down,
    plan_up, target_view, up_plan, Direction, PlanError,
};

verus! {

#[derive(Debug, PartialEq, Eq)]
pub enum RunError {
    /// The run lock stayed held by another run for every allowed attempt.
    LockContention,
    /// The ledger could not be read.
    LedgerIo { cause: String },
    /// The plan could not be made.
    Plan(PlanError),
    /// A unit's change failed; its transaction was rolled back.
    UnitExecution { migration_id: String, cause: String },
}

/// Where a run stands. Once a unit's step has passed, its commit is final;
/// a later failure only stops the units after it.
#[derive(Debug, PartialEq, Eq)]
pub enum Phase {
    Idle,
    LockAcquiring { attempts: u32 },
    Planning,
    Applying { step: usize },
    Committed,
    Failed(RunError),
}

/// What the caller does next.
#[derive(Debug, PartialEq, Eq, Structural)]
pub enum Action {
    /// Try to take the database's run lock.
    TryLock,
    /// Wait for the lock window, then try again.
    WaitAndRetryLock,
    /// Read the ledger and report it.
    ReadLedger,
    /// In one transaction (when `transactional`), run the unit's change in
    /// `direction` and record or erase its ledger entry; then commit.
    Apply { position: usize, direction: Direction, transactional: bool },
    /// Release the lock: the run is over.
    ReleaseLock,
    /// The run is over and holds no lock.
    Finish,
    /// The event does not belong to this phase; nothing to do.
    Ignore,
}

pub open spec fn opt_view(t: Option<String>) -> Option<Seq<char>> {
    match t {
        Some(s) => Some(s@),
        None => None,
    }
}

/// Every position in `p` is below `n`.
pub open spec fn positions_below(p: Seq<usize>, n: int) -> bool {
    forall|k: int| 0 <= k < p.len() ==> p[k] < n
}

/// A step keeps what the run was started with.
pub open spec fn keeps_settings(before: Run, after: Run) -> bool {
    &&& after.catalog() == before.catalog()
    &&& after.direction() == before.direction()
    &&& after.target() == before.target()
    &&& after.inclusive() == before.inclusive()
    &&& after.lock_attempts() == before.lock_attempts()
}

/// A committed run leaves nothing to do: a new run with the same settings
/// plans nothing on the ledger it left, so the second run changes nothing.
pub proof fn lemma_committed_run_leaves_nothing(run: Run)
    requires
        run.wf(),
        run.phase() is Committed,
    ensures
        run.plan_for(run.ledger().applied()).len() == 0,
{
}

/// One run against one database: its settings, where it stands, the plan it
/// carries out and the ledger as it now stands.
pub struct Run {
    catalog: Catalog,
    direction: Direction,
    target: Option<String>,
    inclusive: bool,
    lock_attempts: u32,
    phase: Phase,
    plan: Vec<usize>,
    committed: usize,
    ledger: Ledger,
}

impl Run {
    pub closed spec fn catalog(&self) -> Catalog {
        self.catalog
    }

    pub closed spec fn direction(&self) -> Direction {
        self.direction
    }

    pub closed spec fn target(&self) -> Option<Seq<char>> {
        opt_view(self.target)
    }

    pub closed spec fn inclusive(&self) -> bool {
        self.inclusive
    }

    pub closed spec fn lock_attempts(&self) -> u32 {
        self.lock_attempts
    }

    pub closed spec fn phase(&self) -> Phase {
        self.phase
    }

    /// The plan being carried out, as catalog positions.
    pub closed spec fn plan(&self) -> Seq<usize> {
        self.plan@
    }

    /// How many units of the plan this run has committed.
    pub closed spec fn committed(&self) -> usize {
        self.committed
    }

    /// The ledger as the run knows it: as loaded, with each committed unit.
    pub closed spec fn ledger(&self) -> Ledger {
        self.ledger
    }

    /// The plan still owed, computed afresh from a ledger.
    pub open spec fn plan_for(&self, applied: Set<Seq<char>>) -> Seq<usize> {
        match self.direction() {
            Direction::Up => up_plan(self.catalog().ids(), applied, self.target()),
            Direction::Down => down_plan(
                self.catalog().ids(),
                applied,
                self.target(),
                self.inclusive(),
            ),
        }
    }

    /// Only a run past the lock and not yet over may touch the database.
    pub open spec fn holds_lock(&self) -> bool {
        self.phase() is Planning || self.phase() is Applying
    }

    pub open spec fn wf(&self) -> bool {
        &&& self.catalog().wf()
        &&& self.ledger().wf()
        &&& self.lock_attempts() >= 1
        &&& positions_below(self.plan(), self.catalog().units().len() as int)
        &&& (self.phase() matches Phase::LockAcquiring { attempts } ==> attempts < self.lock_attempts())
        &&& self.committed() <= self.plan().len()
        &&& (self.phase() is Committed ==> self.plan_for(self.ledger().applied()).len() == 0
            && self.committed() == self.plan().len())
        &&& (self.phase() matches Phase::Applying { step } ==> self.committed() == step)
        &&& (self.phase() matches Phase::Applying { step } ==> {
            &&& step < self.plan().len()
            &&& self.plan_for(self.ledger().applied()) == self.plan().skip(step as int)
        })
    }

    /// A run that has not started. `lock_attempts` is how many times the
    /// lock is tried before the run fails as contended.
    pub fn new(
        catalog: Catalog,
        direction: Direction,
        target: Option<String>,
        inclusive: bool,
        lock_attempts: u32,
    ) -> (r: Run)
        requires
            catalog.wf(),
            lock_attempts >= 1,
        ensures
            r.wf(),
            r.phase() == Phase::Idle,
            r.catalog() == catalog,
            r.direction() == direction,
            r.target() == opt_view(target),
            r.inclusive() == inclusive,
            r.lock_attempts() == lock_attempts,
            r.plan().len() == 0,
            r.committed() == 0,
            r.ledger().view().len() == 0,
    {
        Run {
            catalog,
            direction,
            target,
            inclusive,
            lock_attempts,
            phase: Phase::Idle,
            plan: Vec::new(),
            committed: 0,
            ledger: Ledger::new(),
        }
    }

    pub fn phase_now(&self) -> (r: &Phase)
        ensures
            *r == self.phase(),
    {
        &self.phase
    }

    pub fn plan_now(&self) -> (r: &Vec<usize>)
        ensures
            r@ == self.plan(),
    {
        &self.plan
    }

    pub fn ledger_now(&self) -> (r: &Ledger)
        ensures
            *r == self.ledger(),
    {
        &self.ledger
    }

    pub fn catalog_ref(&self) -> (r: &Catalog)
        ensures
            *r == self.catalog(),
    {
        &self.catalog
    }

    /// The identifiers of the units this run committed, in order: after a
    /// halt, the state the database was left in.
    pub fn committed_ids(&self) -> (r: Vec<String>)
        requires
            self.wf(),
        ensures
            r@.len() == self.committed(),
            forall|k: int| 0 <= k < r@.len() ==> #[trigger] r@[k]@ == self.catalog().ids()[self.plan()[k] as int],
    {
        let mut r: Vec<String> = Vec::new();
        let mut k: usize = 0;
        while k < self.committed
            invariant
                self.wf(),
                k <= self.committed(),
                r@.len() == k,
                forall|j: int| 0 <= j < k ==> #[trigger] r@[j]@ == self.catalog().ids()[self.plan()[j] as int],
            decreases self.committed() - k,
        {
            r.push(self.catalog.unit(self.plan[k]).id.clone());
            k = k + 1;
        }
        r
    }

    /// The run ended: with every planned unit done, or with an error.
    pub fn is_over(&self) -> (r: bool)
        ensures
            r == (self.phase() is Committed || self.phase() is Failed),
    {
        match &self.phase {
            Phase::Committed | Phase::Failed(_) => true,
            _ => false,
        }
    }

    fn apply_action(&self, step: usize) -> (a: Action)
        requires
            step < self.plan().len(),
            self.wf(),
        ensures
            a == (Action::Apply {
                position: self.plan()[step as int],
                direction: self.direction(),
                transactional: self.catalog().units()[self.plan()[step as int] as int].transactional,
            }),
    {
        let position = self.plan[step];
        Action::Apply {
            position,
            direction: self.direction,
            transactional: self.catalog.unit(position).transactional,
        }
    }
}

impl Run {
    /// Leaves `Idle` and asks for the lock.
    pub fn start(&mut self) -> (a: Action)
        requires
            old(self).wf(),
        ensures
            final(self).wf(),
            keeps_settings(*old(self), *final(self)),
            final(self).holds_lock() ==> old(self).holds_lock(),
            a is Apply ==> old(self).holds_lock() && final(self).holds_lock(),
            old(self).phase() is Idle ==> final(self).phase() == (Phase::LockAcquiring { attempts: 0 })
                && a == Action::TryLock,
            !(old(self).phase() is Idle) ==> *final(self) == *old(self) && a == Action::Ignore,
            final(self).ledger() == old(self).ledger(),
    {
        match self.phase {
            Phase::Idle => {
                self.phase = Phase::LockAcquiring { attempts: 0 };
                Action::TryLock
            },
            _ => Action::Ignore,
        }
    }

    /// The lock was taken: read the ledger next.
    pub fn lock_granted(&mut self) -> (a: Action)
        requires
            old(self).wf(),
        ensures
            final(self).wf(),
            keeps_settings(*old(self), *final(self)),
            old(self).phase() is LockAcquiring ==> final(self).phase() == Phase::Planning && a
                == Action::ReadLedger,
            !(old(self).phase() is LockAcquiring) ==> *final(self) == *old(self) && a == Action::Ignore,
            final(self).ledger() == old(self).ledger(),
    {
        match self.phase {
            Phase::LockAcquiring { .. } => {
                self.phase = Phase::Planning;
                Action::ReadLedger
            },
            _ => Action::Ignore,
        }
    }

    /// Another run holds the lock: try again while attempts remain, else
    /// fail as contended.
    pub fn lock_busy(&mut self) -> (a: Action)
        requires
            old(self).wf(),
        ensures
            final(self).wf(),
            keeps_settings(*old(self), *final(self)),
            final(self).holds_lock() ==> old(self).holds_lock(),
            a is Apply ==> old(self).holds_lock() && final(self).holds_lock(),
            old(self).phase() matches Phase::LockAcquiring { attempts } ==> if attempts + 1 < old(
                self,
            ).lock_attempts() {
                final(self).phase() == (Phase::LockAcquiring { attempts: (attempts + 1) as u32 })
                    && a == Action::WaitAndRetryLock
            } else {
                final(self).phase() == Phase::Failed(RunError::LockContention) && a == Action::Finish
            },
            !(old(self).phase() is LockAcquiring) ==> *final(self) == *old(self) && a == Action::Ignore,
            final(self).ledger() == old(self).ledger(),
    {
        match self.phase {
            Phase::LockAcquiring { attempts } => {
                if attempts + 1 < self.lock_attempts {
                    self.phase = Phase::LockAcquiring { attempts: attempts + 1 };
                    Action::WaitAndRetryLock
                } else {
                    self.phase = Phase::Failed(RunError::LockContention);
                    Action::Finish
                }
            },
            _ => Action::Ignore,
        }
    }

    /// The ledger could not be read: the run fails.
    pub fn ledger_unreadable(&mut self, cause: String) -> (a: Action)
        requires
            old(self).wf(),
        ensures
            final(self).wf(),
            keeps_settings(*old(self), *final(self)),
            final(self).holds_lock() ==> old(self).holds_lock(),
            a is Apply ==> old(self).holds_lock() && final(self).holds_lock(),
            old(self).phase() is Planning ==> final(self).phase() == Phase::Failed(
                RunError::LedgerIo { cause },
            ) && a == Action::ReleaseLock,
            !(old(self).phase() is Planning) ==> *final(self) == *old(self) && a == Action::Ignore,
            final(self).ledger() == old(self).ledger(),
    {
        match self.phase {
            Phase::Planning => {
                self.phase = Phase::Failed(RunError::LedgerIo { cause });
                Action::ReleaseLock
            },
            _ => Action::Ignore,
        }
    }

    fn target_str(&self) -> (r: Option<&str>)
        ensures
            target_view(r) == self.target(),
    {
        match &self.target {
            Some(t) => Some(t.as_str()),
            None => None,
        }
    }

    /// The ledger was read: plan, then apply the first unit, or end the run
    /// when there is nothing to do or the plan cannot be made.
    pub fn ledger_loaded(&mut self, ledger: Ledger) -> (a: Action)
        requires
            old(self).wf(),
            ledger.wf(),
        ensures
            final(self).wf(),
            keeps_settings(*old(self), *final(self)),
            final(self).holds_lock() ==> old(self).holds_lock(),
            a is Apply ==> old(self).holds_lock() && final(self).holds_lock(),
            !(old(self).phase() is Planning) ==> *final(self) == *old(self) && a == Action::Ignore,
            old(self).phase() is Planning ==> {
                &&& final(self).ledger() == ledger
                &&& (has_anomaly(old(self).catalog().ids(), ledger.applied()) <==> final(self).phase() matches Phase::Failed(RunError::Plan(PlanError::CatalogAnomaly { .. })))
                &&& (final(self).phase() matches Phase::Failed(e) ==> e is Plan && a == Action::ReleaseLock)
                &&& (!(final(self).phase() is Failed) ==> final(self).plan() == final(self).plan_for(ledger.applied()))
                &&& (final(self).phase() is Committed ==> final(self).plan().len() == 0 && a == Action::ReleaseLock)
                &&& (!(final(self).phase() is Failed) ==> (final(self).phase() is Committed <==> final(self).plan().len() == 0))
                &&& (final(self).phase() is Applying ==> final(self).phase() == (Phase::Applying { step: 0 }) && a == (Action::Apply {
                    position: final(self).plan()[0],
                    direction: final(self).direction(),
                    transactional: final(self).catalog().units()[final(self).plan()[0] as int].transactional,
                }))
                &&& (final(self).phase() is Committed || final(self).phase() is Failed || final(self).phase() is Applying)
                &&& (old(self).direction() is Up ==> (final(self).phase() is Failed <==> has_anomaly(old(self).catalog().ids(), ledger.applied())))
                &&& (old(self).direction() is Down ==> (final(self).phase() is Failed <==> (has_anomaly(old(self).catalog().ids(), ledger.applied())
                    || exists|k: int| 0 <= k < old(self).plan_for(ledger.applied()).len()
                        && !old(self).catalog().units()[#[trigger] old(self).plan_for(ledger.applied())[k] as int].reversible)))
            },
    {
        match self.phase {
            Phase::Planning => {},
            _ => {
                return Action::Ignore;
            },
        }
        let ghost s0 = *self;
        let planned = match self.direction {
            Direction::Up => plan_up(&self.catalog, &ledger, self.target_str()),
            Direction::Down => plan_down(&self.catalog, &ledger, self.target_str(), self.inclusive),
        };
        self.ledger = ledger;
        match planned {
            Err(e) => {
                self.plan = Vec::new();
                self.committed = 0;
                proof {
                    if e is Irreversible {
                        let dp = down_plan(
                            self.catalog().ids(),
                            self.ledger().applied(),
                            self.target(),
                            self.inclusive(),
                        );
                        let k = choose|k: int|
                            0 <= k < dp.len() && !self.catalog().units()[dp[k] as int].reversible;
                        assert(s0.plan_for(self.ledger().applied()) == dp);
                        assert(!s0.catalog().units()[s0.plan_for(self.ledger().applied())[k] as int].reversible);
                    }
                }
                self.phase = Phase::Failed(RunError::Plan(e));
                Action::ReleaseLock
            },
            Ok(p) => {
                proof {
                    let ids = self.catalog().ids();
                    let applied = self.ledger().applied();
                    if self.direction() is Up {
                        crate::planner::lemma_select_asc(
                            ids.len() as int,
                            |i: int| crate::planner::in_up(ids, applied, self.target(), i),
                        );
                    } else {
                        crate::planner::lemma_select_desc(
                            0,
                            ids.len() as int,
                            |i: int| crate::planner::in_down(ids, applied, self.target(), self.inclusive(), i),
                        );
                    }
                    assert(p@.skip(0) =~= p@);
                }
                self.plan = p;
                self.committed = 0;
                if self.plan.len() == 0 {
                    self.phase = Phase::Committed;
                    Action::ReleaseLock
                } else {
                    self.phase = Phase::Applying { step: 0 };
                    self.apply_action(0)
                }
            },
        }
    }
}

impl Run {
    /// The identifier of the unit at plan step `step`.
    pub open spec fn step_id(&self, step: int) -> Seq<char> {
        self.catalog().ids()[self.plan()[step] as int]
    }

    /// The unit of the current step failed and its transaction rolled back:
    /// the ledger stays as it was and the run halts.
    pub fn unit_failed(&mut self, cause: String) -> (a: Action)
        requires
            old(self).wf(),
        ensures
            final(self).wf(),
            keeps_settings(*old(self), *final(self)),
            final(self).holds_lock() ==> old(self).holds_lock(),
            a is Apply ==> old(self).holds_lock() && final(self).holds_lock(),
            old(self).phase() matches Phase::Applying { step } ==> final(self).phase() == Phase::Failed(
                RunError::UnitExecution { migration_id: old(self).catalog().units()[old(self).plan()[step as int] as int].id, cause },
            ) && a == Action::ReleaseLock,
            old(self).phase() matches Phase::Applying { step } ==> final(self).plan_for(
                final(self).ledger().applied(),
            ) == old(self).plan().skip(step as int),
            !(old(self).phase() is Applying) ==> *final(self) == *old(self) && a == Action::Ignore,
            final(self).ledger() == old(self).ledger(),
            final(self).plan() == old(self).plan(),
            final(self).committed() == old(self).committed(),
    {
        match self.phase {
            Phase::Applying { step } => {
                let migration_id = self.catalog.unit(self.plan[step]).id.clone();
                self.phase = Phase::Failed(RunError::UnitExecution { migration_id, cause });
                Action::ReleaseLock
            },
            _ => Action::Ignore,
        }
    }

    /// The unit of the current step committed at time `at`: its ledger
    /// entry is recorded (or erased, when reverting), then the next unit is
    /// applied, or the run ends.
    pub fn unit_committed(&mut self, at: i64) -> (a: Action)
        requires
            old(self).wf(),
        ensures
            final(self).wf(),
            keeps_settings(*old(self), *final(self)),
            final(self).holds_lock() ==> old(self).holds_lock(),
            a is Apply ==> old(self).holds_lock() && final(self).holds_lock(),
            !(old(self).phase() is Applying) ==> *final(self) == *old(self) && a == Action::Ignore,
            old(self).phase() matches Phase::Applying { step } ==> {
                &&& old(self).direction() is Up ==> !old(self).ledger().applied().contains(old(self).step_id(step as int))
                    && final(self).ledger().applied() == old(self).ledger().applied().insert(old(self).step_id(step as int))
                    && exists|k: int| 0 <= k <= old(self).ledger().view().len()
                        && final(self).ledger().view() == old(self).ledger().view().insert(k, (old(self).step_id(step as int), at))
                &&& old(self).direction() is Down ==> old(self).ledger().applied().contains(old(self).step_id(step as int))
                    && final(self).ledger().applied() == old(self).ledger().applied().remove(old(self).step_id(step as int))
                    && exists|k: int| 0 <= k < old(self).ledger().view().len()
                        && old(self).ledger().view()[k].0 == old(self).step_id(step as int)
                        && final(self).ledger().view() == old(self).ledger().view().remove(k)
                &&& final(self).committed() == step + 1
                &&& if step + 1 < old(self).plan().len() {
                    final(self).phase() == (Phase::Applying { step: (step + 1) as usize }) && a == (Action::Apply {
                        position: old(self).plan()[step + 1],
                        direction: old(self).direction(),
                        transactional: old(self).catalog().units()[old(self).plan()[step + 1] as int].transactional,
                    })
                } else {
                    final(self).phase() == Phase::Committed && a == Action::ReleaseLock
                }
            },
            final(self).plan() == old(self).plan(),
    {
        let step = match self.phase {
            Phase::Applying { step } => step,
            _ => {
                return Action::Ignore;
            },
        };
        let n = self.plan.len();
        let position = self.plan[step];
        let ghost ids = self.catalog().ids();
        let ghost applied = self.ledger().applied();
        let ghost q = self.plan().skip(step as int);
        let ghost id = ids[position as int];
        assert(q[0] == position);
        match self.direction {
            Direction::Up => {
                proof {
                    let f = |i: int| crate::planner::in_up(ids, applied, self.target(), i);
                    crate::planner::lemma_select_asc(ids.len() as int, f);
                    assert(up_plan(ids, applied, self.target()) == q);
                    assert(q.contains(position));
                    assert(f(position as int));
                    lemma_up_plan_resumes(ids, applied, self.target(), 1);
                    assert(q.take(1)[0] == position);
                    assert(ids_at(ids, q.take(1)).contains(id));
                    assert(ids_at(ids, q.take(1)) =~= set![id]);
                    assert(applied.union(set![id]) =~= applied.insert(id));
                    assert(q.skip(1) =~= self.plan().skip(step + 1));
                }
                let id_string = self.catalog.unit(position).id.clone();
                let r = self.ledger.record(id_string, at);
                assert(r is Ok);
            },
            Direction::Down => {
                proof {
                    lemma_down_plan_step(ids, applied, self.target(), self.inclusive());
                    assert(q.skip(1) =~= self.plan().skip(step + 1));
                }
                let r = self.ledger.erase(self.catalog.unit(position).id.as_str());
                assert(r is Ok);
            },
        }
        self.committed = step + 1;
        if step + 1 < n {
            self.phase = Phase::Applying { step: step + 1 };
            self.apply_action(step + 1)
        } else {
            self.phase = Phase::Committed;
            Action::ReleaseLock
        }
    }
}

} // verus!
