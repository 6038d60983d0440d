use migrations::catalog::{Catalog, CatalogError, MigrationUnit};
use migrations::ledger::{Ledger, LedgerError};
use migrations::order::{id_equal, id_less};
use migrations::planner::{find_anomaly, plan_down, plan_up, Direction, PlanError};
use migrations::run::{Action, Phase, Run, RunError};
use migrations::Migrator;

fn unit(id: &str) -> MigrationUnit {
    MigrationUnit::new(id, id)
}

fn catalog(ids: &[&str]) -> Catalog {
    Catalog::new(ids.iter().map(|i| unit(i)).collect()).unwrap()
}

fn ledger_of(entries: &[(&str, i64)]) -> Ledger {
    let mut l = Ledger::new();
    for (id, at) in entries {
        l.record(id.to_string(), *at).unwrap();
    }
    l
}

fn applied(l: &Ledger) -> Vec<String> {
    l.list_applied()
}

/// Drives a run to its end, committing every unit at increasing times,
/// except the unit whose identifier is `fail`, which fails.
fn drive(run: &mut Run, ledger: Ledger, fail: Option<&str>) -> Vec<String> {
    let mut order = Vec::new();
    assert_eq!(run.start(), Action::TryLock);
    assert_eq!(run.lock_granted(), Action::ReadLedger);
    let mut action = run.ledger_loaded(ledger);
    let mut clock: i64 = 1000;
    while let Action::Apply { position, .. } = action {
        let id = run.catalog_ref().unit(position).id.clone();
        order.push(id.clone());
        if Some(id.as_str()) == fail {
            action = run.unit_failed("boom".to_string());
        } else {
            clock += 1;
            action = run.unit_committed(clock);
        }
    }
    assert_eq!(action, Action::ReleaseLock);
    order
}

#[test]
fn id_order_is_lexicographic() {
    assert!(id_less("a", "b"));
    assert!(id_less("ab", "abc"));
    assert!(!id_less("b", "a"));
    assert!(!id_less("abc", "abc"));
    assert!(id_less("", "a"));
    assert!(id_less("m20230801_120415_gen_random_uuid", "m20230802_075725_search_indices"));
    assert!(id_equal("x1", "x1"));
    assert!(!id_equal("x1", "x12"));
}

#[test]
fn catalog_rejects_duplicates_and_disorder() {
    let dup = Catalog::new(vec![unit("A"), unit("B"), unit("B")]);
    assert_eq!(dup.unwrap_err(), CatalogError::DuplicateId { index: 2 });
    let disorder = Catalog::new(vec![unit("B"), unit("A")]);
    assert_eq!(disorder.unwrap_err(), CatalogError::OutOfOrder { index: 1 });
    assert_eq!(Catalog::new(vec![]).unwrap().len(), 0);
}

#[test]
fn migrator_catalog_lists_all_units_in_order() {
    let units = Migrator::migrations();
    assert_eq!(units.len(), 6);
    assert_eq!(units[0].id, "m20220101_000001_create_table");
    assert_eq!(units[5].id, "m20230811_170956_sessions");
    let c = Migrator::catalog();
    assert_eq!(c.len(), 6);
    let plan = plan_up(&c, &Ledger::new(), None).unwrap();
    assert_eq!(plan, vec![0, 1, 2, 3, 4, 5]);
}

#[test]
fn ledger_keeps_ids_ascending() {
    let mut l = ledger_of(&[("C", 3), ("A", 1), ("B", 2)]);
    assert_eq!(applied(&l), vec!["A", "B", "C"]);
    assert_eq!(l.applied_at("B"), Some(2));
    assert_eq!(l.applied_at("D"), None);
    assert_eq!(l.record("B".to_string(), 9), Err(LedgerError::AlreadyRecorded));
    assert_eq!(l.applied_at("B"), Some(2));
    assert_eq!(l.erase("B"), Ok(()));
    assert_eq!(applied(&l), vec!["A", "C"]);
    assert_eq!(l.erase("B"), Err(LedgerError::NotRecorded));
    assert!(l.contains("A"));
    assert!(!l.contains("B"));
}

#[test]
fn example_three_units_on_empty_ledger() {
    let c = catalog(&["T1", "T2", "T3"]);
    let plan = plan_up(&c, &Ledger::new(), None).unwrap();
    assert_eq!(c.ids_at(&plan), vec!["T1", "T2", "T3"]);
    let mut run = Run::new(c, Direction::Up, None, false, 1);
    let order = drive(&mut run, Ledger::new(), None);
    assert_eq!(order, vec!["T1", "T2", "T3"]);
    assert_eq!(*run.phase_now(), Phase::Committed);
    assert_eq!(run.committed_ids(), vec!["T1", "T2", "T3"]);
    let l = run.ledger_now();
    assert_eq!(applied(l), vec!["T1", "T2", "T3"]);
    assert_eq!(l.applied_at("T1"), Some(1001));
    assert_eq!(l.applied_at("T2"), Some(1002));
    assert_eq!(l.applied_at("T3"), Some(1003));
}

#[test]
fn second_up_run_has_empty_plan() {
    let c = catalog(&["T1", "T2", "T3"]);
    let mut first = Run::new(c.clone(), Direction::Up, None, false, 1);
    drive(&mut first, Ledger::new(), None);
    let after_first = first.ledger_now().clone();
    let mut second = Run::new(c, Direction::Up, None, false, 1);
    let order = drive(&mut second, after_first.clone(), None);
    assert!(order.is_empty());
    assert!(second.plan_now().is_empty());
    assert_eq!(*second.phase_now(), Phase::Committed);
    assert_eq!(applied(second.ledger_now()), applied(&after_first));
    assert_eq!(second.ledger_now().applied_at("T2"), after_first.applied_at("T2"));
}

#[test]
fn up_ascends_and_down_descends() {
    let c = catalog(&["A", "B", "C", "D"]);
    let l = ledger_of(&[("B", 1)]);
    assert_eq!(plan_up(&c, &l, None).unwrap(), vec![0, 2, 3]);
    let full = ledger_of(&[("A", 1), ("B", 2), ("C", 3), ("D", 4)]);
    assert_eq!(plan_down(&c, &full, None, false).unwrap(), vec![3, 2, 1, 0]);
    let mut run = Run::new(c, Direction::Down, None, false, 1);
    let order = drive(&mut run, full, None);
    assert_eq!(order, vec!["D", "C", "B", "A"]);
    assert_eq!(run.ledger_now().len(), 0);
}

#[test]
fn targets_bound_the_plans() {
    let c = catalog(&["A", "B", "C"]);
    assert_eq!(plan_up(&c, &Ledger::new(), Some("B")).unwrap(), vec![0, 1]);
    assert_eq!(plan_up(&c, &Ledger::new(), Some("Bz")).unwrap(), vec![0, 1]);
    let full = ledger_of(&[("A", 1), ("B", 2), ("C", 3)]);
    assert_eq!(plan_down(&c, &full, Some("A"), false).unwrap(), vec![2, 1]);
    assert_eq!(plan_down(&c, &full, Some("A"), true).unwrap(), vec![2, 1, 0]);
}

#[test]
fn irreversible_unit_blocks_reverse_plan() {
    let mut b = unit("B");
    b.reversible = false;
    let c = Catalog::new(vec![unit("A"), b, unit("C")]).unwrap();
    let full = ledger_of(&[("A", 1), ("B", 2), ("C", 3)]);
    assert_eq!(
        plan_down(&c, &full, None, false),
        Err(PlanError::Irreversible { migration_id: "B".to_string() })
    );
    assert_eq!(plan_down(&c, &full, Some("B"), false).unwrap(), vec![2]);
}

#[test]
fn failed_unit_leaves_no_ledger_entry() {
    let c = catalog(&["A", "B"]);
    let mut run = Run::new(c, Direction::Up, None, false, 1);
    let order = drive(&mut run, Ledger::new(), Some("B"));
    assert_eq!(order, vec!["A", "B"]);
    assert_eq!(
        *run.phase_now(),
        Phase::Failed(RunError::UnitExecution {
            migration_id: "B".to_string(),
            cause: "boom".to_string()
        })
    );
    assert!(run.ledger_now().contains("A"));
    assert!(!run.ledger_now().contains("B"));
    assert_eq!(run.committed_ids(), vec!["A"]);
}

#[test]
fn rerun_after_failure_resumes() {
    let c = catalog(&["A", "B", "C"]);
    let mut first = Run::new(c.clone(), Direction::Up, None, false, 1);
    let order = drive(&mut first, Ledger::new(), Some("B"));
    assert_eq!(order, vec!["A", "B"]);
    let mut second = Run::new(c, Direction::Up, None, false, 1);
    let order = drive(&mut second, first.ledger_now().clone(), None);
    assert_eq!(order, vec!["B", "C"]);
    assert_eq!(applied(second.ledger_now()), vec!["A", "B", "C"]);
}

#[test]
fn contended_lock_fails_or_waits() {
    let c = catalog(&["A", "B"]);
    let mut holder = Run::new(c.clone(), Direction::Up, None, false, 1);
    assert_eq!(holder.start(), Action::TryLock);
    assert_eq!(holder.lock_granted(), Action::ReadLedger);

    let mut impatient = Run::new(c.clone(), Direction::Up, None, false, 1);
    assert_eq!(impatient.start(), Action::TryLock);
    assert_eq!(impatient.lock_busy(), Action::Finish);
    assert_eq!(*impatient.phase_now(), Phase::Failed(RunError::LockContention));

    let mut patient = Run::new(c, Direction::Up, None, false, 3);
    assert_eq!(patient.start(), Action::TryLock);
    assert_eq!(patient.lock_busy(), Action::WaitAndRetryLock);

    let mut action = holder.ledger_loaded(Ledger::new());
    let mut clock: i64 = 0;
    while let Action::Apply { .. } = action {
        clock += 1;
        action = holder.unit_committed(clock);
    }
    assert_eq!(action, Action::ReleaseLock);

    assert_eq!(patient.lock_granted(), Action::ReadLedger);
    assert_eq!(patient.ledger_loaded(holder.ledger_now().clone()), Action::ReleaseLock);
    assert_eq!(*patient.phase_now(), Phase::Committed);
    assert!(patient.plan_now().is_empty());
}

#[test]
fn lock_attempts_run_out() {
    let mut run = Run::new(catalog(&["A"]), Direction::Up, None, false, 2);
    assert_eq!(run.start(), Action::TryLock);
    assert_eq!(run.lock_busy(), Action::WaitAndRetryLock);
    assert_eq!(run.lock_busy(), Action::Finish);
    assert_eq!(*run.phase_now(), Phase::Failed(RunError::LockContention));
    assert!(run.is_over());
}

#[test]
fn unknown_ledger_entry_aborts_before_applying() {
    let c = catalog(&["A", "B"]);
    let l = ledger_of(&[("A", 1), ("X", 2)]);
    assert_eq!(find_anomaly(&c, &l), Some("X".to_string()));
    assert_eq!(
        plan_up(&c, &l, None),
        Err(PlanError::CatalogAnomaly { migration_id: "X".to_string() })
    );
    let mut run = Run::new(c, Direction::Up, None, false, 1);
    let order = drive(&mut run, l, None);
    assert!(order.is_empty());
    assert_eq!(
        *run.phase_now(),
        Phase::Failed(RunError::Plan(PlanError::CatalogAnomaly { migration_id: "X".to_string() }))
    );
}

#[test]
fn empty_catalog_is_a_no_op() {
    let mut run = Run::new(Catalog::empty(), Direction::Up, None, false, 1);
    let order = drive(&mut run, Ledger::new(), None);
    assert!(order.is_empty());
    assert_eq!(*run.phase_now(), Phase::Committed);
}

#[test]
fn unreadable_ledger_fails_the_run() {
    let mut run = Run::new(catalog(&["A"]), Direction::Up, None, false, 1);
    run.start();
    run.lock_granted();
    assert_eq!(run.ledger_unreadable("io".to_string()), Action::ReleaseLock);
    assert_eq!(
        *run.phase_now(),
        Phase::Failed(RunError::LedgerIo { cause: "io".to_string() })
    );
}

#[test]
fn events_out_of_phase_are_ignored() {
    let mut run = Run::new(catalog(&["A"]), Direction::Up, None, false, 1);
    assert_eq!(run.lock_granted(), Action::Ignore);
    assert_eq!(run.unit_committed(5), Action::Ignore);
    assert_eq!(*run.phase_now(), Phase::Idle);
}
