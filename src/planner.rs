//! The planner: from the catalog and the ledger to the ordered list of units
//! a run applies or reverts.
use vstd::prelude::*;
use crate::catalog::{strictly_ascending, Catalog};
use crate::ledger::Ledger;
use crate::order::{id_equal, id_less, id_lt, id_le, lemma_id_lt_asymmetric};

verus! {

#[derive(Debug, Clone, Copy, PartialEq, Eq, Structural)]
pub enum Direction {
    Up,
    Down,
}

#[derive(Debug, PartialEq, Eq)]
pub enum PlanError {
    /// The ledger holds an identifier that the catalog lacks.
    CatalogAnomaly { migration_id: String },
    /// A unit that would be reverted has no reverse operation.
    Irreversible { migration_id: String },
}

pub open spec fn target_view(target: Option<&str>) -> Option<Seq<char>> {
    match target {
        Some(t) => Some(t@),
        None => None,
    }
}

/// Some applied identifier is missing from the catalog.
pub open spec fn has_anomaly(ids: Seq<Seq<char>>, applied: Set<Seq<char>>) -> bool {
    exists|x: Seq<char>| applied.contains(x) && !ids.contains(x)
}

/// Unit `i` is pending and within the target.
pub open spec fn in_up(
    ids: Seq<Seq<char>>,
    applied: Set<Seq<char>>,
    target: Option<Seq<char>>,
    i: int,
) -> bool {
    &&& !applied.contains(ids[i])
    &&& match target {
        Some(t) => id_le(ids[i], t),
        None => true,
    }
}

/// Unit `i` is applied and above the target (or equal to it, when inclusive).
pub open spec fn in_down(
    ids: Seq<Seq<char>>,
    applied: Set<Seq<char>>,
    target: Option<Seq<char>>,
    inclusive: bool,
    i: int,
) -> bool {
    &&& applied.contains(ids[i])
    &&& match target {
        Some(t) => id_lt(t, ids[i]) || (inclusive && ids[i] == t),
        None => true,
    }
}

/// The positions below `n` that satisfy `f`, ascending.
pub open spec fn select_asc(n: int, f: spec_fn(int) -> bool) -> Seq<usize>
    decreases n,
{
    if n <= 0 {
        seq![]
    } else {
        select_asc(n - 1, f) + if f(n - 1) {
            seq![(n - 1) as usize]
        } else {
            seq![]
        }
    }
}

/// The positions in `[i, n)` that satisfy `f`, descending.
pub open spec fn select_desc(i: int, n: int, f: spec_fn(int) -> bool) -> Seq<usize>
    decreases n - i,
{
    if i >= n {
        seq![]
    } else {
        select_desc(i + 1, n, f) + if f(i) {
            seq![i as usize]
        } else {
            seq![]
        }
    }
}

/// The forward plan: pending units up to the target, ascending.
pub open spec fn up_plan(
    ids: Seq<Seq<char>>,
    applied: Set<Seq<char>>,
    target: Option<Seq<char>>,
) -> Seq<usize> {
    select_asc(ids.len() as int, |i: int| in_up(ids, applied, target, i))
}

/// The reverse plan: applied units above the target, descending.
pub open spec fn down_plan(
    ids: Seq<Seq<char>>,
    applied: Set<Seq<char>>,
    target: Option<Seq<char>>,
    inclusive: bool,
) -> Seq<usize> {
    select_desc(0, ids.len() as int, |i: int| in_down(ids, applied, target, inclusive, i))
}

/// The identifiers of the units at the positions of `p`.
pub open spec fn ids_at(ids: Seq<Seq<char>>, p: Seq<usize>) -> Set<Seq<char>> {
    Set::new(|x: Seq<char>| exists|j: int| 0 <= j < p.len() && ids[p[j] as int] == x)
}

pub open spec fn increasing(p: Seq<usize>) -> bool {
    forall|a: int, b: int| 0 <= a < b < p.len() ==> p[a] < p[b]
}

pub open spec fn decreasing(p: Seq<usize>) -> bool {
    forall|a: int, b: int| 0 <= a < b < p.len() ==> p[a] > p[b]
}

/// The positions `select_asc` lists: ascending, below `n`, exactly those satisfying `f`.
pub proof fn lemma_select_asc(n: int, f: spec_fn(int) -> bool)
    requires
        0 <= n <= usize::MAX,
    ensures
        increasing(select_asc(n, f)),
        forall|k: int| 0 <= k < select_asc(n, f).len() ==> #[trigger] select_asc(n, f)[k] < n,
        forall|i: int| 0 <= i < n ==> (select_asc(n, f).contains(i as usize) <==> #[trigger] f(i)),
    decreases n,
{
    if n > 0 {
        lemma_select_asc(n - 1, f);
        let s = select_asc(n, f);
        let s0 = select_asc(n - 1, f);
        assert forall|i: int| 0 <= i < n implies (s.contains(i as usize) <==> #[trigger] f(i)) by {
            if s.contains(i as usize) {
                let k = choose|k: int| 0 <= k < s.len() && s[k] == i as usize;
                if k < s0.len() {
                    assert(s0.contains(i as usize));
                }
            }
            if f(i) {
                if i < n - 1 {
                    let k = choose|k: int| 0 <= k < s0.len() && s0[k] == i as usize;
                    assert(s[k] == i as usize);
                } else {
                    assert(s[s.len() - 1] == i as usize);
                }
            }
        }
    }
}

/// The positions `select_desc` lists: descending, in `[i, n)`, exactly those satisfying `f`.
pub proof fn lemma_select_desc(i: int, n: int, f: spec_fn(int) -> bool)
    requires
        0 <= i <= n <= usize::MAX,
    ensures
        decreasing(select_desc(i, n, f)),
        forall|k: int|
            0 <= k < select_desc(i, n, f).len() ==> i <= #[trigger] select_desc(i, n, f)[k] < n,
        forall|x: int| i <= x < n ==> (select_desc(i, n, f).contains(x as usize) <==> #[trigger] f(x)),
    decreases n - i,
{
    if i < n {
        lemma_select_desc(i + 1, n, f);
        let s = select_desc(i, n, f);
        let s0 = select_desc(i + 1, n, f);
        assert forall|x: int| i <= x < n implies (s.contains(x as usize) <==> #[trigger] f(x)) by {
            if s.contains(x as usize) {
                let k = choose|k: int| 0 <= k < s.len() && s[k] == x as usize;
                if k < s0.len() {
                    assert(s0.contains(x as usize));
                }
            }
            if f(x) {
                if x > i {
                    let k = choose|k: int| 0 <= k < s0.len() && s0[k] == x as usize;
                    assert(s[k] == x as usize);
                } else {
                    assert(s[s.len() - 1] == x as usize);
                }
            }
        }
    }
}

/// Two increasing sequences with the same elements are equal.
proof fn lemma_increasing_unique(s: Seq<usize>, t: Seq<usize>)
    requires
        increasing(s),
        increasing(t),
        forall|x: usize| s.contains(x) <==> t.contains(x),
    ensures
        s == t,
    decreases s.len(),
{
    if s.len() == 0 {
        if t.len() > 0 {
            assert(t.contains(t[0]));
        }
        assert(s =~= t);
    } else {
        assert(s.contains(s[0]));
        let b = choose|b: int| 0 <= b < t.len() && t[b] == s[0];
        assert(t.contains(t[0]));
        let a = choose|a: int| 0 <= a < s.len() && s[a] == t[0];
        assert(s[0] == t[0]) by {
            if b > 0 {
                assert(t[0] < t[b]);
                if a > 0 {
                    assert(s[0] < s[a]);
                }
            }
        }
        let s1 = s.drop_first();
        let t1 = t.drop_first();
        assert forall|x: usize| s1.contains(x) <==> t1.contains(x) by {
            if s1.contains(x) {
                let k = choose|k: int| 0 <= k < s1.len() && s1[k] == x;
                assert(s[k + 1] == x);
                assert(t.contains(x));
                let m = choose|m: int| 0 <= m < t.len() && t[m] == x;
                assert(s[0] < s[k + 1]);
                assert(m != 0);
                assert(t1[m - 1] == x);
            }
            if t1.contains(x) {
                let k = choose|k: int| 0 <= k < t1.len() && t1[k] == x;
                assert(t[k + 1] == x);
                assert(s.contains(x));
                let m = choose|m: int| 0 <= m < s.len() && s[m] == x;
                assert(t[0] < t[k + 1]);
                assert(m != 0);
                assert(s1[m - 1] == x);
            }
        }
        lemma_increasing_unique(s1, t1);
        assert(s =~= seq![s[0]] + s1);
        assert(t =~= seq![t[0]] + t1);
    }
}

/// A forward plan lists units in strictly ascending identifier order.
pub proof fn lemma_up_plan_ascending(
    ids: Seq<Seq<char>>,
    applied: Set<Seq<char>>,
    target: Option<Seq<char>>,
)
    requires
        strictly_ascending(ids),
        ids.len() <= usize::MAX,
    ensures
        forall|a: int, b: int|
            0 <= a < b < up_plan(ids, applied, target).len() ==> id_lt(
                ids[up_plan(ids, applied, target)[a] as int],
                ids[up_plan(ids, applied, target)[b] as int],
            ),
{
    let f = |i: int| in_up(ids, applied, target, i);
    lemma_select_asc(ids.len() as int, f);
    let p = up_plan(ids, applied, target);
    assert forall|a: int, b: int| 0 <= a < b < p.len() implies id_lt(
        ids[p[a] as int],
        ids[p[b] as int],
    ) by {
        assert(p[a] < p[b]);
        assert(p[b] < ids.len());
    }
}

/// A reverse plan lists units in strictly descending identifier order.
pub proof fn lemma_down_plan_descending(
    ids: Seq<Seq<char>>,
    applied: Set<Seq<char>>,
    target: Option<Seq<char>>,
    inclusive: bool,
)
    requires
        strictly_ascending(ids),
        ids.len() <= usize::MAX,
    ensures
        forall|a: int, b: int|
            0 <= a < b < down_plan(ids, applied, target, inclusive).len() ==> id_lt(
                ids[down_plan(ids, applied, target, inclusive)[b] as int],
                ids[down_plan(ids, applied, target, inclusive)[a] as int],
            ),
{
    let f = |i: int| in_down(ids, applied, target, inclusive, i);
    lemma_select_desc(0, ids.len() as int, f);
    let p = down_plan(ids, applied, target, inclusive);
    assert forall|a: int, b: int| 0 <= a < b < p.len() implies id_lt(
        ids[p[b] as int],
        ids[p[a] as int],
    ) by {
        assert(p[a] > p[b]);
        assert(p[a] < ids.len());
    }
}

/// After the first `k` units of a forward plan are recorded, planning again
/// yields exactly the rest of that plan.
pub proof fn lemma_up_plan_resumes(
    ids: Seq<Seq<char>>,
    applied: Set<Seq<char>>,
    target: Option<Seq<char>>,
    k: int,
)
    requires
        strictly_ascending(ids),
        ids.len() <= usize::MAX,
        0 <= k <= up_plan(ids, applied, target).len(),
    ensures
        up_plan(ids, applied.union(ids_at(ids, up_plan(ids, applied, target).take(k))), target)
            == up_plan(ids, applied, target).skip(k),
{
    let n = ids.len() as int;
    let p = up_plan(ids, applied, target);
    let done = ids_at(ids, p.take(k));
    let f = |i: int| in_up(ids, applied, target, i);
    let g = |i: int| in_up(ids, applied.union(done), target, i);
    lemma_select_asc(n, f);
    lemma_select_asc(n, g);
    let q = up_plan(ids, applied.union(done), target);
    let r = p.skip(k);
    assert forall|x: usize| q.contains(x) <==> r.contains(x) by {
        if q.contains(x) {
            let m = choose|m: int| 0 <= m < q.len() && q[m] == x;
            assert(q[m] < n);
            assert(g(x as int));
            assert(f(x as int));
            assert(p.contains(x));
            let j = choose|j: int| 0 <= j < p.len() && p[j] == x;
            if j < k {
                assert(p.take(k)[j] == x);
                assert(done.contains(ids[x as int]));
            }
            assert(r[j - k] == x);
        }
        if r.contains(x) {
            let m = choose|m: int| 0 <= m < r.len() && r[m] == x;
            assert(p[m + k] == x);
            assert(x < n);
            assert(f(x as int));
            assert(!done.contains(ids[x as int])) by {
                if done.contains(ids[x as int]) {
                    let j = choose|j: int|
                        0 <= j < p.take(k).len() && ids[p.take(k)[j] as int] == ids[x as int];
                    assert(p[j] < p[m + k]);
                    assert(id_lt(ids[p[j] as int], ids[x as int]));
                    lemma_id_lt_asymmetric(ids[p[j] as int], ids[x as int]);
                }
            }
            assert(g(x as int));
        }
    }
    assert(increasing(r));
    lemma_increasing_unique(q, r);
}

/// Planning again after a forward plan has been recorded in full yields an
/// empty plan.
pub proof fn lemma_up_plan_idempotent(
    ids: Seq<Seq<char>>,
    applied: Set<Seq<char>>,
    target: Option<Seq<char>>,
)
    requires
        strictly_ascending(ids),
        ids.len() <= usize::MAX,
    ensures
        up_plan(ids, applied.union(ids_at(ids, up_plan(ids, applied, target))), target).len()
            == 0,
{
    let p = up_plan(ids, applied, target);
    lemma_up_plan_resumes(ids, applied, target, p.len() as int);
    assert(p.take(p.len() as int) =~= p);
}

/// Two decreasing sequences with the same elements are equal.
proof fn lemma_decreasing_unique(s: Seq<usize>, t: Seq<usize>)
    requires
        decreasing(s),
        decreasing(t),
        forall|x: usize| s.contains(x) <==> t.contains(x),
    ensures
        s == t,
    decreases s.len(),
{
    if s.len() == 0 {
        if t.len() > 0 {
            assert(t.contains(t[0]));
        }
        assert(s =~= t);
    } else {
        assert(s.contains(s[0]));
        let b = choose|b: int| 0 <= b < t.len() && t[b] == s[0];
        assert(t.contains(t[0]));
        let a = choose|a: int| 0 <= a < s.len() && s[a] == t[0];
        assert(s[0] == t[0]) by {
            if b > 0 {
                assert(t[0] > t[b]);
                if a > 0 {
                    assert(s[0] > s[a]);
                }
            }
        }
        let s1 = s.drop_first();
        let t1 = t.drop_first();
        assert forall|x: usize| s1.contains(x) <==> t1.contains(x) by {
            if s1.contains(x) {
                let k = choose|k: int| 0 <= k < s1.len() && s1[k] == x;
                assert(s[k + 1] == x);
                assert(t.contains(x));
                let m = choose|m: int| 0 <= m < t.len() && t[m] == x;
                assert(s[0] > s[k + 1]);
                assert(m != 0);
                assert(t1[m - 1] == x);
            }
            if t1.contains(x) {
                let k = choose|k: int| 0 <= k < t1.len() && t1[k] == x;
                assert(t[k + 1] == x);
                assert(s.contains(x));
                let m = choose|m: int| 0 <= m < s.len() && s[m] == x;
                assert(t[0] > t[k + 1]);
                assert(m != 0);
                assert(s1[m - 1] == x);
            }
        }
        lemma_decreasing_unique(s1, t1);
        assert(s =~= seq![s[0]] + s1);
        assert(t =~= seq![t[0]] + t1);
    }
}

/// Reverting the first unit of a reverse plan leaves the rest of that plan.
pub proof fn lemma_down_plan_step(
    ids: Seq<Seq<char>>,
    applied: Set<Seq<char>>,
    target: Option<Seq<char>>,
    inclusive: bool,
)
    requires
        strictly_ascending(ids),
        ids.len() <= usize::MAX,
        down_plan(ids, applied, target, inclusive).len() > 0,
    ensures
        applied.contains(ids[down_plan(ids, applied, target, inclusive)[0] as int]),
        down_plan(
            ids,
            applied.remove(ids[down_plan(ids, applied, target, inclusive)[0] as int]),
            target,
            inclusive,
        ) == down_plan(ids, applied, target, inclusive).skip(1),
{
    let n = ids.len() as int;
    let p = down_plan(ids, applied, target, inclusive);
    let x0 = ids[p[0] as int];
    let f = |i: int| in_down(ids, applied, target, inclusive, i);
    let g = |i: int| in_down(ids, applied.remove(x0), target, inclusive, i);
    lemma_select_desc(0, n, f);
    lemma_select_desc(0, n, g);
    assert(f(p[0] as int));
    let q = down_plan(ids, applied.remove(x0), target, inclusive);
    let r = p.skip(1);
    assert forall|x: usize| q.contains(x) <==> r.contains(x) by {
        if q.contains(x) {
            let m = choose|m: int| 0 <= m < q.len() && q[m] == x;
            assert(q[m] < n);
            assert(g(x as int));
            assert(f(x as int));
            assert(p.contains(x));
            let j = choose|j: int| 0 <= j < p.len() && p[j] == x;
            assert(j != 0);
            assert(r[j - 1] == x);
        }
        if r.contains(x) {
            let m = choose|m: int| 0 <= m < r.len() && r[m] == x;
            assert(p[m + 1] == x);
            assert(f(x as int));
            assert(p[0] > x);
            assert(id_lt(ids[x as int], x0));
            lemma_id_lt_asymmetric(ids[x as int], x0);
            assert(g(x as int));
        }
    }
    assert(decreasing(r));
    lemma_decreasing_unique(q, r);
}

/// The first applied identifier, ascending, that the catalog lacks.
pub fn find_anomaly(catalog: &Catalog, ledger: &Ledger) -> (r: Option<String>)
    requires
        ledger.wf(),
    ensures
        r is None <==> !has_anomaly(catalog.ids(), ledger.applied()),
        r matches Some(x) ==> ledger.applied().contains(x@) && !catalog.ids().contains(x@),
        r matches Some(x) ==> exists|k: int|
            0 <= k < ledger.ids().len() && ledger.ids()[k] == x@ && forall|j: int|
                0 <= j < k ==> catalog.ids().contains(#[trigger] ledger.ids()[j]),
{
    let applied = ledger.list_applied();
    let mut k: usize = 0;
    while k < applied.len()
        invariant
            k <= applied@.len(),
            applied@.len() == ledger.view().len(),
            forall|j: int| 0 <= j < applied@.len() ==> #[trigger] applied@[j]@ == ledger.ids()[j],
            forall|j: int| 0 <= j < k ==> catalog.ids().contains(#[trigger] ledger.ids()[j]),
        decreases applied@.len() - k,
    {
        match catalog.index_of(applied[k].as_str()) {
            None => {
                assert(ledger.ids().contains(ledger.ids()[k as int]));
                assert(ledger.ids()[k as int] == applied@[k as int]@);
                return Some(applied[k].clone());
            },
            Some(i) => {
                assert(catalog.ids().contains(catalog.ids()[i as int]));
            },
        }
        k = k + 1;
    }
    assert forall|x: Seq<char>| ledger.applied().contains(x) implies catalog.ids().contains(x) by {
        let j = choose|j: int| 0 <= j < ledger.ids().len() && ledger.ids()[j] == x;
    }
    None
}

/// The positions of the units to apply, ascending by identifier: those not
/// in the ledger and not above `target`. Fails if the ledger holds an
/// identifier that the catalog lacks.
pub fn plan_up(catalog: &Catalog, ledger: &Ledger, target: Option<&str>) -> (r: Result<
    Vec<usize>,
    PlanError,
>)
    requires
        ledger.wf(),
    ensures
        r is Err <==> has_anomaly(catalog.ids(), ledger.applied()),
        r matches Err(e) ==> e is CatalogAnomaly,
        r matches Err(PlanError::CatalogAnomaly { migration_id }) ==> ledger.applied().contains(migration_id@)
            && !catalog.ids().contains(migration_id@),
        r matches Ok(p) ==> p@ == up_plan(catalog.ids(), ledger.applied(), target_view(target)),
{
    if let Some(migration_id) = find_anomaly(catalog, ledger) {
        return Err(PlanError::CatalogAnomaly { migration_id });
    }
    let ghost ids = catalog.ids();
    let ghost f = |i: int| in_up(ids, ledger.applied(), target_view(target), i);
    let n = catalog.len();
    let mut p: Vec<usize> = Vec::new();
    let mut i: usize = 0;
    while i < n
        invariant
            n == ids.len(),
            ids == catalog.ids(),
            i <= n,
            f == (|i: int| in_up(ids, ledger.applied(), target_view(target), i)),
            ledger.wf(),
            p@ == select_asc(i as int, f),
        decreases n - i,
    {
        let id = catalog.unit(i).id.as_str();
        assert(id@ == ids[i as int]);
        let within = match target {
            Some(t) => !id_less(t, id),
            None => true,
        };
        proof {
            if let Some(t) = target {
                crate::order::lemma_id_lt_total(id@, t@);
                if id@ != t@ && !id_lt(t@, id@) {
                } else if id_lt(t@, id@) {
                    lemma_id_lt_asymmetric(t@, id@);
                }
            }
        }
        if !ledger.contains(id) && within {
            p.push(i);
        }
        assert(p@ =~= select_asc(i + 1, f));
        i = i + 1;
    }
    Ok(p)
}

/// The positions of the units to revert, descending by identifier: those in
/// the ledger and above `target` (or equal to it when `inclusive`). Fails on
/// an anomaly, or if one of them is not reversible.
pub fn plan_down(
    catalog: &Catalog,
    ledger: &Ledger,
    target: Option<&str>,
    inclusive: bool,
) -> (r: Result<Vec<usize>, PlanError>)
    requires
        ledger.wf(),
    ensures
        (r matches Err(PlanError::CatalogAnomaly { .. })) <==> has_anomaly(catalog.ids(), ledger.applied()),
        r matches Err(PlanError::CatalogAnomaly { migration_id }) ==> ledger.applied().contains(migration_id@)
            && !catalog.ids().contains(migration_id@),
        r matches Err(PlanError::Irreversible { migration_id }) ==> exists|k: int|
            0 <= k < down_plan(catalog.ids(), ledger.applied(), target_view(target), inclusive).len()
                && !catalog.units()[#[trigger] down_plan(catalog.ids(), ledger.applied(), target_view(target), inclusive)[k] as int].reversible
                && catalog.ids()[down_plan(catalog.ids(), ledger.applied(), target_view(target), inclusive)[k] as int] == migration_id@,
        !has_anomaly(catalog.ids(), ledger.applied()) ==> (r is Ok <==> forall|k: int|
            0 <= k < down_plan(catalog.ids(), ledger.applied(), target_view(target), inclusive).len()
                ==> catalog.units()[#[trigger] down_plan(catalog.ids(), ledger.applied(), target_view(target), inclusive)[k] as int].reversible),
        r matches Ok(p) ==> p@ == down_plan(catalog.ids(), ledger.applied(), target_view(target), inclusive),
{
    if let Some(migration_id) = find_anomaly(catalog, ledger) {
        return Err(PlanError::CatalogAnomaly { migration_id });
    }
    let ghost ids = catalog.ids();
    let ghost f = |i: int| in_down(ids, ledger.applied(), target_view(target), inclusive, i);
    let n = catalog.len();
    let mut p: Vec<usize> = Vec::new();
    let mut i: usize = n;
    while i > 0
        invariant
            n == ids.len(),
            ids == catalog.ids(),
            i <= n,
            f == (|i: int| in_down(ids, ledger.applied(), target_view(target), inclusive, i)),
            ledger.wf(),
            p@ == select_desc(i as int, n as int, f),
            !has_anomaly(catalog.ids(), ledger.applied()),
            forall|k: int| 0 <= k < p@.len() ==> catalog.units()[#[trigger] p@[k] as int].reversible,
        decreases i,
    {
        let u = catalog.unit(i - 1);
        let id = u.id.as_str();
        assert(id@ == ids[i - 1]);
        let above = match target {
            Some(t) => id_less(t, id) || (inclusive && id_equal(id, t)),
            None => true,
        };
        if ledger.contains(id) && above {
            if !u.reversible {
                proof {
                    lemma_select_desc(0, n as int, f);
                    lemma_select_desc(i - 1, n as int, f);
                    assert(f(i - 1));
                    let dp = down_plan(ids, ledger.applied(), target_view(target), inclusive);
                    assert(dp.contains((i - 1) as usize));
                    let k = choose|k: int| 0 <= k < dp.len() && dp[k] == (i - 1) as usize;
                    assert(!catalog.units()[dp[k] as int].reversible);
                }
                return Err(PlanError::Irreversible { migration_id: u.id.clone() });
            }
            p.push(i - 1);
        }
        assert(p@ =~= select_desc(i - 1, n as int, f));
        i = i - 1;
    }
    Ok(p)
}

} // verus!
