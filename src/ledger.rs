//! The version ledger: which migrations have been applied, and when.
use vstd::prelude::*;
use crate::catalog::strictly_ascending;
use crate::order::{id_equal, id_less, id_lt, lemma_id_lt_asymmetric, lemma_id_lt_total, lemma_id_lt_transitive};

verus! {

/// One applied migration and the time its change was committed.
#[derive(Clone, Debug)]
pub struct LedgerEntry {
    pub migration_id: String,
    pub applied_at: i64,
}

#[derive(Debug, PartialEq, Eq, Structural)]
pub enum LedgerError {
    /// `record` of an identifier that is already in the ledger.
    AlreadyRecorded,
    /// `erase` of an identifier that is not in the ledger.
    NotRecorded,
}

/// The ledger's contents, kept in ascending identifier order.
#[derive(Clone, Debug)]
pub struct Ledger {
    entries: Vec<LedgerEntry>,
}

impl Ledger {
    /// Identifier and time of each entry, ascending by identifier.
    pub closed spec fn view(&self) -> Seq<(Seq<char>, i64)> {
        self.entries@.map_values(|e: LedgerEntry| (e.migration_id@, e.applied_at))
    }

    pub open spec fn ids(&self) -> Seq<Seq<char>> {
        self.view().map_values(|e: (Seq<char>, i64)| e.0)
    }

    /// The set of applied identifiers.
    pub open spec fn applied(&self) -> Set<Seq<char>> {
        self.ids().to_set()
    }

    pub open spec fn wf(&self) -> bool {
        strictly_ascending(self.ids())
    }

    /// An empty ledger.
    pub fn new() -> (r: Ledger)
        ensures
            r.wf(),
            r.view() == Seq::<(Seq<char>, i64)>::empty(),
    {
        let r = Ledger { entries: Vec::new() };
        assert(r.view() =~= Seq::<(Seq<char>, i64)>::empty());
        r
    }

    pub fn len(&self) -> (r: usize)
        ensures
            r == self.view().len(),
    {
        self.entries.len()
    }

    /// The first position whose identifier does not sort before `id`.
    fn lower_bound(&self, id: &str) -> (k: usize)
        requires
            self.wf(),
        ensures
            k <= self.view().len(),
            forall|j: int| 0 <= j < k ==> id_lt(#[trigger] self.ids()[j], id@),
            forall|j: int| k <= j < self.view().len() ==> !id_lt(#[trigger] self.ids()[j], id@),
    {
        let mut k: usize = 0;
        while k < self.entries.len()
            invariant
                self.wf(),
                k <= self.view().len(),
                forall|j: int| 0 <= j < k ==> id_lt(#[trigger] self.ids()[j], id@),
            decreases self.view().len() - k,
        {
            assert(self.ids()[k as int] == self.entries@[k as int].migration_id@);
            if !id_less(self.entries[k].migration_id.as_str(), id) {
                assert forall|j: int| k <= j < self.view().len() implies !id_lt(
                    #[trigger] self.ids()[j],
                    id@,
                ) by {
                    if j > k && id_lt(self.ids()[j], id@) {
                        assert(id_lt(self.ids()[k as int], self.ids()[j]));
                        lemma_id_lt_transitive(self.ids()[k as int], self.ids()[j], id@);
                    }
                }
                return k;
            }
            k = k + 1;
        }
        k
    }

    /// Whether `id` has been applied.
    pub fn contains(&self, id: &str) -> (r: bool)
        requires
            self.wf(),
        ensures
            r == self.applied().contains(id@),
    {
        let k = self.lower_bound(id);
        if k < self.entries.len() {
            assert(self.ids()[k as int] == self.entries@[k as int].migration_id@);
            if id_equal(self.entries[k].migration_id.as_str(), id) {
                assert(self.ids()[k as int] == id@);
                return true;
            }
        }
        proof {
            if self.applied().contains(id@) {
                let j = choose|j: int| 0 <= j < self.ids().len() && self.ids()[j] == id@;
                crate::order::lemma_id_lt_irreflexive(id@);
                if j > k {
                    assert(id_lt(self.ids()[k as int], self.ids()[j]));
                    lemma_id_lt_total(self.ids()[k as int], id@);
                    lemma_id_lt_asymmetric(self.ids()[k as int], id@);
                }
            }
        }
        false
    }

    /// When `id` was applied, if it was.
    pub fn applied_at(&self, id: &str) -> (r: Option<i64>)
        requires
            self.wf(),
        ensures
            r is None <==> !self.applied().contains(id@),
            r matches Some(t) ==> exists|j: int|
                0 <= j < self.view().len() && #[trigger] self.view()[j] == (id@, t),
    {
        let k = self.lower_bound(id);
        if k < self.entries.len() && id_equal(self.entries[k].migration_id.as_str(), id) {
            let t = self.entries[k].applied_at;
            assert(self.view()[k as int] == (id@, t));
            assert(self.ids()[k as int] == id@);
            return Some(t);
        }
        if self.contains(id) {
            let ghost j = choose|j: int| 0 <= j < self.ids().len() && self.ids()[j] == id@;
            proof {
                crate::order::lemma_id_lt_irreflexive(id@);
                if j > k {
                    assert(id_lt(self.ids()[k as int], self.ids()[j]));
                    lemma_id_lt_total(self.ids()[k as int], id@);
                    lemma_id_lt_asymmetric(self.ids()[k as int], id@);
                }
            }
            assert(false);
        }
        None
    }

    /// Records that `id` was applied at time `at`, keeping the order.
    pub fn record(&mut self, id: String, at: i64) -> (r: Result<(), LedgerError>)
        requires
            old(self).wf(),
        ensures
            final(self).wf(),
            r is Err <==> old(self).applied().contains(id@),
            r matches Err(e) ==> e == LedgerError::AlreadyRecorded && *final(self) == *old(self),
            r is Ok ==> exists|k: int|
                0 <= k <= old(self).view().len() && final(self).view() == old(self).view().insert(
                    k,
                    (id@, at),
                ),
            r is Ok ==> final(self).applied() == old(self).applied().insert(id@),
    {
        if self.contains(id.as_str()) {
            return Err(LedgerError::AlreadyRecorded);
        }
        let k = self.lower_bound(id.as_str());
        let ghost before = self.view();
        let ghost ids0 = self.ids();
        let ghost applied0 = self.applied();
        let ghost idv = id@;
        self.entries.insert(k, LedgerEntry { migration_id: id, applied_at: at });
        assert(self.view() =~= before.insert(k as int, (idv, at)));
        assert(self.ids() =~= ids0.insert(k as int, idv));
        proof {
            assert forall|i: int, j: int| 0 <= i < j < self.ids().len() implies id_lt(
                #[trigger] self.ids()[i],
                #[trigger] self.ids()[j],
            ) by {
                if i < k && j == k {
                } else if i == k && j > k {
                    assert(self.ids()[j] == ids0[j - 1]);
                    assert(!id_lt(ids0[j - 1], idv));
                    assert(ids0[j - 1] != idv) by {
                        assert(ids0.contains(ids0[j - 1]));
                    }
                    lemma_id_lt_total(ids0[j - 1], idv);
                } else if i < k && j > k {
                    assert(id_lt(ids0[i], ids0[j - 1]));
                } else if i > k {
                    assert(id_lt(ids0[i - 1], ids0[j - 1]));
                }
            }
            assert(self.applied() =~= applied0.insert(idv)) by {
                assert forall|x: Seq<char>| self.applied().contains(x) implies applied0.insert(idv).contains(x) by {
                    let j = choose|j: int| 0 <= j < self.ids().len() && self.ids()[j] == x;
                    if j < k {
                        assert(ids0[j] == x);
                    } else if j > k {
                        assert(ids0[j - 1] == x);
                    }
                }
                assert forall|x: Seq<char>| applied0.insert(idv).contains(x) implies self.applied().contains(x) by {
                    if x == idv {
                        assert(self.ids()[k as int] == x);
                    } else {
                        let j = choose|j: int| 0 <= j < ids0.len() && ids0[j] == x;
                        if j < k {
                            assert(self.ids()[j] == x);
                        } else {
                            assert(self.ids()[j + 1] == x);
                        }
                    }
                }
            }
        }
        Ok(())
    }

    /// Removes the entry of `id`.
    pub fn erase(&mut self, id: &str) -> (r: Result<(), LedgerError>)
        requires
            old(self).wf(),
        ensures
            final(self).wf(),
            r is Err <==> !old(self).applied().contains(id@),
            r matches Err(e) ==> e == LedgerError::NotRecorded && *final(self) == *old(self),
            r is Ok ==> exists|k: int|
                0 <= k < old(self).view().len() && old(self).view()[k].0 == id@
                    && final(self).view() == old(self).view().remove(k),
            r is Ok ==> final(self).applied() == old(self).applied().remove(id@),
    {
        if !self.contains(id) {
            return Err(LedgerError::NotRecorded);
        }
        let k = self.lower_bound(id);
        let ghost before = self.view();
        let ghost ids0 = self.ids();
        let ghost applied0 = self.applied();
        proof {
            let j = choose|j: int| 0 <= j < ids0.len() && ids0[j] == id@;
            crate::order::lemma_id_lt_irreflexive(id@);
            if j > k {
                assert(id_lt(ids0[k as int], ids0[j]));
                lemma_id_lt_total(ids0[k as int], id@);
                lemma_id_lt_asymmetric(ids0[k as int], id@);
            }
            assert(j == k);
        }
        self.entries.remove(k);
        assert(self.view() =~= before.remove(k as int));
        assert(self.ids() =~= ids0.remove(k as int));
        proof {
            assert forall|i: int, j: int| 0 <= i < j < self.ids().len() implies id_lt(
                #[trigger] self.ids()[i],
                #[trigger] self.ids()[j],
            ) by {
                if i < k && j < k {
                    assert(id_lt(ids0[i], ids0[j]));
                } else if i < k {
                    assert(id_lt(ids0[i], ids0[j + 1]));
                } else {
                    assert(id_lt(ids0[i + 1], ids0[j + 1]));
                }
            }
            assert(self.applied() =~= applied0.remove(id@)) by {
                assert forall|x: Seq<char>| self.applied().contains(x) implies applied0.remove(id@).contains(x) by {
                    let j = choose|j: int| 0 <= j < self.ids().len() && self.ids()[j] == x;
                    if j < k {
                        assert(ids0[j] == x);
                        assert(id_lt(ids0[j], ids0[k as int]));
                        lemma_id_lt_asymmetric(ids0[j], ids0[k as int]);
                    } else {
                        assert(ids0[j + 1] == x);
                        assert(id_lt(ids0[k as int], ids0[j + 1]));
                        lemma_id_lt_asymmetric(ids0[k as int], ids0[j + 1]);
                    }
                }
                assert forall|x: Seq<char>| applied0.remove(id@).contains(x) implies self.applied().contains(x) by {
                    let j = choose|j: int| 0 <= j < ids0.len() && ids0[j] == x;
                    if j < k {
                        assert(self.ids()[j] == x);
                    } else {
                        assert(j != k);
                        assert(self.ids()[j - 1] == x);
                    }
                }
            }
        }
        Ok(())
    }

    /// The applied identifiers, ascending.
    pub fn list_applied(&self) -> (r: Vec<String>)
        requires
            self.wf(),
        ensures
            r@.len() == self.view().len(),
            forall|k: int| 0 <= k < r@.len() ==> #[trigger] r@[k]@ == self.ids()[k],
            strictly_ascending(self.ids()),
    {
        let mut r: Vec<String> = Vec::new();
        let mut k: usize = 0;
        while k < self.entries.len()
            invariant
                k <= self.view().len(),
                r@.len() == k,
                forall|j: int| 0 <= j < k ==> #[trigger] r@[j]@ == self.ids()[j],
            decreases self.view().len() - k,
        {
            r.push(self.entries[k].migration_id.clone());
            k = k + 1;
        }
        r
    }
}

} // verus!
