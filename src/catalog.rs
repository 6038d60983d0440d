//! Migration units and the catalog that orders them.
use vstd::prelude::*;
use crate::order::{id_equal, id_less, id_lt, lemma_id_lt_transitive};

verus! {

/// One versioned schema change: its identifier, a label, and what the
/// engine must know about how it runs.
#[derive(Clone, Debug)]
pub struct MigrationUnit {
    pub id: String,
    pub description: String,
    /// The unit has a meaningful reverse operation.
    pub reversible: bool,
    /// The unit's change may run inside a transaction.
    pub transactional: bool,
}

impl MigrationUnit {
    /// A reversible, transactional unit.
    pub fn new(id: &str, description: &str) -> (r: MigrationUnit)
        ensures
            r.id@ == id@,
            r.description@ == description@,
            r.reversible,
            r.transactional,
    {
        MigrationUnit {
            id: String::from_str(id),
            description: String::from_str(description),
            reversible: true,
            transactional: true,
        }
    }
}

/// Identifiers strictly ascending, hence pairwise distinct.
pub open spec fn strictly_ascending(ids: Seq<Seq<char>>) -> bool {
    forall|i: int, j: int| 0 <= i < j < ids.len() ==> id_lt(#[trigger] ids[i], #[trigger] ids[j])
}

proof fn lemma_ascending_from(ids: Seq<Seq<char>>, i: int, j: int)
    requires
        forall|k: int| 0 <= k < ids.len() - 1 ==> id_lt(#[trigger] ids[k], ids[k + 1]),
        0 <= i < j < ids.len(),
    ensures
        id_lt(ids[i], ids[j]),
    decreases j - i,
{
    if j > i + 1 {
        lemma_ascending_from(ids, i, j - 1);
        lemma_id_lt_transitive(ids[i], ids[j - 1], ids[j]);
    }
}

/// Identifiers each below the next are strictly ascending throughout.
pub proof fn lemma_adjacent_ascending(ids: Seq<Seq<char>>)
    requires
        forall|k: int| 0 <= k < ids.len() - 1 ==> id_lt(#[trigger] ids[k], ids[k + 1]),
    ensures
        strictly_ascending(ids),
{
    assert forall|i: int, j: int| 0 <= i < j < ids.len() implies id_lt(
        #[trigger] ids[i],
        #[trigger] ids[j],
    ) by {
        lemma_ascending_from(ids, i, j);
    }
}

pub open spec fn unit_ids(units: Seq<MigrationUnit>) -> Seq<Seq<char>> {
    units.map_values(|u: MigrationUnit| u.id@)
}

/// Why a list of units cannot form a catalog. `index` is the position of the
/// first unit that does not sort strictly after its predecessor.
#[derive(Debug, PartialEq, Eq, Structural)]
pub enum CatalogError {
    DuplicateId { index: usize },
    OutOfOrder { index: usize },
}

/// The ordered collection of every known migration unit.
#[derive(Clone, Debug)]
pub struct Catalog {
    units: Vec<MigrationUnit>,
}

impl Catalog {
    pub closed spec fn units(&self) -> Seq<MigrationUnit> {
        self.units@
    }

    pub open spec fn ids(&self) -> Seq<Seq<char>> {
        unit_ids(self.units())
    }

    pub open spec fn wf(&self) -> bool {
        &&& strictly_ascending(self.ids())
        &&& self.units().len() <= usize::MAX
    }

    /// A catalog with no units.
    pub fn empty() -> (r: Catalog)
        ensures
            r.wf(),
            r.units().len() == 0,
    {
        Catalog { units: Vec::new() }
    }

    /// Builds a catalog from units listed in ascending identifier order.
    pub fn new(units: Vec<MigrationUnit>) -> (r: Result<Catalog, CatalogError>)
        ensures
            r is Ok <==> strictly_ascending(unit_ids(units@)),
            r matches Ok(c) ==> c.wf() && c.units() == units@,
            r matches Err(CatalogError::DuplicateId { index }) ==> {
                &&& 0 < index < units@.len()
                &&& strictly_ascending(unit_ids(units@).take(index as int))
                &&& units@[index - 1].id@ == units@[index as int].id@
            },
            r matches Err(CatalogError::OutOfOrder { index }) ==> {
                &&& 0 < index < units@.len()
                &&& strictly_ascending(unit_ids(units@).take(index as int))
                &&& id_lt(units@[index as int].id@, units@[index - 1].id@)
            },
    {
        let ghost ids = unit_ids(units@);
        let n = units.len();
        let mut k: usize = 1;
        if n == 0 {
            return Ok(Catalog { units });
        }
        while k < n
            invariant
                1 <= k <= n,
                n == units@.len(),
                ids == unit_ids(units@),
                strictly_ascending(ids.take(k as int)),
            decreases n - k,
        {
            if !id_less(units[k - 1].id.as_str(), units[k].id.as_str()) {
                if id_equal(units[k - 1].id.as_str(), units[k].id.as_str()) {
                    assert(ids[k - 1] == units@[k - 1].id@);
                    assert(ids[k as int] == units@[k as int].id@);
                    assert(ids.take(k as int) =~= unit_ids(units@).take(k as int));
                    return Err(CatalogError::DuplicateId { index: k });
                } else {
                    proof { crate::order::lemma_id_lt_total(units@[k - 1].id@, units@[k as int].id@); }
                    assert(ids[k - 1] == units@[k - 1].id@);
                    assert(ids[k as int] == units@[k as int].id@);
                    assert(ids.take(k as int) =~= unit_ids(units@).take(k as int));
                    return Err(CatalogError::OutOfOrder { index: k });
                }
            }
            assert(strictly_ascending(ids.take(k + 1))) by {
                assert forall|i: int, j: int| 0 <= i < j < k + 1 implies id_lt(
                    #[trigger] ids.take(k + 1)[i],
                    #[trigger] ids.take(k + 1)[j],
                ) by {
                    if j == k && i < k - 1 {
                        assert(id_lt(ids.take(k as int)[i], ids.take(k as int)[k - 1]));
                        lemma_id_lt_transitive(ids[i], ids[k - 1], ids[j]);
                    } else if j < k {
                        assert(id_lt(ids.take(k as int)[i], ids.take(k as int)[j]));
                    }
                }
            }
            k = k + 1;
        }
        assert(ids.take(n as int) =~= ids);
        Ok(Catalog { units })
    }

    pub fn len(&self) -> (r: usize)
        ensures
            r == self.units().len(),
    {
        self.units.len()
    }

    pub fn unit(&self, i: usize) -> (r: &MigrationUnit)
        requires
            i < self.units().len(),
        ensures
            *r == self.units()[i as int],
    {
        &self.units[i]
    }

    /// The position of the unit with identifier `id`, if the catalog has one.
    pub fn index_of(&self, id: &str) -> (r: Option<usize>)
        ensures
            r matches Some(i) ==> i < self.units().len() && self.ids()[i as int] == id@,
            r is None ==> !self.ids().contains(id@),
    {
        let mut i: usize = 0;
        while i < self.units.len()
            invariant
                i <= self.units@.len(),
                forall|j: int| 0 <= j < i ==> self.ids()[j] != id@,
            decreases self.units@.len() - i,
        {
            if id_equal(self.units[i].id.as_str(), id) {
                return Some(i);
            }
            i = i + 1;
        }
        None
    }

    /// The identifiers of the units at the given positions, in that order.
    pub fn ids_at(&self, positions: &Vec<usize>) -> (r: Vec<String>)
        requires
            forall|k: int| 0 <= k < positions@.len() ==> positions@[k] < self.units().len(),
        ensures
            r@.len() == positions@.len(),
            forall|k: int| 0 <= k < positions@.len() ==> #[trigger] r@[k]@ == self.ids()[positions@[k] as int],
    {
        let mut r: Vec<String> = Vec::new();
        let mut k: usize = 0;
        while k < positions.len()
            invariant
                k <= positions@.len(),
                r@.len() == k,
                forall|k: int| 0 <= k < positions@.len() ==> positions@[k] < self.units().len(),
                forall|j: int| 0 <= j < k ==> #[trigger] r@[j]@ == self.ids()[positions@[j] as int],
            decreases positions@.len() - k,
        {
            r.push(self.units[positions[k]].id.clone());
            k = k + 1;
        }
        r
    }
}

} // verus!
