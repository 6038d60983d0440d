//! The catalog of this database's migrations.
use vstd::prelude::*;
use crate::catalog::{lemma_adjacent_ascending, unit_ids, Catalog, MigrationUnit};
use crate::order::id_lt;

verus! {

/// The migrations of this schema, in the order they were written.
pub struct Migrator;

impl Migrator {
    /// The migration units, ascending by identifier.
    pub fn migrations() -> (r: Vec<MigrationUnit>)
        ensures
            r@.len() == 6,
            r@[0].id@ == "m20220101_000001_create_table"@,
            r@[1].id@ == "m20230730_233755_create_theme_song_entity"@,
            r@[2].id@ == "m20230801_120415_gen_random_uuid"@,
            r@[3].id@ == "m20230802_075725_search_indices"@,
            r@[4].id@ == "m20230807_142613_versioning"@,
            r@[5].id@ == "m20230811_170956_sessions"@,
            forall|i: int| 0 <= i < r@.len() ==> (#[trigger] r@[i]).reversible && r@[i].transactional,
    {
        vec![
            MigrationUnit::new("m20220101_000001_create_table", "create tables"),
            MigrationUnit::new("m20230730_233755_create_theme_song_entity", "create theme song entity"),
            MigrationUnit::new("m20230801_120415_gen_random_uuid", "generate random uuids"),
            MigrationUnit::new("m20230802_075725_search_indices", "search indices"),
            MigrationUnit::new("m20230807_142613_versioning", "versioning"),
            MigrationUnit::new("m20230811_170956_sessions", "sessions"),
        ]
    }

    /// The catalog of all migrations.
    pub fn catalog() -> (r: Catalog)
        ensures
            r.wf(),
            r.units().len() == 6,
    {
        let units = Self::migrations();
        proof {
            reveal_strlit("m20220101_000001_create_table");
            reveal_strlit("m20230730_233755_create_theme_song_entity");
            reveal_strlit("m20230801_120415_gen_random_uuid");
            reveal_strlit("m20230802_075725_search_indices");
            reveal_strlit("m20230807_142613_versioning");
            reveal_strlit("m20230811_170956_sessions");
            reveal_with_fuel(id_lt, 12);
            let ids = unit_ids(units@);
            assert(id_lt(ids[0], ids[1]));
            assert(id_lt(ids[1], ids[2]));
            assert(id_lt(ids[2], ids[3]));
            assert(id_lt(ids[3], ids[4]));
            assert(id_lt(ids[4], ids[5]));
            lemma_adjacent_ascending(ids);
        }
        match Catalog::new(units) {
            Ok(c) => c,
            Err(_) => Catalog::empty(),
        }
    }
}

} // verus!
