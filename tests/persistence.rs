use std::collections::HashMap;

use infra::documents::{DocMeta, Version};
use infra::ids::{Entity, IdGen};
use infra::persistence::{begin_save, finish_save, ConcurrencyError, WritePlan};
use infra::untyped_ids::UntypedId;

#[derive(Debug)]
struct ADocument;

impl Entity for ADocument {
    fn prefix() -> &'static str {
        "adocument"
    }
}

/// A table that applies the store's write predicates: insert where the
/// identifier is absent, update where the stored version is the expected one.
#[derive(Default)]
struct Table {
    rows: HashMap<UntypedId, (u64, String)>,
}

impl Table {
    fn save(&mut self, meta: &mut DocMeta<ADocument>, name: &str) -> Result<(), ConcurrencyError> {
        let plan = begin_save(meta);
        let id = meta.id.untyped();
        let row = (meta.version.0, name.to_string());
        let mut after = self.rows.clone();
        let rows = match plan {
            WritePlan::Insert => {
                if after.contains_key(&id) {
                    0
                } else {
                    after.insert(id, row);
                    1
                }
            }
            WritePlan::UpdateIfVersion(expected) => match after.get(&id) {
                Some((stored, _)) if *stored == expected => {
                    after.insert(id, row);
                    1
                }
                _ => 0,
            },
        };
        finish_save(rows)?;
        self.rows = after;
        Ok(())
    }

    fn load(&self, meta: &DocMeta<ADocument>) -> Option<(u64, String)> {
        self.rows.get(&meta.id.untyped()).cloned()
    }
}

#[test]
fn create_save_load_and_resave_stale_copy() {
    let idgen = IdGen::new();
    let mut table = Table::default();
    let original = DocMeta::<ADocument>::new_with_id(idgen.generate());
    let mut a = original.clone();

    table.save(&mut a, "Dave").expect("save");
    assert_eq!(table.load(&a), Some((1, "Dave".to_string())));

    let mut stale = original.clone();
    assert_eq!(stale.version, Version(0));
    assert_eq!(table.save(&mut stale, "Dave"), Err(ConcurrencyError));
    assert_eq!(table.load(&a), Some((1, "Dave".to_string())));
}

#[test]
fn concurrent_overwrite_keeps_the_winner() {
    let idgen = IdGen::new();
    let mut table = Table::default();
    let mut a = DocMeta::<ADocument>::new_with_id(idgen.generate());
    table.save(&mut a, "Version 1").expect("save original");

    let mut first = a.clone();
    let mut second = a.clone();
    table.save(&mut first, "Version 2").expect("first writer");
    assert_eq!(table.save(&mut second, "Version 3"), Err(ConcurrencyError));
    assert_eq!(table.load(&a), Some((2, "Version 2".to_string())));
}

#[test]
fn new_document_with_forged_version_fails() {
    let idgen = IdGen::new();
    let mut table = Table::default();
    let mut meta = DocMeta::<ADocument>::new_with_id(idgen.generate());
    meta.version = Version(4);
    assert_eq!(table.save(&mut meta, "Version 1"), Err(ConcurrencyError));
    assert_eq!(table.load(&meta), None);
    assert_eq!(meta.version, Version(5));
}

#[test]
fn saving_the_current_copy_moves_the_version_on() {
    let idgen = IdGen::new();
    let mut table = Table::default();
    let mut a = DocMeta::<ADocument>::new_with_id(idgen.generate());
    for expected in 1..5u64 {
        table.save(&mut a, "Old").expect("save");
        assert_eq!(a.version, Version(expected));
        assert_eq!(table.load(&a).map(|r| r.0), Some(expected));
    }
}
