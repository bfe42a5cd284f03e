use vstd::prelude::*;

use crate::documents::DocMeta;
use crate::untyped_ids::UntypedId;

verus! {

/// A save lost a race: the stored version had moved on, or the identifier of a
/// document saved for the first time was already taken.
#[derive(Debug, Clone, Copy, PartialEq, Eq, Structural)]
pub struct ConcurrencyError;

/// The conditional write that a save makes.
#[derive(Debug, Clone, Copy, PartialEq, Eq, Structural)]
pub enum WritePlan {
    /// Insert the document, only where no row has its identifier.
    Insert,
    /// Replace the stored document, only where the stored version is this one.
    UpdateIfVersion(u64),
}

/// The documents table as the write predicates see it: for each identifier, the
/// version stored in the body, and the body.
pub type Table = Map<UntypedId, (u64, Seq<char>)>;

/// The write for a document whose version before the save is `version`.
pub open spec fn plan_for(version: u64) -> WritePlan {
    if version == 0 {
        WritePlan::Insert
    } else {
        WritePlan::UpdateIfVersion(version)
    }
}

/// A write of `body`, at version `new_version`, under `id`: the table after it and
/// the number of rows it touched.
pub open spec fn apply_write(
    table: Table,
    id: UntypedId,
    plan: WritePlan,
    new_version: u64,
    body: Seq<char>,
) -> (Table, nat) {
    match plan {
        WritePlan::Insert => if table.contains_key(id) {
            (table, 0)
        } else {
            (table.insert(id, (new_version, body)), 1)
        },
        WritePlan::UpdateIfVersion(expected) => if table.contains_key(id) && table[id].0
            == expected {
            (table.insert(id, (new_version, body)), 1)
        } else {
            (table, 0)
        },
    }
}

/// A whole save of `body` under `id`, for a document at `version` before the save:
/// the table after it, and the outcome. A write that touched no row is rolled back.
pub open spec fn save_effect(table: Table, id: UntypedId, version: u64, body: Seq<char>) -> (
    Table,
    Result<(), ConcurrencyError>,
)
    recommends
        version < u64::MAX,
{
    let (after, rows) = apply_write(table, id, plan_for(version), (version + 1) as u64, body);
    if rows == 0 {
        (table, Err(ConcurrencyError))
    } else {
        (after, Ok(()))
    }
}

/// What loading `id` gives: its stored version and body, if any.
pub open spec fn load_effect(table: Table, id: UntypedId) -> Option<(u64, Seq<char>)> {
    if table.contains_key(id) {
        Some(table[id])
    } else {
        None
    }
}

/// The first step of a save: counts the save in the document's version and says
/// which conditional write stores it.
pub fn begin_save<T>(meta: &mut DocMeta<T>) -> (r: WritePlan)
    requires
        old(meta).version.0 < u64::MAX,
    ensures
        r == plan_for(old(meta).version.0),
        final(meta).version.0 == old(meta).version.0 + 1,
        final(meta).id@ == old(meta).id@,
{
    let current = meta.version.0;
    meta.increment_version();
    if current == 0 {
        WritePlan::Insert
    } else {
        WritePlan::UpdateIfVersion(current)
    }
}

/// The last step of a save: a write that touched no row is a lost race, and the
/// transaction is rolled back; otherwise it commits.
pub fn finish_save(rows: u64) -> (r: Result<(), ConcurrencyError>)
    ensures
        r is Err <==> rows == 0,
{
    if rows == 0 {
        Err(ConcurrencyError)
    } else {
        Ok(())
    }
}

/// Saving a document at version zero whose identifier is not stored inserts it:
/// loading it then gives its body at version one.
pub proof fn lemma_save_new_document(table: Table, id: UntypedId, body: Seq<char>)
    requires
        !table.contains_key(id),
    ensures
        save_effect(table, id, 0, body).1 is Ok,
        load_effect(save_effect(table, id, 0, body).0, id) == Some((1u64, body)),
{
}

/// Saving a copy whose version is not the stored one fails, and leaves the stored
/// document as the winning writer left it.
pub proof fn lemma_stale_save_fails(table: Table, id: UntypedId, version: u64, body: Seq<char>)
    requires
        table.contains_key(id),
        version != table[id].0,
        0 < version < u64::MAX,
    ensures
        save_effect(table, id, version, body).1 == Err::<(), ConcurrencyError>(ConcurrencyError),
        save_effect(table, id, version, body).0 == table,
{
}

/// A document that was never stored, saved with a version other than zero, fails:
/// a version cannot be forged on a new document.
pub proof fn lemma_forged_version_fails(table: Table, id: UntypedId, version: u64, body: Seq<char>)
    requires
        !table.contains_key(id),
        0 < version < u64::MAX,
    ensures
        save_effect(table, id, version, body).1 == Err::<(), ConcurrencyError>(ConcurrencyError),
        save_effect(table, id, version, body).0 == table,
{
}

/// A document that is stored already, saved again from a copy still at version
/// zero, fails and leaves the stored document as it was.
pub proof fn lemma_second_insert_fails(table: Table, id: UntypedId, body: Seq<char>)
    requires
        table.contains_key(id),
    ensures
        save_effect(table, id, 0, body).1 == Err::<(), ConcurrencyError>(ConcurrencyError),
        save_effect(table, id, 0, body).0 == table,
{
}

/// Saving the copy that was loaded, at the stored version, succeeds and stores the
/// new body at the next version.
pub proof fn lemma_current_save_succeeds(table: Table, id: UntypedId, body: Seq<char>)
    requires
        table.contains_key(id),
        0 < table[id].0 < u64::MAX,
    ensures
        save_effect(table, id, table[id].0, body).1 is Ok,
        load_effect(save_effect(table, id, table[id].0, body).0, id) == Some(
            ((table[id].0 + 1) as u64, body),
        ),
{
}

/// A new document saved, loaded, then saved again from the untouched copy at
/// version zero: the load gives its body at version one, the second save fails.
pub proof fn lemma_create_load_resave(table: Table, id: UntypedId, body: Seq<char>)
    requires
        !table.contains_key(id),
    ensures
        ({
            let (after, first) = save_effect(table, id, 0, body);
            &&& first is Ok
            &&& load_effect(after, id) == Some((1u64, body))
            &&& save_effect(after, id, 0, body).1 == Err::<(), ConcurrencyError>(ConcurrencyError)
            &&& save_effect(after, id, 0, body).0 == after
        }),
{
    lemma_save_new_document(table, id, body);
    lemma_second_insert_fails(save_effect(table, id, 0, body).0, id, body);
}

} // verus!
