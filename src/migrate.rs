//! Importing the commands of the legacy store into the current one.
//!
//! Each legacy command becomes a record under its own id, with its text,
//! description and working directory; groups, tags and use counts are not
//! carried over. A command that the store refuses (empty text, id already
//! stored, embedding missing or of the wrong width) is skipped and the rest
//! go on.

use vstd::prelude::*;
use crate::db::{has_id, new_record, Db, DbView, EmbeddingView, EMBEDDING_DIM};
use crate::ops::{CommandStore, CommandView};

verus! {

/// How many legacy commands were imported and how many were skipped.
#[derive(Debug, Clone, Copy, PartialEq, Eq, Structural)]
pub struct MigrationReport {
    pub imported: usize,
    pub skipped: usize,
}

/// The record that a legacy command becomes when imported at time `t`.
pub open spec fn imported_record(c: CommandView, t: i64) -> crate::db::RecordView {
    new_record(c.id, c.command, c.description, Some(c.working_directory), t)
}

/// The store accepts the legacy command `c`.
pub open spec fn importable(v: DbView, c: CommandView) -> bool {
    c.command.len() > 0 && !has_id(v.records, c.id)
}

/// The store after importing one legacy command at time `t`.
pub open spec fn import_one(v: DbView, c: CommandView, t: i64) -> DbView {
    if importable(v, c) {
        v.with_record(imported_record(c, t))
    } else {
        v
    }
}

/// The store after importing `cmds` in order at time `t`.
pub open spec fn migrated(v: DbView, cmds: Seq<CommandView>, t: i64) -> DbView
    decreases cmds.len(),
{
    if cmds.len() == 0 {
        v
    } else {
        import_one(migrated(v, cmds.drop_last(), t), cmds.last(), t)
    }
}

/// The store after importing `cmds` in order at time `t`, each with its
/// embedding; a command without one (`None`) is skipped.
pub open spec fn migrated_with_embeddings(
    v: DbView,
    cmds: Seq<CommandView>,
    vectors: Seq<Option<Seq<u32>>>,
    t: i64,
) -> DbView
    decreases cmds.len(),
{
    if cmds.len() == 0 || vectors.len() != cmds.len() {
        v
    } else {
        let prev = migrated_with_embeddings(v, cmds.drop_last(), vectors.drop_last(), t);
        let c = cmds.last();
        match vectors.last() {
            Some(e) => if importable(prev, c) && e.len() == EMBEDDING_DIM {
                prev.with_record(imported_record(c, t)).with_embedding(
                    EmbeddingView { command_id: c.id, vector: e },
                )
            } else {
                prev
            },
            None => prev,
        }
    }
}

/// The optional embeddings as plain values.
pub open spec fn vectors_view(v: Seq<Option<Vec<u32>>>) -> Seq<Option<Seq<u32>>> {
    v.map_values(
        |o: Option<Vec<u32>>|
            match o {
                Some(e) => Some(e@),
                None => None,
            },
    )
}

/// Imports every legacy command, stamped `created_at`.
pub fn migrate_at(legacy: &CommandStore, db: &mut Db, created_at: i64) -> (r: MigrationReport)
    requires
        old(db)@.wf(),
    ensures
        final(db)@.wf(),
        final(db)@ == migrated(old(db)@, legacy@.commands, created_at),
        r.imported + r.skipped == legacy@.commands.len(),
        r.imported == final(db)@.records.len() - old(db)@.records.len(),
{
    let cmds = legacy.commands();
    let ghost s = legacy@.commands;
    let mut imported: usize = 0;
    let mut skipped: usize = 0;
    let mut i: usize = 0;
    assert(s.subrange(0, 0) =~= Seq::<CommandView>::empty());
    while i < cmds.len()
        invariant
            s == cmds@.map_values(|c: crate::ops::Command| c@),
            i <= s.len(),
            db@.wf(),
            db@ == migrated(old(db)@, s.subrange(0, i as int), created_at),
            imported + skipped == i,
            imported == db@.records.len() - old(db)@.records.len(),
        decreases s.len() - i,
    {
        let c = &cmds[i];
        assert(c@ == s[i as int]);
        let desc = match &c.description {
            Some(d) => Some(d.as_str()),
            None => None,
        };
        let ghost before = db@;
        let res = db.insert_command_at(
            c.id.as_str(),
            c.command.as_str(),
            desc,
            Some(c.working_directory.as_str()),
            created_at,
        );
        assert(s.subrange(0, i + 1).drop_last() =~= s.subrange(0, i as int));
        assert(s.subrange(0, i + 1).last() == s[i as int]);
        match res {
            Ok(()) => {
                proof {
                    crate::db::lemma_insert_pos_range(before.records, created_at);
                }
                imported += 1;
            },
            Err(_) => {
                skipped += 1;
            },
        }
        i += 1;
    }
    assert(s.subrange(0, s.len() as int) =~= s);
    MigrationReport { imported, skipped }
}

/// Imports every legacy command stamped `created_at`, each with the embedding
/// at the same position; a command whose embedding is `None` (it could not
/// be computed) is skipped.
pub fn migrate_with_embeddings_at(
    legacy: &CommandStore,
    vectors: &Vec<Option<Vec<u32>>>,
    db: &mut Db,
    created_at: i64,
) -> (r: MigrationReport)
    requires
        old(db)@.wf(),
        vectors@.len() == legacy@.commands.len(),
    ensures
        final(db)@.wf(),
        final(db)@ == migrated_with_embeddings(
            old(db)@,
            legacy@.commands,
            vectors_view(vectors@),
            created_at,
        ),
        r.imported + r.skipped == legacy@.commands.len(),
        r.imported == final(db)@.records.len() - old(db)@.records.len(),
{
    let cmds = legacy.commands();
    let ghost s = legacy@.commands;
    let ghost vs = vectors_view(vectors@);
    let mut imported: usize = 0;
    let mut skipped: usize = 0;
    let mut i: usize = 0;
    while i < cmds.len()
        invariant
            s == cmds@.map_values(|c: crate::ops::Command| c@),
            vs == vectors_view(vectors@),
            vectors@.len() == s.len(),
            i <= s.len(),
            db@.wf(),
            db@ == migrated_with_embeddings(
                old(db)@,
                s.subrange(0, i as int),
                vs.subrange(0, i as int),
                created_at,
            ),
            imported + skipped == i,
            imported == db@.records.len() - old(db)@.records.len(),
        decreases s.len() - i,
    {
        let c = &cmds[i];
        assert(c@ == s[i as int]);
        let ghost before = db@;
        assert(s.subrange(0, i + 1).drop_last() =~= s.subrange(0, i as int));
        assert(vs.subrange(0, i + 1).drop_last() =~= vs.subrange(0, i as int));
        assert(s.subrange(0, i + 1).last() == s[i as int]);
        assert(vs.subrange(0, i + 1).last() == vs[i as int]);
        match &vectors[i] {
            Some(e) => {
                let desc = match &c.description {
                    Some(d) => Some(d.as_str()),
                    None => None,
                };
                let res = db.insert_command_with_embedding_at(
                    c.id.as_str(),
                    c.command.as_str(),
                    desc,
                    Some(c.working_directory.as_str()),
                    e,
                    created_at,
                );
                match res {
                    Ok(()) => {
                        proof {
                            crate::db::lemma_insert_pos_range(before.records, created_at);
                        }
                        imported += 1;
                    },
                    Err(_) => {
                        skipped += 1;
                    },
                }
            },
            None => {
                skipped += 1;
            },
        }
        i += 1;
    }
    assert(s.subrange(0, s.len() as int) =~= s);
    assert(vs.subrange(0, vs.len() as int) =~= vs);
    MigrationReport { imported, skipped }
}

/// Imports every legacy command, stamped with the current time.
pub fn migrate(legacy: &CommandStore, db: &mut Db) -> (r: MigrationReport)
    requires
        old(db)@.wf(),
    ensures
        final(db)@.wf(),
        exists|t: i64| final(db)@ == #[trigger] migrated(old(db)@, legacy@.commands, t),
        r.imported + r.skipped == legacy@.commands.len(),
        r.imported == final(db)@.records.len() - old(db)@.records.len(),
{
    let t = crate::db::now_micros();
    migrate_at(legacy, db, t)
}

/// Imports every legacy command with its embedding, stamped with the current
/// time; a command whose embedding is `None` is skipped.
pub fn migrate_with_embeddings(
    legacy: &CommandStore,
    vectors: &Vec<Option<Vec<u32>>>,
    db: &mut Db,
) -> (r: MigrationReport)
    requires
        old(db)@.wf(),
        vectors@.len() == legacy@.commands.len(),
    ensures
        final(db)@.wf(),
        exists|t: i64|
            final(db)@ == #[trigger] migrated_with_embeddings(
                old(db)@,
                legacy@.commands,
                vectors_view(vectors@),
                t,
            ),
        r.imported + r.skipped == legacy@.commands.len(),
        r.imported == final(db)@.records.len() - old(db)@.records.len(),
{
    let t = crate::db::now_micros();
    migrate_with_embeddings_at(legacy, vectors, db, t)
}

/// After one import every legacy command is either stored or has empty text.
proof fn lemma_migrated_covers(v: DbView, cmds: Seq<CommandView>, t: i64)
    ensures
        forall|i: int|
            0 <= i < cmds.len() ==> (#[trigger] cmds[i]).command.len() == 0 || has_id(
                migrated(v, cmds, t).records,
                cmds[i].id,
            ),
        forall|id: Seq<char>|
            has_id(v.records, id) ==> #[trigger] has_id(migrated(v, cmds, t).records, id),
    decreases cmds.len(),
{
    if cmds.len() > 0 {
        let prev = cmds.drop_last();
        lemma_migrated_covers(v, prev, t);
        let w = migrated(v, prev, t);
        let c = cmds.last();
        crate::db::lemma_insert_pos_range(w.records, t);
        if importable(w, c) {
            let r = imported_record(c, t);
            let p = crate::db::insert_pos(w.records, t);
            w.records.insert_ensures(p, r);
            assert(w.with_record(r).records[p].id == c.id);
            assert forall|id: Seq<char>| has_id(w.records, id) implies #[trigger] has_id(
                w.with_record(r).records,
                id,
            ) by {
                crate::db::lemma_has_id_insert(w.records, p, r, id);
            }
        }
        assert forall|i: int| 0 <= i < cmds.len() implies (#[trigger] cmds[i]).command.len() == 0
            || has_id(migrated(v, cmds, t).records, cmds[i].id) by {
            if i < cmds.len() - 1 {
                assert(cmds[i] == prev[i]);
            }
        }
    }
}

/// Importing commands that are all stored already or have empty text
/// changes nothing.
proof fn lemma_migrate_nothing_new(w: DbView, cmds: Seq<CommandView>, t: i64)
    requires
        forall|i: int|
            0 <= i < cmds.len() ==> (#[trigger] cmds[i]).command.len() == 0 || has_id(
                w.records,
                cmds[i].id,
            ),
    ensures
        migrated(w, cmds, t) == w,
    decreases cmds.len(),
{
    if cmds.len() > 0 {
        let prev = cmds.drop_last();
        assert forall|i: int| 0 <= i < prev.len() implies (#[trigger] prev[i]).command.len() == 0
            || has_id(w.records, prev[i].id) by {
            assert(prev[i] == cmds[i]);
        }
        lemma_migrate_nothing_new(w, prev, t);
        assert(cmds.last() == cmds[cmds.len() - 1]);
    }
}

/// Importing the same legacy commands a second time adds nothing: the store
/// after two imports equals the store after one.
pub proof fn lemma_migrate_twice(v: DbView, cmds: Seq<CommandView>, t1: i64, t2: i64)
    ensures
        migrated(migrated(v, cmds, t1), cmds, t2) == migrated(v, cmds, t1),
{
    lemma_migrated_covers(v, cmds, t1);
    lemma_migrate_nothing_new(migrated(v, cmds, t1), cmds, t2);
}

/// Importing no commands changes nothing.
pub proof fn lemma_migrate_empty(v: DbView, t: i64)
    ensures
        migrated(v, Seq::empty(), t) == v,
{
}

/// Every id stored after an import was stored before or is the id of an
/// imported command.
proof fn lemma_migrated_ids(v: DbView, cmds: Seq<CommandView>, t: i64, id: Seq<char>)
    requires
        has_id(migrated(v, cmds, t).records, id),
    ensures
        has_id(v.records, id) || exists|i: int| 0 <= i < cmds.len() && (#[trigger] cmds[i]).id == id,
    decreases cmds.len(),
{
    if cmds.len() > 0 {
        let prev = cmds.drop_last();
        let w = migrated(v, prev, t);
        let c = cmds.last();
        if importable(w, c) && !has_id(w.records, id) {
            let r = imported_record(c, t);
            let p = crate::db::insert_pos(w.records, t);
            crate::db::lemma_insert_pos_range(w.records, t);
            w.records.insert_ensures(p, r);
            let k = choose|k: int| 0 <= k < w.with_record(r).records.len() && w.with_record(r).records[k].id == id;
            if k < p {
                assert(w.records[k].id == id);
            } else if k > p {
                assert(w.records[k - 1].id == id);
            } else {
                assert(cmds[cmds.len() - 1].id == id);
            }
        } else {
            lemma_migrated_ids(v, prev, t, id);
            if exists|i: int| 0 <= i < prev.len() && (#[trigger] prev[i]).id == id {
                let i = choose|i: int| 0 <= i < prev.len() && (#[trigger] prev[i]).id == id;
                assert(cmds[i] == prev[i]);
            }
        }
    }
}

/// Importing commands with non-empty texts and distinct ids, none of them
/// stored yet, adds one record per command.
pub proof fn lemma_migrate_adds_each(v: DbView, cmds: Seq<CommandView>, t: i64)
    requires
        forall|i: int| 0 <= i < cmds.len() ==> (#[trigger] cmds[i]).command.len() > 0,
        forall|i: int, j: int| 0 <= i < j < cmds.len() ==> cmds[i].id != cmds[j].id,
        forall|i: int| 0 <= i < cmds.len() ==> !has_id(v.records, (#[trigger] cmds[i]).id),
    ensures
        migrated(v, cmds, t).records.len() == v.records.len() + cmds.len(),
    decreases cmds.len(),
{
    if cmds.len() > 0 {
        let prev = cmds.drop_last();
        assert forall|i: int| 0 <= i < prev.len() implies (#[trigger] prev[i]).command.len() > 0
            && !has_id(v.records, prev[i].id) by {
            assert(prev[i] == cmds[i]);
        }
        lemma_migrate_adds_each(v, prev, t);
        let w = migrated(v, prev, t);
        let c = cmds.last();
        assert(!has_id(w.records, c.id)) by {
            if has_id(w.records, c.id) {
                lemma_migrated_ids(v, prev, t, c.id);
                assert(!has_id(v.records, cmds[cmds.len() - 1].id));
                let i = choose|i: int| 0 <= i < prev.len() && (#[trigger] prev[i]).id == c.id;
                assert(cmds[i] == prev[i]);
            }
        }
        assert(cmds[cmds.len() - 1].command.len() > 0);
        crate::db::lemma_insert_pos_range(w.records, t);
    }
}

} // verus!
