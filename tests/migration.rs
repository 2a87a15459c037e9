use komando::db::Db;
use komando::migrate::{migrate, migrate_at, migrate_with_embeddings_at, MigrationReport};
use komando::ops::CommandStore;
use komando::db::EMBEDDING_DIM;

fn legacy_with(n: usize) -> CommandStore {
    let mut store = CommandStore::new();
    for i in 0..n {
        store
            .add_command_with_id(
                format!("legacy-{}", i),
                format!("echo {}", i),
                "/home".to_string(),
                "default_group".to_string(),
                vec!["default_tag".to_string()],
                Some(String::new()),
            )
            .unwrap();
    }
    store
}

#[test]
fn migrating_twice_adds_nothing_the_second_time() {
    let legacy = legacy_with(2);
    let mut db = Db::new();
    let first = migrate_at(&legacy, &mut db, 1000);
    assert_eq!(first, MigrationReport { imported: 2, skipped: 0 });
    assert_eq!(db.get_all_commands().len(), 2);
    let second = migrate_at(&legacy, &mut db, 2000);
    assert_eq!(second, MigrationReport { imported: 0, skipped: 2 });
    assert_eq!(db.get_all_commands().len(), 2);
    let hits = db.search_commands("echo 1", 10);
    assert_eq!(hits.len(), 1);
    assert_eq!(hits[0].0, "legacy-1");
    assert_eq!(hits[0].2, Some("/home".to_string()));
}

#[test]
fn migrating_an_empty_legacy_store_changes_nothing() {
    let legacy = CommandStore::new();
    let mut db = Db::new();
    db.insert_command("x", "ls", None, None).unwrap();
    let report = migrate_at(&legacy, &mut db, 5);
    assert_eq!(report, MigrationReport { imported: 0, skipped: 0 });
    assert_eq!(db.get_all_commands().len(), 1);
}

#[test]
fn migration_skips_records_without_embedding() {
    let legacy = legacy_with(3);
    let mut db = Db::new();
    let vectors = vec![Some(vec![0u32; EMBEDDING_DIM]), None, Some(vec![1u32; 3])];
    let report = migrate_with_embeddings_at(&legacy, &vectors, &mut db, 7);
    assert_eq!(report, MigrationReport { imported: 1, skipped: 2 });
    let all = db.get_all_commands();
    assert_eq!(all.len(), 1);
    assert_eq!(all[0].0, "legacy-0");
    assert_eq!(db.embedding_count(), 1);
}

#[test]
fn migrate_now_imports_each_command_once() {
    let legacy = legacy_with(2);
    let mut db = Db::new();
    assert_eq!(migrate(&legacy, &mut db), MigrationReport { imported: 2, skipped: 0 });
    assert_eq!(migrate(&legacy, &mut db), MigrationReport { imported: 0, skipped: 2 });
    assert_eq!(db.get_all_commands().len(), 2);
}
