use komando::db::{Db, StorageError, EMBEDDING_DIM};

#[test]
fn test_db_creation() {
    let db = Db::new();
    let commands = db.get_all_commands();
    assert_eq!(commands.len(), 0);
}

#[test]
fn test_insert_and_retrieve_command() {
    let mut db = Db::new();

    let id = "test-id-123";
    let cmd = "ls -la";
    let desc = Some("List all files");
    let wd = Some("/home/test");

    db.insert_command(id, cmd, desc, wd).unwrap();

    let commands = db.get_all_commands();
    assert_eq!(commands.len(), 1);
    assert_eq!(commands[0].0, id);
    assert_eq!(commands[0].1, cmd);
}

#[test]
fn test_search_commands() {
    let mut db = Db::new();

    db.insert_command("id1", "git commit -m 'test'", None, None).unwrap();
    db.insert_command("id2", "git push origin main", None, None).unwrap();
    db.insert_command("id3", "docker ps -a", None, None).unwrap();

    let results = db.search_commands("git", 10);
    assert_eq!(results.len(), 2);

    let results = db.search_commands("docker", 10);
    assert_eq!(results.len(), 1);
    assert_eq!(results[0].1, "docker ps -a");
}

#[test]
fn test_delete_command() {
    let mut db = Db::new();

    let id = "delete-test-id";
    db.insert_command(id, "test command", None, None).unwrap();

    let commands = db.get_all_commands();
    assert_eq!(commands.len(), 1);

    db.delete_command(id).unwrap();

    let commands = db.get_all_commands();
    assert_eq!(commands.len(), 0);
}

#[test]
fn test_multiple_commands() {
    let mut db = Db::new();
    for i in 0..5 {
        db.insert_command(&format!("id{}", i), &format!("command {}", i), None, None)
            .unwrap();
    }
    let commands = db.get_all_commands();
    assert_eq!(commands.len(), 5);
}

#[test]
fn round_trip_lists_the_saved_command_once() {
    let mut db = Db::new();
    db.insert_command_at("a", "make build", None, None, 10).unwrap();
    db.insert_command_at("b", "cargo test", Some("tests"), Some("/src"), 20).unwrap();
    db.insert_command("c", "ls", Some("list"), Some("/tmp")).unwrap();
    let all = db.get_all_commands();
    let hits: Vec<_> = all.iter().filter(|(id, _)| id == "c").collect();
    assert_eq!(hits.len(), 1);
    assert_eq!(hits[0].1, "ls");
}

#[test]
fn listing_is_most_recent_first() {
    let mut db = Db::new();
    db.insert_command_at("old", "echo old", None, None, 100).unwrap();
    db.insert_command_at("new", "echo new", None, None, 300).unwrap();
    db.insert_command_at("mid", "echo mid", None, None, 200).unwrap();
    db.insert_command_at("same", "echo same", None, None, 200).unwrap();
    let ids: Vec<String> = db.get_all_commands().into_iter().map(|(id, _)| id).collect();
    assert_eq!(ids, vec!["new", "same", "mid", "old"]);
}

#[test]
fn substring_search_finds_exactly_the_matches() {
    let mut db = Db::new();
    db.insert_command_at("1", "git commit -m 'x'", None, Some("/repo"), 1).unwrap();
    db.insert_command_at("2", "git push origin main", None, None, 2).unwrap();
    db.insert_command_at("3", "docker ps -a", None, None, 3).unwrap();
    let git = db.search_commands("git", 10);
    let texts: Vec<&str> = git.iter().map(|h| h.1.as_str()).collect();
    assert_eq!(texts, vec!["git push origin main", "git commit -m 'x'"]);
    assert_eq!(git[1].2, Some("/repo".to_string()));
    let docker = db.search_commands("docker", 10);
    assert_eq!(docker.len(), 1);
    assert_eq!(docker[0].1, "docker ps -a");
    assert_eq!(docker[0].0, "3");
}

#[test]
fn substring_search_respects_limit_and_case() {
    let mut db = Db::new();
    for i in 0..4 {
        db.insert_command_at(&format!("id{}", i), &format!("echo {}", i), None, None, i).unwrap();
    }
    let hits = db.search_commands("echo", 2);
    assert_eq!(hits.len(), 2);
    assert_eq!(hits[0].1, "echo 3");
    assert_eq!(hits[1].1, "echo 2");
    assert_eq!(db.search_commands("ECHO", 10).len(), 0);
    assert_eq!(db.search_commands("", 10).len(), 4);
    assert_eq!(db.search_commands("echo", 0).len(), 0);
}

#[test]
fn duplicate_id_is_refused() {
    let mut db = Db::new();
    db.insert_command("x", "pwd", None, None).unwrap();
    assert_eq!(db.insert_command("x", "whoami", None, None), Err(StorageError::DuplicateId));
    let all = db.get_all_commands();
    assert_eq!(all.len(), 1);
    assert_eq!(all[0].1, "pwd");
}

#[test]
fn empty_command_is_refused() {
    let mut db = Db::new();
    assert_eq!(db.insert_command("x", "", None, None), Err(StorageError::EmptyCommand));
    assert_eq!(db.get_all_commands().len(), 0);
}

#[test]
fn embedding_of_wrong_width_is_refused() {
    let mut db = Db::new();
    let short = vec![0u32; EMBEDDING_DIM - 1];
    assert_eq!(
        db.insert_command_with_embedding("x", "pwd", None, None, &short),
        Err(StorageError::DimensionMismatch)
    );
    assert_eq!(db.get_all_commands().len(), 0);
    assert_eq!(db.embedding_count(), 0);
}

#[test]
fn delete_removes_record_and_embedding() {
    let mut db = Db::new();
    let v = vec![1.5f32.to_bits(); EMBEDDING_DIM];
    db.insert_command_with_embedding("keep", "ls", None, None, &v).unwrap();
    db.insert_command_with_embedding("gone", "pwd", None, None, &v).unwrap();
    assert_eq!(db.embedding_count(), 2);
    db.delete_command("gone").unwrap();
    let all = db.get_all_commands();
    assert_eq!(all.len(), 1);
    assert_eq!(all[0].0, "keep");
    assert_eq!(db.embedding_count(), 1);
    assert_eq!(db.embeddings()[0].command_id, "keep");
    assert_eq!(db.embeddings()[0].vector, v);
}

#[test]
fn delete_of_unknown_id_is_a_no_op() {
    let mut db = Db::new();
    db.insert_command("a", "ls", None, None).unwrap();
    assert_eq!(db.delete_command("zzz"), Ok(()));
    assert_eq!(db.get_all_commands().len(), 1);
}

#[test]
fn clear_empties_the_store() {
    let mut db = Db::new();
    let v = vec![0u32; EMBEDDING_DIM];
    db.insert_command("a", "ls", None, None).unwrap();
    db.insert_command_with_embedding("b", "pwd", None, None, &v).unwrap();
    db.clear().unwrap();
    assert!(db.get_all_commands().is_empty());
    assert_eq!(db.embedding_count(), 0);
    let mut empty = Db::new();
    empty.clear().unwrap();
    assert!(empty.get_all_commands().is_empty());
}

#[test]
fn record_use_counts_and_reports_unknown_ids() {
    let mut db = Db::new();
    db.insert_command("a", "ls", None, None).unwrap();
    assert_eq!(db.records()[0].use_count, 1);
    assert_eq!(db.record_use("a"), Ok(()));
    assert_eq!(db.record_use("a"), Ok(()));
    assert_eq!(db.records()[0].use_count, 3);
    assert_eq!(db.record_use("b"), Err(StorageError::NotFound));
}

fn key(d: f32) -> u32 {
    d.to_bits()
}

#[test]
fn nearest_search_puts_the_self_match_first() {
    let mut db = Db::new();
    let v = vec![0u32; EMBEDDING_DIM];
    db.insert_command_with_embedding_at("a", "ls -la", None, Some("/a"), &v, 1).unwrap();
    db.insert_command_with_embedding_at("b", "git status", None, Some("/b"), &v, 2).unwrap();
    db.insert_command_with_embedding_at("c", "docker ps", None, None, &v, 3).unwrap();
    // distances from the query to the embeddings, in storage order
    let keys = vec![key(0.7), key(0.0), key(0.3)];
    let hits = db.search_nearest(&keys, 2);
    assert_eq!(hits.len(), 2);
    assert_eq!(hits[0].0, "b");
    assert_eq!(hits[0].1, "git status");
    assert_eq!(hits[0].2, Some("/b".to_string()));
    assert_eq!(f32::from_bits(hits[0].3), 0.0);
    assert_eq!(hits[1].0, "c");
    let all = db.search_nearest(&keys, 10);
    let ids: Vec<&str> = all.iter().map(|h| h.0.as_str()).collect();
    assert_eq!(ids, vec!["b", "c", "a"]);
}

#[test]
fn records_keep_description_and_directory() {
    let mut db = Db::new();
    db.insert_command_at("a", "ls -la", Some("List all files"), Some("/home/test"), 42).unwrap();
    let r = &db.records()[0];
    assert_eq!(r.id, "a");
    assert_eq!(r.text, "ls -la");
    assert_eq!(r.description, Some("List all files".to_string()));
    assert_eq!(r.working_directory, Some("/home/test".to_string()));
    assert_eq!(r.created_at, 42);
    assert_eq!(r.use_count, 1);
}

#[test]
fn nearest_search_orders_equal_distances_by_id() {
    let mut db = Db::new();
    let v = vec![0u32; EMBEDDING_DIM];
    db.insert_command_with_embedding_at("zeta", "z", None, None, &v, 1).unwrap();
    db.insert_command_with_embedding_at("alpha", "a", None, None, &v, 2).unwrap();
    db.insert_command_with_embedding_at("mid", "m", None, None, &v, 3).unwrap();
    let ids: Vec<&str> = db.embeddings().iter().map(|e| e.command_id.as_str()).collect();
    assert_eq!(ids, vec!["alpha", "mid", "zeta"]);
    let keys = vec![key(0.5); 3];
    let hits = db.search_nearest(&keys, 3);
    let ids: Vec<&str> = hits.iter().map(|h| h.0.as_str()).collect();
    assert_eq!(ids, vec!["alpha", "mid", "zeta"]);
    db.delete_command("mid").unwrap();
    let ids: Vec<&str> = db.embeddings().iter().map(|e| e.command_id.as_str()).collect();
    assert_eq!(ids, vec!["alpha", "zeta"]);
}
