use komando::ops::{Command, CommandStore, CommandUpdates, LegacyError};

fn strings(v: &[&str]) -> Vec<String> {
    v.iter().map(|s| s.to_string()).collect()
}

fn sample() -> CommandStore {
    let mut store = CommandStore::new();
    store
        .add_command_with_id(
            "1".to_string(),
            "git status".to_string(),
            "/repo".to_string(),
            "vcs".to_string(),
            strings(&["git", "daily"]),
            Some("show changes".to_string()),
        )
        .unwrap();
    store
        .add_command_with_id(
            "2".to_string(),
            "docker ps -a".to_string(),
            "/srv".to_string(),
            "ops".to_string(),
            strings(&["docker"]),
            None,
        )
        .unwrap();
    store
}

fn sorted(v: &[String]) -> Vec<String> {
    let mut v = v.to_vec();
    v.sort();
    v
}

#[test]
fn add_command_gives_a_fresh_uuid() {
    let mut store = CommandStore::new();
    store
        .add_command("ls".to_string(), "/".to_string(), "g".to_string(), strings(&["t"]), None)
        .unwrap();
    store
        .add_command("ls".to_string(), "/".to_string(), "g".to_string(), strings(&["t"]), None)
        .unwrap();
    let cmds = store.commands();
    assert_eq!(cmds.len(), 2);
    assert_eq!(cmds[0].id.len(), 36);
    assert_ne!(cmds[0].id, cmds[1].id);
    assert_eq!(cmds[0].use_count, 1);
    assert_eq!(store.groups().len(), 1);
    assert_eq!(store.tags().len(), 1);
}

#[test]
fn add_command_records_groups_and_tags() {
    let store = sample();
    assert_eq!(sorted(store.groups()), strings(&["ops", "vcs"]));
    assert_eq!(sorted(store.tags()), strings(&["daily", "docker", "git"]));
}

#[test]
fn search_matches_text_description_group_and_tags() {
    let store = sample();
    let ids = |v: Vec<&Command>| v.iter().map(|c| c.id.clone()).collect::<Vec<_>>();
    assert_eq!(ids(store.search("git", None, None)), strings(&["1"]));
    assert_eq!(ids(store.search("changes", None, None)), strings(&["1"]));
    assert_eq!(ids(store.search("", None, None)), strings(&["1", "2"]));
    assert_eq!(ids(store.search("", Some("ops"), None)), strings(&["2"]));
    assert_eq!(ids(store.search("git", Some("ops"), None)), Vec::<String>::new());
    let tags = strings(&["daily", "other"]);
    assert_eq!(ids(store.search("", None, Some(&tags))), strings(&["1"]));
    let none: Vec<String> = Vec::new();
    assert_eq!(ids(store.search("", None, Some(&none))), Vec::<String>::new());
}

#[test]
fn update_command_changes_fields_and_recomputes_sets() {
    let mut store = sample();
    let updates = CommandUpdates {
        command: Some("git status -s".to_string()),
        group: Some("git".to_string()),
        tags: Some(strings(&["short"])),
        description: None,
    };
    store.update_command("1", updates).unwrap();
    let c = &store.commands()[0];
    assert_eq!(c.command, "git status -s");
    assert_eq!(c.group, "git");
    assert_eq!(c.tags, strings(&["short"]));
    assert_eq!(c.description, Some("show changes".to_string()));
    assert_eq!(sorted(store.groups()), strings(&["git", "ops"]));
    assert_eq!(sorted(store.tags()), strings(&["docker", "short"]));
}

#[test]
fn update_command_keeps_sets_when_group_and_tags_stay() {
    let mut store = sample();
    let updates = CommandUpdates {
        command: None,
        group: None,
        tags: None,
        description: Some("container list".to_string()),
    };
    store.update_command("2", updates).unwrap();
    assert_eq!(store.commands()[1].description, Some("container list".to_string()));
    assert_eq!(sorted(store.tags()), strings(&["daily", "docker", "git"]));
}

#[test]
fn update_of_unknown_id_fails() {
    let mut store = sample();
    let updates = CommandUpdates { command: None, group: None, tags: None, description: None };
    assert_eq!(store.update_command("nope", updates), Err(LegacyError::NotFound));
}

#[test]
fn increment_usage_raises_the_count() {
    let mut store = sample();
    store.increment_usage("2").unwrap();
    store.increment_usage("2").unwrap();
    assert_eq!(store.commands()[1].use_count, 3);
    assert_eq!(store.commands()[0].use_count, 1);
    assert_eq!(store.increment_usage("9"), Err(LegacyError::NotFound));
}

#[test]
fn add_with_taken_id_fails_and_changes_nothing() {
    let mut store = sample();
    let r = store.add_command_with_id(
        "1".to_string(),
        "ls".to_string(),
        "/".to_string(),
        "new".to_string(),
        strings(&["fresh"]),
        None,
    );
    assert_eq!(r, Err(LegacyError::DuplicateId));
    assert_eq!(store.commands().len(), 2);
    assert_eq!(sorted(store.groups()), strings(&["ops", "vcs"]));
}

#[test]
fn repeated_groups_and_tags_are_kept_once() {
    let mut store = CommandStore::from_parts(
        Vec::new(),
        strings(&["g", "g"]),
        strings(&["t", "u", "t"]),
    );
    assert_eq!(store.groups().len(), 1);
    assert_eq!(sorted(store.tags()), strings(&["t", "u"]));
    store
        .add_command_with_id(
            "x".to_string(),
            "ls".to_string(),
            "/".to_string(),
            "g".to_string(),
            strings(&["u", "v", "v"]),
            None,
        )
        .unwrap();
    assert_eq!(store.commands()[0].tags, strings(&["u", "v"]));
    assert_eq!(sorted(store.tags()), strings(&["t", "u", "v"]));
    assert_eq!(store.groups().len(), 1);
}
