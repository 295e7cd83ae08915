//! The repository model, the configuration, and the record store.

use git_adr::adr::{Adr, AdrStatus};
use git_adr::config::{AdrConfig, ConfigManager};
use git_adr::git::Git;
use git_adr::notes::NotesManager;

fn repo_with_commits(ids: &[&str]) -> Git {
    let mut git = Git::with_work_dir("/work/repo");
    git.init_repository();
    for id in ids {
        git.add_commit(id).expect("fresh commit id");
    }
    git
}

#[test]
fn test_git_new() {
    let git = Git::new();
    assert_eq!(git.work_dir(), ".");
}

#[test]
fn test_git_default() {
    let git = Git::default();
    assert_eq!(git.work_dir(), ".");
}

#[test]
fn test_git_work_dir() {
    let git = Git::new();
    let _ = git.work_dir();
}

#[test]
fn test_git_with_work_dir() {
    let git = Git::with_work_dir("/somewhere/else");
    assert_eq!(git.work_dir(), "/somewhere/else");
}

#[test]
fn test_check_repository_not_a_repo() {
    let git = Git::with_work_dir("/tmp/empty");
    assert!(git.check_repository().is_err());
}

#[test]
fn test_head_and_short_hash() {
    let git = repo_with_commits(&["0123456789abcdef0123456789abcdef01234567"]);
    let head = git.head().unwrap();
    assert_eq!(head.len(), 40);
    let short = git.short_hash(&head).unwrap();
    assert_eq!(short, "0123456");
}

#[test]
fn test_notes_list_empty() {
    let mut git = Git::with_work_dir("/work/repo");
    git.init_repository();
    let result = git.notes_list("adr");
    assert!(result.is_ok());
    assert!(result.unwrap().is_empty());
}

#[test]
fn test_config_get_nonexistent() {
    let mut git = Git::with_work_dir("/work/repo");
    git.init_repository();
    let result = git.config_get("nonexistent.key");
    assert!(result.is_ok());
    assert!(result.unwrap().is_none());
}

#[test]
fn test_config_set_and_get() {
    let mut git = Git::with_work_dir("/work/repo");
    git.init_repository();
    git.config_set("test.key", "test_value").unwrap();
    let result = git.config_get("test.key").unwrap();
    assert_eq!(result, Some("test_value".to_string()));
}

#[test]
fn test_config_unset() {
    let mut git = Git::with_work_dir("/work/repo");
    git.init_repository();
    git.config_set("test.key", "value").unwrap();
    git.config_unset("test.key", false).unwrap();
    let result = git.config_get("test.key").unwrap();
    assert!(result.is_none());
}

#[test]
fn test_config_unset_nonexistent() {
    let mut git = Git::with_work_dir("/work/repo");
    git.init_repository();
    assert!(git.config_unset("nonexistent.key", false).is_ok());
}

#[test]
fn test_notes_show_nonexistent() {
    let git = repo_with_commits(&["c1"]);
    let result = git.notes_show("adr", "HEAD");
    assert!(result.is_ok());
    assert!(result.unwrap().is_none());
}

#[test]
fn test_repo_root() {
    let mut git = Git::with_work_dir("/work/repo");
    git.init_repository();
    assert_eq!(git.repo_root().unwrap(), "/work/repo");
}

#[test]
fn test_default_config() {
    let config = AdrConfig::default();
    assert_eq!(config.prefix, "ADR-");
    assert_eq!(config.digits, 4);
    assert_eq!(config.template, "default");
    assert_eq!(config.format, "nygard");
    assert!(!config.initialized);
}

#[test]
fn test_custom_config() {
    let config = AdrConfig {
        prefix: "DECISION-".to_string(),
        digits: 3,
        template: "madr".to_string(),
        format: "madr".to_string(),
        initialized: true,
    };
    assert_eq!(config.prefix, "DECISION-");
    assert_eq!(config.digits, 3);
    assert_eq!(config.template, "madr");
    assert!(config.initialized);
}

#[test]
fn test_config_clone() {
    let config = AdrConfig::default();
    let cloned = config.clone();
    assert_eq!(config.prefix, cloned.prefix);
    assert_eq!(config.digits, cloned.digits);
}

#[test]
fn test_config_manager_new() {
    let git = Git::new();
    let _manager = ConfigManager::new(git);
}

#[test]
fn test_config_initialize() {
    let git = repo_with_commits(&["c1"]);
    let mut manager = ConfigManager::new(git);
    let config = AdrConfig {
        prefix: "TEST-".to_string(),
        digits: 5,
        template: "madr".to_string(),
        format: "madr".to_string(),
        initialized: false,
    };
    assert!(manager.initialize(&config).is_ok());
    let loaded = manager.load().expect("Should load config");
    assert!(loaded.initialized);
    assert_eq!(loaded.prefix, "TEST-");
    assert_eq!(loaded.digits, 5);
}

#[test]
fn test_config_load_save() {
    let git = repo_with_commits(&["c1"]);
    let mut manager = ConfigManager::new(git);
    let config = AdrConfig {
        prefix: "CUSTOM-".to_string(),
        digits: 6,
        template: "nygard".to_string(),
        format: "nygard".to_string(),
        initialized: true,
    };
    manager.save(&config).expect("Should save config");
    let loaded = manager.load().expect("Should load config");
    assert_eq!(loaded.prefix, "CUSTOM-");
    assert_eq!(loaded.digits, 6);
    assert!(loaded.initialized);
}

#[test]
fn test_config_is_initialized() {
    let git = repo_with_commits(&["c1"]);
    let mut manager = ConfigManager::new(git);
    assert!(!manager.is_initialized().expect("Should check"));
    let config = AdrConfig::default();
    manager.initialize(&config).expect("Should initialize");
    assert!(manager.is_initialized().expect("Should check"));
}

#[test]
fn test_config_get_set() {
    let git = repo_with_commits(&["c1"]);
    let mut manager = ConfigManager::new(git);
    manager.set("custom", "value").expect("Should set");
    assert_eq!(manager.get("custom").expect("Should get"), Some("value".to_string()));
    assert_eq!(manager.get("nonexistent").expect("Should get"), None);
}

#[test]
fn test_format_id() {
    let git = Git::new();
    let config = AdrConfig::default();
    let manager = NotesManager::new(git, config);
    assert_eq!(manager.format_id(1), "ADR-0001");
    assert_eq!(manager.format_id(42), "ADR-0042");
    assert_eq!(manager.format_id(9999), "ADR-9999");
}

#[test]
fn test_format_id_custom_prefix() {
    let git = Git::new();
    let config = AdrConfig { prefix: "DECISION-".to_string(), digits: 3, ..AdrConfig::default() };
    let manager = NotesManager::new(git, config);
    assert_eq!(manager.format_id(1), "DECISION-001");
    assert_eq!(manager.format_id(99), "DECISION-099");
}

#[test]
fn test_format_id_beyond_width() {
    let git = Git::new();
    let config = AdrConfig { digits: 2, ..AdrConfig::default() };
    let manager = NotesManager::new(git, config);
    assert_eq!(manager.format_id(123), "ADR-123");
}

#[test]
fn test_notes_manager_git_accessor() {
    let git = Git::new();
    let config = AdrConfig::default();
    let manager = NotesManager::new(git, config);
    let _git_ref = manager.git();
}

#[test]
fn test_notes_manager_config_accessor() {
    let git = Git::new();
    let config = AdrConfig { prefix: "TEST-".to_string(), ..AdrConfig::default() };
    let manager = NotesManager::new(git, config);
    assert_eq!(manager.config().prefix, "TEST-");
}

#[test]
fn test_create_with_empty_commit() {
    let git = repo_with_commits(&["c1"]);
    let mut manager = NotesManager::new(git, AdrConfig::default());
    let mut adr = Adr::new("ADR-0001".to_string(), "Test Decision".to_string());
    adr.commit = String::new();
    assert!(manager.create(&adr).is_ok());
    let adrs = manager.list().expect("Should list ADRs");
    assert_eq!(adrs.len(), 1);
    assert_eq!(adrs[0].id, "ADR-0001");
}

#[test]
fn test_get_by_commit() {
    let git = repo_with_commits(&["c1"]);
    let head = git.head().expect("Should get HEAD");
    let mut manager = NotesManager::new(git, AdrConfig::default());
    let adr = Adr::new("ADR-0001".to_string(), "Test Decision".to_string());
    manager.create(&adr).expect("Should create ADR");
    let retrieved = manager.get_by_commit(&head).expect("found");
    assert_eq!(retrieved.id, "ADR-0001");
    assert_eq!(retrieved.frontmatter.title, "Test Decision");
}

#[test]
fn test_get_by_commit_not_found() {
    let git = repo_with_commits(&["c1"]);
    let head = git.head().expect("Should get HEAD");
    let manager = NotesManager::new(git, AdrConfig::default());
    assert!(manager.get_by_commit(&head).is_err());
}

// A record created without an explicit status reads back proposed.
#[test]
fn test_create_defaults_to_proposed() {
    let git = repo_with_commits(&["c1"]);
    let mut manager = NotesManager::new(git, AdrConfig::default());
    let adr = Adr::new("ADR-0001".to_string(), "Use PostgreSQL".to_string());
    manager.create(&adr).expect("creates");
    let back = manager.get("ADR-0001").expect("found");
    assert_eq!(*back.status(), AdrStatus::Proposed);
    assert_eq!(back.title(), "Use PostgreSQL");
}

// After creating records numbered one through k, the next number is
// k + 1.
#[test]
fn test_next_number_after_three_creates() {
    let git = repo_with_commits(&["c1", "c2", "c3"]);
    let mut manager = NotesManager::new(git, AdrConfig::default());
    for (i, c) in ["c1", "c2", "c3"].iter().enumerate() {
        let n = manager.next_number().expect("next");
        assert_eq!(n as usize, i + 1);
        let mut adr = Adr::new(manager.format_id(n), format!("Decision {n}"));
        adr.commit = (*c).to_string();
        manager.create(&adr).expect("creates");
    }
    assert_eq!(manager.next_number().expect("next"), 4);
}

// Deleting a middle record leaves the allocator's scan on the maximum.
#[test]
fn test_next_number_after_middle_delete() {
    let git = repo_with_commits(&["c1", "c2", "c3"]);
    let mut manager = NotesManager::new(git, AdrConfig::default());
    for (n, c) in [(1u32, "c1"), (2, "c2"), (3, "c3")] {
        let mut adr = Adr::new(manager.format_id(n), format!("Decision {n}"));
        adr.commit = c.to_string();
        manager.create(&adr).expect("creates");
    }
    manager.delete("ADR-0002").expect("deletes");
    assert_eq!(manager.next_number().expect("next"), 4);
}

// The allocator scans the live records' maximum, not their count:
// with records numbered two and five, deleting five drops the next
// number to three, while a count-based allocator would say two.
#[test]
fn test_next_number_after_deleting_highest() {
    let git = repo_with_commits(&["c1", "c2"]);
    let mut manager = NotesManager::new(git, AdrConfig::default());
    for (n, c) in [(2u32, "c1"), (5, "c2")] {
        let mut adr = Adr::new(manager.format_id(n), format!("Decision {n}"));
        adr.commit = c.to_string();
        manager.create(&adr).expect("creates");
    }
    assert_eq!(manager.next_number().expect("next"), 6);
    manager.delete("ADR-0005").expect("deletes");
    assert_eq!(manager.next_number().expect("next"), 3);
}

// A second record on an already-annotated commit replaces the first.
#[test]
fn test_create_overwrites_existing_note() {
    let git = repo_with_commits(&["c1"]);
    let mut manager = NotesManager::new(git, AdrConfig::default());
    let mut first = Adr::new("ADR-0001".to_string(), "First".to_string());
    first.commit = "c1".to_string();
    manager.create(&first).expect("creates");
    let mut second = Adr::new("ADR-0002".to_string(), "Second".to_string());
    second.commit = "c1".to_string();
    manager.create(&second).expect("creates");
    let adrs = manager.list().expect("lists");
    assert_eq!(adrs.len(), 1);
    assert_eq!(adrs[0].id, "ADR-0002");
    let by_commit = manager.get_by_commit("c1").expect("found");
    assert_eq!(by_commit.id, "ADR-0002");
    assert!(manager.get("ADR-0001").is_err());
}

// Updating a record in place keeps everything else unchanged.
#[test]
fn test_update_preserves_fields() {
    let git = repo_with_commits(&["c1"]);
    let mut manager = NotesManager::new(git, AdrConfig::default());
    let mut adr = Adr::new("ADR-0001".to_string(), "Keep me".to_string());
    adr.commit = "c1".to_string();
    adr.frontmatter.authors = vec!["Alice".to_string()];
    adr.frontmatter.tags = vec!["one".to_string()];
    manager.create(&adr).expect("creates");
    let mut fetched = manager.get("ADR-0001").expect("found");
    fetched.frontmatter.tags.push("two".to_string());
    manager.update(&fetched).expect("updates");
    let back = manager.get("ADR-0001").expect("found again");
    assert_eq!(back.frontmatter.tags, vec!["one".to_string(), "two".to_string()]);
    assert_eq!(back.frontmatter.authors, vec!["Alice".to_string()]);
    assert_eq!(back.frontmatter.title, "Keep me");
    assert_eq!(back.commit, "c1");
}

// Fetching by a fragment shared by several ids resolves to the first
// in sorted order, deterministically.
#[test]
fn test_get_fragment_resolves_to_first_sorted() {
    let git = repo_with_commits(&["c1", "c2"]);
    let mut manager = NotesManager::new(git, AdrConfig::default());
    for (n, c) in [(12u32, "c1"), (120, "c2")] {
        let mut adr = Adr::new(manager.format_id(n), format!("Decision {n}"));
        adr.commit = c.to_string();
        manager.create(&adr).expect("creates");
    }
    // Both ADR-0012 and ADR-0120 contain "012"; the first sorted wins.
    let hit = manager.get("012").expect("found");
    assert_eq!(hit.id, "ADR-0012");
}

// A partial id fetches the first match in sorted order.
#[test]
fn test_get_by_partial_id() {
    let git = repo_with_commits(&["c1", "c2"]);
    let mut manager = NotesManager::new(git, AdrConfig::default());
    for (n, c) in [(7u32, "c1"), (17, "c2")] {
        let mut adr = Adr::new(manager.format_id(n), format!("Decision {n}"));
        adr.commit = c.to_string();
        manager.create(&adr).expect("creates");
    }
    let hit = manager.get("0007").expect("found by fragment");
    assert_eq!(hit.id, "ADR-0007");
    assert!(manager.get("0099").is_err());
}

// Listing sorts by id as plain text; a corrupt note is skipped.
#[test]
fn test_list_sorted_and_resilient() {
    let mut git = repo_with_commits(&["c1", "c2", "c3"]);
    git.notes_add("adr", "c2", "this is not a record").expect("raw note");
    let mut manager = NotesManager::new(git, AdrConfig::default());
    let mut b = Adr::new("ADR-0002".to_string(), "B".to_string());
    b.commit = "c3".to_string();
    manager.create(&b).expect("creates");
    let mut a = Adr::new("ADR-0001".to_string(), "A".to_string());
    a.commit = "c1".to_string();
    manager.create(&a).expect("creates");
    let adrs = manager.list().expect("lists");
    assert_eq!(adrs.len(), 2);
    assert_eq!(adrs[0].id, "ADR-0001");
    assert_eq!(adrs[1].id, "ADR-0002");
}

// Synchronization against a remote: fetch failures are tolerated, a
// failing push of the records namespace is fatal.
#[test]
fn test_sync_policy() {
    let mut git = repo_with_commits(&["c1"]);
    git.add_remote("origin").expect("remote");
    let mut manager = NotesManager::new(git, AdrConfig::default());
    let mut adr = Adr::new("ADR-0001".to_string(), "Synced".to_string());
    adr.commit = "c1".to_string();
    manager.create(&adr).expect("creates");
    // Fetching from a remote that has nothing is tolerated.
    assert!(manager.sync("origin", false, true).is_ok());
    // Pushing to a known remote goes through.
    assert!(manager.sync("origin", true, false).is_ok());
    // Pushing to an unknown remote is the fatal case.
    assert!(manager.sync("nowhere", true, false).is_err());
}
