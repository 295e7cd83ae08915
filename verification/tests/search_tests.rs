//! The search index and its manager.

use git_adr::adr::Adr;
use git_adr::config::AdrConfig;
use git_adr::git::Git;
use git_adr::index::{IndexEntry, IndexManager, SearchIndex};
use git_adr::notes::NotesManager;

fn entry(id: &str, commit: &str, title: &str, status: &str, tags: &[&str], text: &str) -> IndexEntry {
    IndexEntry {
        id: id.to_string(),
        commit: commit.to_string(),
        title: title.to_string(),
        status: status.to_string(),
        tags: tags.iter().map(|t| t.to_string()).collect(),
        text: text.to_string(),
    }
}

fn repo_with_commits(ids: &[&str]) -> Git {
    let mut git = Git::with_work_dir("/work/repo");
    git.init_repository();
    for id in ids {
        git.add_commit(id).expect("fresh commit id");
    }
    git
}

#[test]
fn test_index_entry_matches() {
    let e = entry(
        "ADR-0001",
        "abc123",
        "Use Rust for CLI",
        "proposed",
        &["architecture"],
        "use rust for cli architecture",
    );
    assert!(e.matches("rust"));
    assert!(e.matches("RUST"));
    assert!(e.matches("adr-0001"));
    assert!(!e.matches("python"));
}

#[test]
fn test_index_entry_matches_by_id() {
    let e = entry("ADR-0001", "abc123", "Something Else", "proposed", &[], "something else");
    assert!(e.matches("ADR-0001"));
    assert!(e.matches("adr-0001"));
}

#[test]
fn test_index_entry_matches_by_title() {
    let e = entry("ADR-0001", "abc123", "Use PostgreSQL for Database", "proposed", &[], "some text");
    assert!(e.matches("PostgreSQL"));
    assert!(e.matches("POSTGRESQL"));
}

#[test]
fn test_index_entry_from_adr() {
    let mut adr = Adr::new("ADR-0001".to_string(), "Test Title".to_string());
    adr.commit = "abc123".to_string();
    adr.frontmatter.tags = vec!["rust".to_string(), "cli".to_string()];
    adr.body = "This is the body content.".to_string();
    let e = IndexEntry::from_adr(&adr);
    assert_eq!(e.id, "ADR-0001");
    assert_eq!(e.commit, "abc123");
    assert_eq!(e.title, "Test Title");
    assert_eq!(e.status, "proposed");
    assert_eq!(e.tags, vec!["rust", "cli"]);
    assert!(e.text.contains("test title"));
    assert!(e.text.contains("this is the body content"));
}

#[test]
fn test_search_index() {
    let mut index = SearchIndex::new();
    index.upsert(entry("ADR-0001", "abc123", "Use Rust", "proposed", &[], "use rust"));
    index.upsert(entry("ADR-0002", "def456", "Use Python", "accepted", &[], "use python"));
    assert_eq!(index.search("rust").len(), 1);
    assert_eq!(index.search("use").len(), 2);
    assert_eq!(index.search("java").len(), 0);
}

#[test]
fn test_search_index_remove() {
    let mut index = SearchIndex::new();
    index.upsert(entry("ADR-0001", "abc123", "Use Rust", "proposed", &[], "use rust"));
    assert_eq!(index.entries.len(), 1);
    index.remove("ADR-0001");
    assert_eq!(index.entries.len(), 0);
}

#[test]
fn test_search_index_all() {
    let mut index = SearchIndex::new();
    index.upsert(entry("ADR-0001", "abc123", "First", "proposed", &[], "first"));
    index.upsert(entry("ADR-0002", "def456", "Second", "accepted", &[], "second"));
    assert_eq!(index.all().len(), 2);
}

#[test]
fn test_search_index_upsert_updates() {
    let mut index = SearchIndex::new();
    index.upsert(entry("ADR-0001", "abc123", "Original", "proposed", &[], "original"));
    index.upsert(entry("ADR-0001", "abc123", "Updated", "accepted", &[], "updated"));
    assert_eq!(index.entries.len(), 1);
    assert_eq!(index.entries.get("ADR-0001").unwrap().title, "Updated");
}

#[test]
fn test_search_index_new() {
    let index = SearchIndex::new();
    assert_eq!(index.version, 1);
    assert!(index.entries.is_empty());
}

#[test]
fn test_search_index_default() {
    let index = SearchIndex::default();
    assert_eq!(index.version, 0);
    assert!(index.entries.is_empty());
}

#[test]
fn test_search_index_clone() {
    let mut index = SearchIndex::new();
    index.upsert(entry("ADR-0001", "abc123", "Test", "proposed", &["test"], "test"));
    let cloned = index.clone();
    assert_eq!(cloned.entries.len(), 1);
    assert_eq!(cloned.version, index.version);
}

#[test]
fn test_index_entry_clone() {
    let e = entry("ADR-0001", "abc123", "Test", "proposed", &["test"], "test content");
    let cloned = e.clone();
    assert_eq!(cloned.id, e.id);
    assert_eq!(cloned.commit, e.commit);
    assert_eq!(cloned.title, e.title);
    assert_eq!(cloned.tags, e.tags);
}

#[test]
fn test_index_manager_new() {
    let git = Git::new();
    let _manager = IndexManager::new(git);
}

// Searching is a pure reading of the index: the same query twice gives
// the same answer, and the index is unchanged by asking.
#[test]
fn test_search_is_pure() {
    let mut index = SearchIndex::new();
    index.upsert(entry("ADR-0001", "c1", "Use Rust", "proposed", &[], "use rust"));
    let first = index.search("Rust");
    let second = index.search("rust");
    assert_eq!(first.len(), 1);
    assert_eq!(second.len(), 1);
    assert_eq!(first[0].id, second[0].id);
    assert_eq!(index.entries.len(), 1);
}

// The persisted blob survives the round trip through its codec.
#[test]
fn test_index_codec_round_trip() {
    let mut index = SearchIndex::new();
    index.upsert(entry(
        "ADR-0001",
        "c1",
        "Title with\nnewline and spaces",
        "accepted",
        &["a b", "c"],
        "lowered text",
    ));
    index.upsert(entry("ADR-0002", "c2", "Plain", "proposed", &[], ""));
    let blob = git_adr::index::encode_index_exec(&index);
    let chars: Vec<char> = blob.chars().collect();
    let back = git_adr::index::decode_index_chars(&chars).expect("decodes");
    assert_eq!(back.version, index.version);
    assert_eq!(back.entries.len(), index.entries.len());
    let e = back.entries.get("ADR-0001").unwrap();
    assert_eq!(e.title, "Title with\nnewline and spaces");
    assert_eq!(e.tags, vec!["a b", "c"]);
}

#[test]
fn test_index_manager_load_empty() {
    let git = repo_with_commits(&["c1"]);
    let manager = IndexManager::new(git);
    let index = manager.load().expect("Should load");
    assert!(index.entries.is_empty());
}

#[test]
fn test_index_manager_save_and_load() {
    let git = repo_with_commits(&["c1"]);
    let mut manager = IndexManager::new(git);
    let mut index = SearchIndex::new();
    index.upsert(entry("ADR-0001", "abc123", "Test", "proposed", &["tag1"], "test"));
    manager.save(&index).expect("Should save");
    let loaded = manager.load().expect("Should load");
    assert_eq!(loaded.entries.len(), 1);
    assert!(loaded.entries.contains_key("ADR-0001"));
}

#[test]
fn test_index_manager_rebuild() {
    let git = repo_with_commits(&["c1"]);
    let mut notes = NotesManager::new(git.clone(), AdrConfig::default());
    let adr = Adr::new("ADR-0001".to_string(), "Test Decision".to_string());
    notes.create(&adr).expect("Should create ADR");
    let mut index_manager = IndexManager::new(git);
    let index = index_manager.rebuild(&notes).expect("Should rebuild");
    assert_eq!(index.entries.len(), 1);
    assert!(index.entries.contains_key("ADR-0001"));
}

// Rebuilding then searching finds a fresh record by its title text,
// and nothing else.
#[test]
fn test_rebuild_then_search() {
    let git = repo_with_commits(&["c1", "c2"]);
    let mut notes = NotesManager::new(git.clone(), AdrConfig::default());
    let mut one = Adr::new("ADR-0001".to_string(), "Use PostgreSQL".to_string());
    one.commit = "c1".to_string();
    notes.create(&one).expect("creates");
    let mut two = Adr::new("ADR-0002".to_string(), "Use Python for Scripts".to_string());
    two.commit = "c2".to_string();
    notes.create(&two).expect("creates");
    let mut index_manager = IndexManager::new(git);
    index_manager.rebuild(&notes).expect("rebuilds");
    let results = index_manager.search("postgres").expect("searches");
    assert_eq!(results.len(), 1);
    assert_eq!(results[0].id, "ADR-0001");
    let both = index_manager.search("Use").expect("searches");
    assert_eq!(both.len(), 2);
}

// The index is a cache: a record created after the last rebuild is
// invisible to search until the next one.
#[test]
fn test_index_goes_stale_until_rebuilt() {
    let git = repo_with_commits(&["c1", "c2"]);
    let mut notes = NotesManager::new(git.clone(), AdrConfig::default());
    let mut one = Adr::new("ADR-0001".to_string(), "Use PostgreSQL".to_string());
    one.commit = "c1".to_string();
    notes.create(&one).expect("creates");
    let mut index_manager = IndexManager::new(git);
    index_manager.rebuild(&notes).expect("rebuilds");
    let mut two = Adr::new("ADR-0002".to_string(), "Use Kafka".to_string());
    two.commit = "c2".to_string();
    notes.create(&two).expect("creates");
    assert_eq!(index_manager.search("kafka").expect("searches").len(), 0);
    index_manager.rebuild(&notes).expect("rebuilds again");
    assert_eq!(index_manager.search("kafka").expect("searches").len(), 1);
}
