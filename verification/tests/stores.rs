use subscribe_hn::resources::{join_path, read_stored_id, Resources, BASE_PATH};
use subscribe_hn::store::{base_path_for, base_path_from, BasePathError, ProcessedId, SentStories, Topics};
use subscribe_hn::text::line_for;

fn strings(v: &[&str]) -> Vec<String> {
    v.iter().map(|s| s.to_string()).collect()
}

#[test]
fn store_paths() {
    assert_eq!(base_path_for(&"/home/alice".to_string()), "/home/alice/.config/subscribe_hn");
    assert_eq!(join_path("/home/alice/.config/subscribe_hn", "topics"), "/home/alice/.config/subscribe_hn/topics");
    assert_eq!(BASE_PATH, "~/.config/subscribe_hn");
    assert_eq!(Resources::get_topics_store(), "~/.config/subscribe_hn/topics");
    assert_eq!(Resources::get_id_store(), "~/.config/subscribe_hn/last_processed_id");
}

#[test]
fn stored_ids() {
    assert_eq!(read_stored_id(&" 42\n".to_string(), u32::MAX as u64), Some(42));
    assert_eq!(read_stored_id(&"0".to_string(), u32::MAX as u64), None);
    assert_eq!(read_stored_id(&"".to_string(), u32::MAX as u64), None);
    assert_eq!(read_stored_id(&"abc".to_string(), u32::MAX as u64), None);
    assert_eq!(read_stored_id(&"70000".to_string(), u16::MAX as u64), None);
}

#[test]
fn resources_fetch_reads_both_files() {
    let r = Resources::fetch(Some("17\n".to_string()), Some(b"rust\ngo\n".to_vec()));
    assert_eq!(r.last_processed_id(), Some(17));
    assert_eq!(r.subscribed_topics(), Some(strings(&["rust", "go"])));
    let r = Resources::fetch(None, None);
    assert_eq!(r.last_processed_id(), None);
    assert_eq!(r.subscribed_topics(), None);
    let r = Resources::fetch(Some("0".to_string()), Some(Vec::new()));
    assert_eq!(r.last_processed_id(), None);
    assert_eq!(r.subscribed_topics(), Some(Vec::new()));
}

#[test]
fn resources_writes() {
    assert_eq!(Resources::update_id(512), "512");
    assert_eq!(Resources::upate_topic("rust".to_string()), "rust\n");
}

#[test]
fn processed_id_prefers_memory() {
    let mut p = ProcessedId::new(None);
    assert!(!p.is_held());
    assert_eq!(p.fetch(Some("  31337 \n".to_string())), Some(31337));
    assert!(!p.is_held());
    assert_eq!(p.fetch(None), None);
    assert_eq!(p.update(&99), "99");
    assert!(p.is_held());
    assert_eq!(p.fetch(Some("5".to_string())), Some(99));
}

#[test]
fn processed_id_read_back_after_restart() {
    let mut p = ProcessedId::new(None);
    let written = p.update(&4000000000);
    let mut fresh = ProcessedId::new(None);
    assert_eq!(fresh.fetch(Some(written)), Some(4000000000));
    let written = p.update(&0);
    let mut fresh = ProcessedId::new(None);
    assert_eq!(fresh.fetch(Some(written)), None);
}

#[test]
fn topics_fetch_reads_file_once() {
    let mut t = Topics::new(None);
    assert!(!t.is_held());
    assert_eq!(t.fetch(None), None);
    assert_eq!(t.fetch(Some(b"rust\ngo\n".to_vec())), Some(strings(&["rust", "go"])));
    assert!(t.is_held());
    assert_eq!(t.fetch(Some(b"other\n".to_vec())), Some(strings(&["rust", "go"])));
}

#[test]
fn topics_update_keeps_the_line_it_appended() {
    let mut t = Topics::new(None);
    t.update(&"zig".to_string(), Some(b"rust\nzig\n".to_vec()));
    assert_eq!(t.fetch(None), Some(strings(&["rust", "zig", "zig\n"])));
    let mut t = Topics::new(None);
    t.update(&"zig".to_string(), None);
    assert_eq!(t.fetch(None), Some(strings(&["zig\n"])));
    let mut t = Topics::new(Some(strings(&["go"])));
    t.update(&"zig".to_string(), None);
    assert_eq!(t.fetch(None), Some(strings(&["go", "zig\n"])));
}

#[test]
fn subscribed_topic_is_listed_by_a_fresh_store() {
    let mut file = b"rust\n".to_vec();
    file.extend_from_slice(line_for(&"zig".to_string()).as_bytes());
    let mut t = Topics::new(None);
    assert_eq!(t.fetch(Some(file)), Some(strings(&["rust", "zig"])));
}

#[test]
fn topics_delete_drops_lowercase_matches() {
    let mut t = Topics::new(None);
    let written = t.delete(&"Rust".to_string(), Some(b"rust\ngo\nRust\nrust\n".to_vec()));
    assert_eq!(written, Some("go\nRust\n".to_string()));
    assert_eq!(t.fetch(None), Some(strings(&["go", "Rust"])));
}

#[test]
fn topics_delete_without_file_changes_nothing() {
    let mut t = Topics::new(None);
    assert_eq!(t.delete(&"rust".to_string(), None), None);
    assert!(!t.is_held());
}

#[test]
fn topics_delete_last_topic_writes_an_empty_line() {
    let mut t = Topics::new(Some(strings(&["rust"])));
    let written = t.delete(&"rust".to_string(), None).unwrap();
    assert_eq!(written, "\n");
    let mut fresh = Topics::new(None);
    assert_eq!(fresh.fetch(Some(written.into_bytes())), Some(strings(&[""])));
}

#[test]
fn unsubscribed_topic_not_listed_by_a_fresh_store() {
    let mut t = Topics::new(None);
    let written = t.delete(&"GO".to_string(), Some(b"rust\ngo\nzig\n".to_vec())).unwrap();
    let mut fresh = Topics::new(None);
    let listed = fresh.fetch(Some(written.into_bytes())).unwrap();
    assert_eq!(listed, strings(&["rust", "zig"]));
    assert!(!listed.contains(&"go".to_string()));
}

#[test]
fn topics_overwrite_round_trip() {
    let mut t = Topics::new(None);
    let written = t.overwrite(strings(&["a", "b"]));
    assert_eq!(written, "a\nb\n");
    assert_eq!(t.fetch(None), Some(strings(&["a", "b"])));
    let mut fresh = Topics::new(None);
    assert_eq!(fresh.fetch(Some(written.into_bytes())), Some(strings(&["a", "b"])));
}

#[test]
fn sent_stories_live_in_their_file() {
    let mut s = SentStories::new(Some(strings(&["ignored"])));
    assert_eq!(s.fetch(None), None);
    assert_eq!(s.fetch(Some(b"A title\n".to_vec())), Some(strings(&["A title"])));
    assert_eq!(s.update(&"Another".to_string()), "Another\n");
}

#[test]
fn base_path_for_each_lookup_outcome() {
    assert_eq!(
        base_path_from(Some(Some("/home/bob".to_string()))),
        Ok("/home/bob/.config/subscribe_hn".to_string())
    );
    assert_eq!(base_path_from(Some(None)), Err(BasePathError::HomeNotUnicode));
    assert_eq!(base_path_from(None), Err(BasePathError::NoHomeDirectory));
}
