use subscribe_hn::api::{News, HN};
use subscribe_hn::notify::{announcement, stories_to_check, story_matches, story_mentions, story_step};
use subscribe_hn::text::lines_of;
use subscribe_hn::store::SentStories;

fn story(title: &str, url: Option<&str>, text: Option<&str>) -> News {
    News {
        title: title.to_string(),
        url: url.map(|u| u.to_string()),
        dead: None,
        id: 1,
        text: text.map(|t| t.to_string()),
    }
}

fn owned(v: &[&str]) -> Vec<String> {
    v.iter().map(|s| s.to_string()).collect()
}

#[test]
fn api_addresses() {
    assert_eq!(HN::story_ids_url(), "https://hacker-news.firebaseio.com/v0//newstories.json");
    assert_eq!(HN::story_url(8863), "https://hacker-news.firebaseio.com/v0//item/8863.json");
    assert_eq!(HN::story_url(0), "https://hacker-news.firebaseio.com/v0//item/0.json");
}

#[test]
fn stories_before_the_last_processed_one() {
    let ids = vec![50, 49, 48, 47];
    assert_eq!(stories_to_check(&ids, Some(48)), vec![50, 49]);
    assert_eq!(stories_to_check(&ids, Some(50)), Vec::<u32>::new());
    assert_eq!(stories_to_check(&ids, Some(7)), ids);
    assert_eq!(stories_to_check(&ids, None), Vec::<u32>::new());
    assert_eq!(stories_to_check(&vec![], Some(3)), Vec::<u32>::new());
}

#[test]
fn new_stories_in_front_are_the_unseen_ones() {
    let old = vec![20, 19, 18];
    let mut all = vec![23, 22, 21];
    all.extend(old.iter().copied());
    assert_eq!(stories_to_check(&all, Some(old[0])), vec![23, 22, 21]);
}

#[test]
fn title_match_is_case_insensitive_word_match() {
    let s = story("Rust/WASM-powered Editor", Some("https://x"), None);
    assert!(story_mentions(&s, &"rust".to_string()));
    assert!(story_mentions(&s, &"wasm".to_string()));
    assert!(story_mentions(&s, &"powered".to_string()));
    assert!(!story_mentions(&s, &"Rust".to_string()));
    assert!(!story_mentions(&s, &"edit".to_string()));
}

#[test]
fn text_match_uses_whitespace_words() {
    let s = story("Ask HN", None, Some("Anyone using Zig\tin production?"));
    assert!(story_mentions(&s, &"zig".to_string()));
    assert!(!story_mentions(&s, &"production".to_string()));
    assert!(story_mentions(&s, &"production?".to_string()));
    assert!(!story_mentions(&s, &"".to_string()));
}

#[test]
fn empty_topic_matches_titles_with_empty_pieces() {
    let s = story("a - b", None, None);
    assert!(story_mentions(&s, &"".to_string()));
    let s = story("a b", None, None);
    assert!(!story_mentions(&s, &"".to_string()));
}

#[test]
fn matches_any_topic() {
    let s = story("Go 2 released", Some("https://go.dev"), None);
    assert!(story_matches(&s, &owned(&["rust", "go"])));
    assert!(!story_matches(&s, &owned(&["rust", "zig"])));
    assert!(!story_matches(&s, &Vec::new()));
}

#[test]
fn announcement_needs_url_and_unsent_title() {
    let s = story("Go 2 released", Some("https://go.dev"), None);
    assert_eq!(announcement(&s, None), Some("Go 2 released\nhttps://go.dev".to_string()));
    assert_eq!(announcement(&s, Some(owned(&["Other"]))), Some("Go 2 released\nhttps://go.dev".to_string()));
    assert_eq!(announcement(&s, Some(owned(&["Go 2 released"]))), None);
    let no_url = story("Go 2 released", None, None);
    assert_eq!(announcement(&no_url, None), None);
}

#[test]
fn sent_title_is_not_announced_again() {
    let s = story("Go 2 released", Some("https://go.dev"), None);
    let mut store = SentStories::new(None);
    let mut file = b"Older story\n".to_vec();
    assert!(announcement(&s, store.fetch(Some(file.clone()))).is_some());
    file.extend_from_slice(store.update(&s.title).as_bytes());
    assert_eq!(announcement(&s, store.fetch(Some(file))), None);
}

#[test]
fn story_step_needs_topics_a_match_and_an_unsent_title() {
    let s = story("Go 2 released", Some("https://go.dev"), None);
    let topics = Some(owned(&["go"]));
    assert_eq!(story_step(&s, &topics, None), Some("Go 2 released\nhttps://go.dev".to_string()));
    assert_eq!(story_step(&s, &topics, Some(owned(&["Go 2 released"]))), None);
    assert_eq!(story_step(&s, &Some(owned(&["rust"])), None), None);
    assert_eq!(story_step(&s, &None, None), None);
}

#[test]
fn round_sends_each_title_once_and_appends_in_order() {
    let topics = Some(owned(&["go", "rust"]));
    let stories = vec![
        story("Go 2 released", Some("https://go.dev"), None),
        story("Rust 2 released", Some("https://rust-lang.org"), None),
        story("Go 2 released", Some("https://go.dev/again"), None),
        story("Old news about rust", Some("https://old"), None),
        story("Zig 1.0", Some("https://ziglang.org"), None),
    ];
    let mut store = SentStories::new(None);
    let mut file = b"Old news about rust\n".to_vec();
    let mut sent = Vec::new();
    for s in &stories {
        let titles = store.fetch(Some(file.clone()));
        if let Some(_) = story_step(s, &topics, titles) {
            sent.push(s.title.clone());
            file.extend_from_slice(store.update(&s.title).as_bytes());
        }
    }
    assert_eq!(sent, owned(&["Go 2 released", "Rust 2 released"]));
    assert_eq!(file, b"Old news about rust\nGo 2 released\nRust 2 released\n".to_vec());
    assert_eq!(lines_of(&file), owned(&["Old news about rust", "Go 2 released", "Rust 2 released"]));
}
