use subscribe_hn::bot::{command_action, list_reply, Action, Command};
use subscribe_hn::store::Topics;

#[test]
fn subscribe_lowercases_the_topic_and_echoes_it() {
    match command_action(Command::Subscribe("Rust".to_string())) {
        Action::Subscribe { topic, reply } => {
            assert_eq!(topic, "rust");
            assert_eq!(reply, "Subscribed to Rust");
        }
        _ => panic!("wrong action"),
    }
}

#[test]
fn unsubscribe_lowercases_the_topic_and_echoes_it() {
    match command_action(Command::Unsubscribe("GoLang".to_string())) {
        Action::Unsubscribe { topic, reply } => {
            assert_eq!(topic, "golang");
            assert_eq!(reply, "Unsubscribed from GoLang");
        }
        _ => panic!("wrong action"),
    }
}

#[test]
fn help_and_list() {
    assert!(matches!(command_action(Command::Help), Action::SendHelp));
    assert!(matches!(command_action(Command::List), Action::List));
}

#[test]
fn list_reply_one_topic_per_line() {
    assert_eq!(list_reply(Some(vec!["rust".to_string(), "go".to_string()])), "rust\ngo");
    assert_eq!(list_reply(Some(vec![])), "");
    assert_eq!(list_reply(None), "You haven't subscribed to anything");
}

#[test]
fn subscribe_folds_unicode_case() {
    match command_action(Command::Subscribe("ÀÉÎ Rust".to_string())) {
        Action::Subscribe { topic, .. } => assert_eq!(topic, "àéî rust"),
        _ => panic!("wrong action"),
    }
}

#[test]
fn subscribe_list_unsubscribe_list() {
    let mut file = b"go\n".to_vec();
    if let Action::Subscribe { topic, .. } = command_action(Command::Subscribe("Rust".to_string())) {
        file.extend_from_slice(Topics::appended_line(&topic).as_bytes());
        Topics::new(None).update(&topic, Some(file.clone()));
    } else {
        panic!("wrong action");
    }
    let listed = Topics::new(None).fetch(Some(file.clone()));
    assert_eq!(list_reply(listed), "go\nrust");
    if let Action::Unsubscribe { topic, .. } = command_action(Command::Unsubscribe("RUST".to_string())) {
        let written = Topics::new(None).delete(&topic, Some(file.clone())).unwrap();
        file = written.into_bytes();
    } else {
        panic!("wrong action");
    }
    let listed = Topics::new(None).fetch(Some(file));
    assert_eq!(list_reply(listed), "go");
}
