//! The bot's commands and the replies they get.

use vstd::prelude::*;

use vstd::utf8::*;

use crate::store::{
    differs_from, fetched, law_subscribed_topic_listed, law_unsubscribed_topic_not_listed,
    without,
};
use crate::text::{
    concat, ends_at_line_end, entries_text, is_line_safe, join_lines, join_newline, line_text,
    lowercase, lowercase_of, read_lines,
};

verus! {

/// A command sent to the bot.
#[derive(Clone, Debug)]
pub enum Command {
    /// Display help.
    Help,
    /// Subscribe to a topic.
    Subscribe(String),
    /// Unsubscribe from a topic.
    Unsubscribe(String),
    /// List all subscribed topics.
    List,
}

/// What answering a command takes.
#[derive(Clone, Debug)]
pub enum Action {
    /// Send the descriptions of the commands.
    SendHelp,
    /// Subscribe to `topic` (append its line to the topics file and record
    /// it with `Topics::update`), then send `reply`.
    Subscribe { topic: String, reply: String },
    /// Unsubscribe from `topic` with `Topics::delete` (writing over the
    /// topics file with what it gives), then send `reply`.
    Unsubscribe { topic: String, reply: String },
    /// Fetch the topics and send `list_reply` of them.
    List,
}

/// The reply to a subscription to `topic`, as the user wrote it.
pub open spec fn subscribed_text(topic: Seq<char>) -> Seq<char> {
    "Subscribed to "@ + topic
}

/// The reply to an unsubscription from `topic`, as the user wrote it.
pub open spec fn unsubscribed_text(topic: Seq<char>) -> Seq<char> {
    "Unsubscribed from "@ + topic
}

/// The reply to a listing where no topics could be read.
pub open spec fn nothing_subscribed_text() -> Seq<char> {
    "You haven't subscribed to anything"@
}

/// What answering `cmd` takes: help is sent as it is; a subscription or
/// unsubscription acts on the topic in lower case and replies with the
/// topic as written; a listing fetches the topics.
pub fn command_action(cmd: Command) -> (res: Action)
    ensures
        match cmd {
            Command::Help => res is SendHelp,
            Command::Subscribe(t) => res matches Action::Subscribe { topic, reply } && topic@
                == lowercase_of(t@) && reply@ == subscribed_text(t@),
            Command::Unsubscribe(t) => res matches Action::Unsubscribe { topic, reply } && topic@
                == lowercase_of(t@) && reply@ == unsubscribed_text(t@),
            Command::List => res is List,
        },
{
    match cmd {
        Command::Help => Action::SendHelp,
        Command::Subscribe(t) => Action::Subscribe {
            topic: lowercase(t.as_str()),
            reply: concat("Subscribed to ", t.as_str()),
        },
        Command::Unsubscribe(t) => Action::Unsubscribe {
            topic: lowercase(t.as_str()),
            reply: concat("Unsubscribed from ", t.as_str()),
        },
        Command::List => Action::List,
    }
}

/// The reply to a listing: the topics one per line, or, where none could
/// be read, a note that nothing is subscribed.
pub fn list_reply(topics: Option<Vec<String>>) -> (res: String)
    ensures
        res@ == (match topics {
            Some(v) => join_lines(v.deep_view()),
            None => nothing_subscribed_text(),
        }),
{
    match topics {
        Some(v) => join_newline(&v),
        None => {
            proof {
                reveal_strlit("");
            }
            concat("You haven't subscribed to anything", "")
        },
    }
}


/// Subscribing, listing, unsubscribing and listing again, as the bot
/// answers these commands, each with a store that reads the topics file
/// afresh: after `/subscribe t` the listing holds `t` in lower case, and
/// after `/unsubscribe t` it no longer does. `file` holds the topics file
/// before the subscription.
///
/// Two of the conditions are facts about `str::to_lowercase` that no
/// documentation here states: that a topic in lower case stays on one line
/// without a trailing `\r`, and that lowering it again changes nothing
/// (unsubscribing lowers the topic a second time). The last condition
/// leaves out the one case where the law fails: an empty topic with no
/// other topic left, where the rewritten file holds one empty line.
pub proof fn law_subscribe_list_unsubscribe(file: Seq<u8>, t: Seq<char>)
    requires
        ends_at_line_end(file),
        forall|i: int| 0 <= i < read_lines(file).len() ==> is_line_safe(#[trigger] read_lines(file)[i]),
        is_line_safe(lowercase_of(t)),
        lowercase_of(lowercase_of(t)) == lowercase_of(t),
        lowercase_of(t).len() > 0 || without(read_lines(file), lowercase_of(t)).len() > 0,
    ensures
        ({
            let after_subscribe = file + encode_utf8(line_text(lowercase_of(t)));
            let after_unsubscribe = encode_utf8(
                entries_text(without(read_lines(after_subscribe), lowercase_of(lowercase_of(t)))),
            );
            &&& fetched(None, Some(after_subscribe)) matches Some(listed) && listed.contains(
                lowercase_of(t),
            )
            &&& fetched(None, Some(after_unsubscribe)) matches Some(listed) && !listed.contains(
                lowercase_of(t),
            )
        }),
{
    let u = lowercase_of(t);
    let before = read_lines(file);
    let after_subscribe = file + encode_utf8(line_text(u));
    law_subscribed_topic_listed(file, u);
    let listed = before.push(u);
    assert(read_lines(after_subscribe) == listed);
    assert(listed[listed.len() - 1] == u);
    assert(listed.drop_last() == before);
    assert(without(listed, u) == without(before, u)) by {
        reveal_with_fuel(Seq::<Seq<char>>::filter, 1);
        assert(!differs_from(u)(u));
    }
    assert forall|i: int| 0 <= i < listed.len() implies is_line_safe(#[trigger] listed[i]) by {
        if i < before.len() {
            assert(listed[i] == before[i]);
        }
    }
    law_unsubscribed_topic_not_listed(listed, u);
}

} // verus!
