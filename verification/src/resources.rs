//! An older form of the stores: the last processed id and the subscribed
//! topics, read together from fixed files.

use vstd::prelude::*;

use crate::text::{
    chars_of, concat, decimal, decimal_string, line_for, line_text, lines_of, parse_decimal,
    parse_unsigned, read_lines, trim, trimmed,
};

verus! {

/// The directory of the stores.
pub const BASE_PATH: &'static str = "~/.config/subscribe_hn";

/// The path of the file `name` in the directory `dir`: the two joined by
/// `/`. The stores join only relative names onto directories that do not
/// end with `/`, where this is what `Path::join` gives.
pub open spec fn file_path(dir: Seq<char>, name: Seq<char>) -> Seq<char> {
    dir + "/"@ + name
}

/// The path of the file `name` in the directory `dir`.
pub fn join_path(dir: &str, name: &str) -> (res: String)
    ensures
        res@ == file_path(dir@, name@),
{
    let a = concat(dir, "/");
    concat(a.as_str(), name)
}

/// The id that a stored text denotes: the text without surrounding
/// whitespace must be a decimal number no larger than `max`, and a zero
/// (or anything unreadable) counts as no id at all.
pub open spec fn stored_id(content: Seq<char>, max: nat) -> Option<nat> {
    match parse_unsigned(trim(content), max) {
        Some(v) => if v > 0 {
            Some(v)
        } else {
            None
        },
        None => None,
    }
}

/// Reads an id from the text of an id file, as `stored_id` describes it.
pub fn read_stored_id(content: &String, max: u64) -> (res: Option<u64>)
    ensures
        match stored_id(content@, max as nat) {
            Some(v) => res == Some(v as u64),
            None => res is None,
        },
{
    let cs = chars_of(content.as_str());
    let t = trimmed(cs.as_slice());
    match parse_decimal(t.as_slice(), max) {
        Some(v) => if v > 0 {
            Some(v)
        } else {
            None
        },
        None => None,
    }
}

/// The last processed id and the subscribed topics.
pub struct Resources {
    last_processed_id: Option<u16>,
    subscribed_topics: Option<Vec<String>>,
}

impl Resources {
    /// The id this value holds.
    pub closed spec fn spec_last_processed_id(&self) -> Option<u16> {
        self.last_processed_id
    }

    /// The topics this value holds.
    pub closed spec fn spec_subscribed_topics(&self) -> Option<Seq<Seq<char>>> {
        match &self.subscribed_topics {
            Some(v) => Some(v.deep_view()),
            None => None,
        }
    }

    /// The path of the topics file.
    pub fn get_topics_store() -> (res: String)
        ensures
            res@ == file_path(BASE_PATH@, "topics"@),
    {
        join_path(BASE_PATH, "topics")
    }

    /// The path of the id file.
    pub fn get_id_store() -> (res: String)
        ensures
            res@ == file_path(BASE_PATH@, "last_processed_id"@),
    {
        join_path(BASE_PATH, "last_processed_id")
    }

    /// Reads both stores from what the two files held: `id_file` is the text
    /// of the id file (`None` where it could not be read as text), and
    /// `topics_file` the bytes of the topics file (`None` where it could not
    /// be opened).
    pub fn fetch(id_file: Option<String>, topics_file: Option<Vec<u8>>) -> (res: Resources)
        ensures
            res.spec_last_processed_id() == (match id_file {
                Some(content) => match stored_id(content@, u16::MAX as nat) {
                    Some(v) => Some(v as u16),
                    None => None,
                },
                None => None,
            }),
            res.spec_subscribed_topics() == (match topics_file {
                Some(bytes) => Some(read_lines(bytes@)),
                None => None,
            }),
    {
        Resources {
            last_processed_id: Resources::fetch_id(id_file),
            subscribed_topics: Resources::fetch_topics(topics_file),
        }
    }

    /// The id that the id file's text denotes, if any.
    pub fn fetch_id(id_file: Option<String>) -> (res: Option<u16>)
        ensures
            res == (match id_file {
                Some(content) => match stored_id(content@, u16::MAX as nat) {
                    Some(v) => Some(v as u16),
                    None => None,
                },
                None => None,
            }),
    {
        match id_file {
            Some(content) => match read_stored_id(&content, u16::MAX as u64) {
                Some(v) => Some(v as u16),
                None => None,
            },
            None => None,
        }
    }

    /// The topics that the topics file's bytes hold, one per line.
    pub fn fetch_topics(topics_file: Option<Vec<u8>>) -> (res: Option<Vec<String>>)
        ensures
            match topics_file {
                Some(bytes) => res matches Some(v) && v.deep_view() == read_lines(bytes@),
                None => res is None,
            },
    {
        match topics_file {
            Some(bytes) => Some(lines_of(bytes.as_slice())),
            None => None,
        }
    }

    /// The text to write to the id file for `id`: its decimal writing.
    pub fn update_id(id: u16) -> (res: String)
        ensures
            res@ == decimal(id as nat),
    {
        decimal_string(id as u64)
    }

    /// The line to append to the topics file for `topic`.
    pub fn upate_topic(topic: String) -> (res: String)
        ensures
            res@ == line_text(topic@),
    {
        line_for(&topic)
    }

    /// The last processed id.
    pub fn last_processed_id(&self) -> (res: Option<u16>)
        ensures
            res == self.spec_last_processed_id(),
    {
        self.last_processed_id
    }

    /// The subscribed topics.
    pub fn subscribed_topics(&self) -> (res: Option<Vec<String>>)
        ensures
            match res {
                Some(v) => self.spec_subscribed_topics() == Some(v.deep_view()),
                None => self.spec_subscribed_topics() is None,
            },
    {
        match &self.subscribed_topics {
            Some(v) => Some(v.clone()),
            None => None,
        }
    }
}

} // verus!
