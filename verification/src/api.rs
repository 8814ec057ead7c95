//! The Hacker News API: where stories are fetched from, and what a story
//! holds.

use vstd::prelude::*;

use crate::text::{concat, decimal, decimal_string, lemma_parse_decimal, parse_unsigned};

verus! {

/// The Hacker News API.
pub struct HN;

/// The root of the Hacker News API.
pub const BASE_URL: &'static str = "https://hacker-news.firebaseio.com/v0/";

/// The list of the newest story ids, under the root.
pub const NEW_STORIES: &'static str = "newstories.json";

/// The directory of items, under the root.
pub const ITEM: &'static str = "item";

/// The address of the list of new story ids: the root, `/`, and the list's
/// name (the root already ends with `/`, so the address holds `//`).
pub open spec fn story_ids_url_text() -> Seq<char> {
    BASE_URL@ + "/"@ + NEW_STORIES@
}

/// The address of the item `id`: the root, `/`, the item directory, `/`,
/// the id in decimal and `.json`.
pub open spec fn story_url_text(id: u32) -> Seq<char> {
    BASE_URL@ + "/"@ + ITEM@ + "/"@ + decimal(id as nat) + ".json"@
}

/// The item address carries the id itself: it is the item directory's
/// address, then text that reads back (as `str::parse` reads a `u32`) as
/// exactly `id`, then `.json`.
pub proof fn law_story_url_carries_id(id: u32)
    ensures
        exists|digits: Seq<char>|
            #![trigger parse_unsigned(digits, u32::MAX as nat)]
            story_url_text(id) == BASE_URL@ + "/"@ + ITEM@ + "/"@ + digits + ".json"@
                && parse_unsigned(digits, u32::MAX as nat) == Some(id as nat),
{
    lemma_parse_decimal(id as nat, u32::MAX as nat);
    let digits = decimal(id as nat);
    assert(parse_unsigned(digits, u32::MAX as nat) == Some(id as nat));
}

impl HN {
    /// The address that `get_story_ids` fetches.
    pub fn story_ids_url() -> (res: String)
        ensures
            res@ == story_ids_url_text(),
    {
        let a = concat(BASE_URL, "/");
        concat(a.as_str(), NEW_STORIES)
    }

    /// The address that `get_story` fetches for the story `id`.
    pub fn story_url(id: u32) -> (res: String)
        ensures
            res@ == story_url_text(id),
    {
        let a = concat(BASE_URL, "/");
        let b = concat(a.as_str(), ITEM);
        let c = concat(b.as_str(), "/");
        let digits = decimal_string(id as u64);
        let d = concat(c.as_str(), digits.as_str());
        concat(d.as_str(), ".json")
    }
}

/// A story as the API describes it.
pub struct News {
    pub title: String,
    pub url: Option<String>,
    pub dead: Option<bool>,
    pub id: u32,
    pub text: Option<String>,
}

} // verus!
