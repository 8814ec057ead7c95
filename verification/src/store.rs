//! The stores: the last processed story id, the subscribed topics and the
//! titles already sent. Each store keeps its entries in a file under
//! `~/.config/subscribe_hn`; the functions here decide what is read, kept
//! and written, and the caller moves the bytes to and from the files.

use vstd::prelude::*;
use vstd::utf8::*;

use crate::resources::{file_path, join_path, read_stored_id, stored_id};
use crate::text::{
    concat, decimal, decimal_string, entries_file_text, entries_text, ends_at_line_end,
    is_line_safe, lemma_decimal_digits, lemma_parse_decimal, lemma_read_appended_line,
    lemma_read_written_entries, lemma_writes_end_at_line_end, line_for, line_text, lines_of, lowercase, lowercase_of,
    read_lines, same_text, trim, trim_start, is_whitespace,
};

verus! {

// ---------------------------------------------------------------------------
// Where the stores live
// ---------------------------------------------------------------------------

/// Why the directory of the stores could not be named.
#[derive(Clone, Copy, PartialEq, Eq, Debug)]
pub enum BasePathError {
    /// No home directory is known for the user.
    NoHomeDirectory,
    /// The home directory's path is not valid Unicode.
    HomeNotUnicode,
}

/// Calls `dirs::home_dir` and converts the path it gives to a `String`
/// (`None` inside where the path is not valid Unicode). Nothing is claimed
/// of the result: it depends on the environment.
#[verifier::external_body]
fn home_directory() -> (res: Option<Option<String>>) {
    match dirs::home_dir() {
        Some(path) => Some(path.into_os_string().into_string().ok()),
        None => None,
    }
}

/// The directory of the stores for the home directory `home`.
pub open spec fn store_dir(home: Seq<char>) -> Seq<char> {
    home + "/.config/subscribe_hn"@
}

/// The directory of the stores for the home directory `home`.
pub fn base_path_for(home: &String) -> (res: String)
    ensures
        res@ == store_dir(home@),
{
    concat(home.as_str(), "/.config/subscribe_hn")
}

/// A path, or why it could not be named, with the path taken by its
/// characters.
pub open spec fn path_outcome(res: Result<String, BasePathError>) -> Result<Seq<char>, BasePathError> {
    match res {
        Ok(path) => Ok(path@),
        Err(e) => Err(e),
    }
}

/// The directory of the stores for what looking up the home directory
/// gave: no home directory, one whose path is not valid Unicode (`None`
/// inside), or the path of one.
pub open spec fn base_path_outcome(home: Option<Option<Seq<char>>>) -> Result<Seq<char>, BasePathError> {
    match home {
        Some(Some(h)) => Ok(store_dir(h)),
        Some(None) => Err(BasePathError::HomeNotUnicode),
        None => Err(BasePathError::NoHomeDirectory),
    }
}

/// The directory of the stores for what looking up the home directory
/// gave, as `base_path_outcome` describes it.
pub fn base_path_from(home: Option<Option<String>>) -> (res: Result<String, BasePathError>)
    ensures
        path_outcome(res) == base_path_outcome(home.deep_view()),
{
    match home {
        Some(Some(home)) => Ok(base_path_for(&home)),
        Some(None) => Err(BasePathError::HomeNotUnicode),
        None => Err(BasePathError::NoHomeDirectory),
    }
}

/// The directory of the stores under the user's home directory: looks the
/// home directory up and answers as `base_path_from` does for what it gave.
pub fn get_base_path() -> (res: Result<String, BasePathError>)
    ensures
        res matches Ok(path) ==> exists|home: Seq<char>| path@ == store_dir(home),
{
    base_path_from(home_directory())
}

/// The path of the store file `name` under the user's home directory.
fn store_file(name: &str) -> (res: Result<String, BasePathError>)
    ensures
        res matches Ok(path) ==> exists|home: Seq<char>| path@ == file_path(store_dir(home), name@),
{
    match get_base_path() {
        Ok(base) => Ok(join_path(base.as_str(), name)),
        Err(e) => Err(e),
    }
}

// ---------------------------------------------------------------------------
// The last processed story id
// ---------------------------------------------------------------------------

/// The last processed id that a store gives: the one held in memory, or
/// else the one the id file's text denotes (`disk` is that text, `None`
/// where the file could not be read as text).
pub open spec fn fetched_id(held: Option<u32>, disk: Option<Seq<char>>) -> Option<u32> {
    match held {
        Some(id) => Some(id),
        None => match disk {
            Some(content) => match stored_id(content, u32::MAX as nat) {
                Some(v) => Some(v as u32),
                None => None,
            },
            None => None,
        },
    }
}

/// The id of the newest story seen in the last round, kept in memory once
/// it is known.
pub struct ProcessedId(Option<u32>);

impl ProcessedId {
    /// The id held in memory.
    pub closed spec fn held(&self) -> Option<u32> {
        self.0
    }

    /// A store holding `id` in memory.
    pub fn new(id: Option<u32>) -> (res: ProcessedId)
        ensures
            res.held() == id,
    {
        ProcessedId(id)
    }

    /// The path of the id file.
    pub fn get_store() -> (res: Result<String, BasePathError>)
        ensures
            res matches Ok(path) ==> exists|home: Seq<char>|
                path@ == file_path(store_dir(home), "last_processed_id"@),
    {
        store_file("last_processed_id")
    }

    /// Whether the id is held in memory, so that `fetch` needs no file.
    pub fn is_held(&self) -> (res: bool)
        ensures
            res == self.held() is Some,
    {
        self.0.is_some()
    }

    /// Records `id` and gives the text to write to the id file: its
    /// decimal writing.
    pub fn update(&mut self, id: &u32) -> (res: String)
        ensures
            final(self).held() == Some(*id),
            res@ == decimal(*id as nat),
    {
        self.0 = Some(*id);
        decimal_string(*id as u64)
    }

    /// The last processed id: the one held in memory, or else the one the
    /// id file's text denotes (`disk` is that text, `None` where the file
    /// could not be read as text). A zero or unreadable id counts as none.
    pub fn fetch(&mut self, disk: Option<String>) -> (res: Option<u32>)
        ensures
            final(self).held() == old(self).held(),
            res == fetched_id(old(self).held(), disk.deep_view()),
    {
        match self.0 {
            Some(id) => Some(id),
            None => match disk {
                Some(content) => match read_stored_id(&content, u32::MAX as u64) {
                    Some(v) => Some(v as u32),
                    None => None,
                },
                None => None,
            },
        }
    }
}

// ---------------------------------------------------------------------------
// The subscribed topics
// ---------------------------------------------------------------------------

/// The topics that a topics store gives: the ones held in memory, or else
/// the lines of the topics file (`disk` holds its bytes, `None` where it
/// could not be opened).
pub open spec fn fetched(held: Option<Seq<Seq<char>>>, disk: Option<Seq<u8>>) -> Option<
    Seq<Seq<char>>,
> {
    match held {
        Some(ts) => Some(ts),
        None => match disk {
            Some(b) => Some(read_lines(b)),
            None => None,
        },
    }
}

/// The bytes of a file, where it could be read.
pub open spec fn bytes_of(disk: Option<Vec<u8>>) -> Option<Seq<u8>> {
    match disk {
        Some(b) => Some(b@),
        None => None,
    }
}

/// Whether an entry differs from `t`.
pub open spec fn differs_from(t: Seq<char>) -> spec_fn(Seq<char>) -> bool {
    |e: Seq<char>| e != t
}

/// `ts` without the entries equal to `t`, in their order.
pub open spec fn without(ts: Seq<Seq<char>>, t: Seq<char>) -> Seq<Seq<char>> {
    ts.filter(differs_from(t))
}

/// The subscribed topics, kept in memory once they have been read.
#[derive(Clone)]
pub struct Topics(Option<Vec<String>>);

impl Topics {
    /// The topics held in memory.
    pub closed spec fn held(&self) -> Option<Seq<Seq<char>>> {
        match &self.0 {
            Some(v) => Some(v.deep_view()),
            None => None,
        }
    }

    /// A store holding `topics` in memory.
    pub fn new(topics: Option<Vec<String>>) -> (res: Topics)
        ensures
            res.held() == (match topics {
                Some(v) => Some(v.deep_view()),
                None => None,
            }),
    {
        Topics(topics)
    }

    /// The path of the topics file.
    pub fn get_store() -> (res: Result<String, BasePathError>)
        ensures
            res matches Ok(path) ==> exists|home: Seq<char>|
                path@ == file_path(store_dir(home), "topics"@),
    {
        store_file("topics")
    }

    /// Whether the topics are held in memory, so that `fetch` needs no file.
    pub fn is_held(&self) -> (res: bool)
        ensures
            res == self.held() is Some,
    {
        self.0.is_some()
    }

    /// The subscribed topics, as `fetched` describes them; topics read
    /// from the file are held in memory from then on.
    pub fn fetch(&mut self, disk: Option<Vec<u8>>) -> (res: Option<Vec<String>>)
        ensures
            final(self).held() == fetched(old(self).held(), bytes_of(disk)),
            match res {
                Some(v) => final(self).held() == Some(v.deep_view()),
                None => final(self).held() is None,
            },
    {
        match &self.0 {
            Some(topics) => Some(topics.clone()),
            None => match disk {
                Some(bytes) => {
                    let lines = lines_of(bytes.as_slice());
                    self.0 = Some(lines.clone());
                    Some(lines)
                },
                None => None,
            },
        }
    }

    /// Holds `topics` in memory and gives the text to write over the topics
    /// file: the topics joined by `\n`, and a final `\n`.
    pub fn overwrite(&mut self, topics: Vec<String>) -> (res: String)
        ensures
            final(self).held() == Some(topics.deep_view()),
            res@ == entries_text(topics.deep_view()),
    {
        let text = entries_file_text(&topics);
        self.0 = Some(topics);
        text
    }

    /// The line to append to the topics file for a subscription to `topic`,
    /// before `update` records it: the topic and `\n`.
    pub fn appended_line(topic: &String) -> (res: String)
        ensures
            res@ == line_text(topic@),
    {
        line_for(topic)
    }

    /// Records a subscription to `topic` once its line (`appended_line`)
    /// has been appended to the topics file: the topics are fetched (`disk` holds the file's
    /// bytes after the append) and `topic` followed by `\n` is added to
    /// them, or makes up the topics alone where none could be fetched.
    pub fn update(&mut self, topic: &String, disk: Option<Vec<u8>>)
        ensures
            final(self).held() == (match fetched(old(self).held(), bytes_of(disk)) {
                Some(ts) => Some(ts.push(line_text(topic@))),
                None => Some(seq![line_text(topic@)]),
            }),
    {
        let line = line_for(topic);
        match self.fetch(disk) {
            Some(mut topics) => {
                topics.push(line);
                proof {
                    assert(topics.deep_view() =~= fetched(old(self).held(), bytes_of(disk)).unwrap().push(
                        line_text(topic@),
                    ));
                }
                self.0 = Some(topics);
            },
            None => {
                let v = vec![line];
                assert(v.deep_view() =~= seq![line_text(topic@)]);
                self.0 = Some(v);
            },
        }
    }

    /// Unsubscribes from `topic`: the topics are fetched (`disk` holds the
    /// file's bytes), every one equal to `topic` in lower case is dropped,
    /// and the rest are held and given as the text to write over the file.
    /// Where no topics could be fetched nothing changes and nothing is to be
    /// written.
    pub fn delete(&mut self, topic: &String, disk: Option<Vec<u8>>) -> (res: Option<String>)
        ensures
            match fetched(old(self).held(), bytes_of(disk)) {
                Some(ts) => {
                    &&& final(self).held() == Some(without(ts, lowercase_of(topic@)))
                    &&& res matches Some(text) && text@ == entries_text(
                        without(ts, lowercase_of(topic@)),
                    )
                },
                None => final(self).held() is None && res is None,
            },
    {
        match self.fetch(disk) {
            Some(elems) => {
                let lower = lowercase(topic.as_str());
                let kept = retain_other(&elems, &lower);
                Some(self.overwrite(kept))
            },
            None => None,
        }
    }
}

/// The entries of `ts` that differ from `t`, in their order.
fn retain_other(ts: &Vec<String>, t: &String) -> (res: Vec<String>)
    ensures
        res.deep_view() == without(ts.deep_view(), t@),
{
    let n = ts.len();
    let ghost all = ts.deep_view();
    let ghost keep = differs_from(t@);
    let mut res: Vec<String> = Vec::new();
    assert(all.take(0).filter(keep) =~= Seq::<Seq<char>>::empty()) by {
        reveal_with_fuel(Seq::<Seq<char>>::filter, 1);
    }
    for i in 0..n
        invariant
            n == ts@.len(),
            all == ts.deep_view(),
            keep == differs_from(t@),
            res.deep_view() == all.take(i as int).filter(keep),
    {
        let ghost before = res.deep_view();
        assert(all.take(i + 1).drop_last() == all.take(i as int));
        assert(all.take(i + 1).last() == ts@[i as int]@);
        reveal_with_fuel(Seq::<Seq<char>>::filter, 1);
        if !same_text(&ts[i], t) {
            res.push(ts[i].clone());
            assert(res.deep_view() =~= before.push(ts@[i as int]@));
        } else {
            assert(res.deep_view() =~= before);
        }
    }
    assert(all.take(n as int) == all);
    res
}

// ---------------------------------------------------------------------------
// The titles already sent
// ---------------------------------------------------------------------------

/// The titles of the stories already announced; they live in their file
/// only.
pub struct SentStories;

impl SentStories {
    /// A store of sent titles (what it is given is not kept).
    pub fn new(_titles: Option<Vec<String>>) -> (res: SentStories) {
        SentStories
    }

    /// The path of the file of sent titles.
    pub fn get_store() -> (res: Result<String, BasePathError>)
        ensures
            res matches Ok(path) ==> exists|home: Seq<char>|
                path@ == file_path(store_dir(home), "sent_stories"@),
    {
        store_file("sent_stories")
    }

    /// The sent titles: the lines of their file (`disk` holds its bytes,
    /// `None` where it could not be opened).
    pub fn fetch(&mut self, disk: Option<Vec<u8>>) -> (res: Option<Vec<String>>)
        ensures
            *final(self) == *old(self),
            match disk {
                Some(b) => res matches Some(v) && v.deep_view() == read_lines(b@),
                None => res is None,
            },
    {
        match disk {
            Some(bytes) => Some(lines_of(bytes.as_slice())),
            None => None,
        }
    }

    /// The line to append to the file of sent titles for `title`.
    pub fn update(&mut self, title: &String) -> (res: String)
        ensures
            *final(self) == *old(self),
            res@ == line_text(title@),
    {
        line_for(title)
    }
}

// ---------------------------------------------------------------------------
// What the stores give back of what they wrote
// ---------------------------------------------------------------------------

proof fn lemma_trim_digits(s: Seq<char>)
    requires
        s.len() > 0,
        forall|i: int| 0 <= i < s.len() ==> crate::text::is_digit(#[trigger] s[i]),
    ensures
        trim(s) == s,
{
    assert(!is_whitespace(s[0]));
    assert(trim_start(s) == s);
    assert(!is_whitespace(s.last()));
}

/// Unsubscribing keeps every other topic and only those: an entry is kept
/// exactly when it was there and differs from the topic dropped (entries
/// that merely start or end like it are kept).
pub proof fn law_without_keeps_others(ts: Seq<Seq<char>>, t: Seq<char>, e: Seq<char>)
    ensures
        without(ts, t).contains(e) <==> (ts.contains(e) && e != t),
{
    let keep = differs_from(t);
    if without(ts, t).contains(e) {
        ts.lemma_filter_contains_rev(keep, e);
        let k = choose|k: int| 0 <= k < without(ts, t).len() && without(ts, t)[k] == e;
        ts.lemma_filter_pred(keep, k);
    }
    if ts.contains(e) && e != t {
        let k = choose|k: int| 0 <= k < ts.len() && ts[k] == e;
        ts.lemma_filter_contains(keep, k);
    }
}

/// Unsubscribing drops no more entries than those equal to the topic:
/// the kept list is as long as the list less the entries equal to it.
pub proof fn law_without_length(ts: Seq<Seq<char>>, t: Seq<char>)
    ensures
        without(ts, t).len() + ts.filter(|e: Seq<char>| e == t).len() == ts.len(),
    decreases ts.len(),
{
    reveal_with_fuel(Seq::<Seq<char>>::filter, 1);
    if ts.len() > 0 {
        law_without_length(ts.drop_last(), t);
    }
}

/// The store directory for a home directory that the lookup found is that
/// home's path followed by `/.config/subscribe_hn`; the two failures of the
/// lookup give their own errors.
pub proof fn law_base_path_from_home(home: Seq<char>)
    ensures
        base_path_outcome(Some(Some(home))) == Ok::<Seq<char>, BasePathError>(
            home + "/.config/subscribe_hn"@,
        ),
        base_path_outcome(Some(None)) == Err::<Seq<char>, BasePathError>(
            BasePathError::HomeNotUnicode,
        ),
        base_path_outcome(None) == Err::<Seq<char>, BasePathError>(BasePathError::NoHomeDirectory),
{
}

/// The topics file and the file of sent titles always end at a line end
/// after a store writes them: `Topics::overwrite` writes a whole file that
/// does, and the line appended for a subscription or a sent title ends
/// with `\n`. So the condition under which appended lines read back holds
/// from one write to the next.
pub proof fn law_store_files_end_at_line_end(entries: Seq<Seq<char>>, file: Seq<u8>, entry: Seq<char>)
    ensures
        ends_at_line_end(encode_utf8(entries_text(entries))),
        ends_at_line_end(file + encode_utf8(line_text(entry))),
{
    lemma_writes_end_at_line_end(entries, file, entry);
}

/// Once `ProcessedId::update` has recorded an id, fetching gives that id,
/// whatever the id file holds.
pub proof fn law_updated_id_fetched(id: u32, disk: Option<Seq<char>>)
    ensures
        fetched_id(Some(id), disk) == Some(id),
{
}

/// Once `Topics::overwrite` or `Topics::fetch` holds topics, fetching gives
/// those topics, whatever the topics file holds.
pub proof fn law_held_topics_fetched(topics: Seq<Seq<char>>, disk: Option<Seq<u8>>)
    ensures
        fetched(Some(topics), disk) == Some(topics),
{
}

/// The id file that `ProcessedId::update` writes for `id` reads back, in a
/// fresh store, as `id` itself; a zero reads back as no id.
pub proof fn law_processed_id_read_back(id: u32)
    ensures
        stored_id(decimal(id as nat), u32::MAX as nat) == (if id > 0 {
            Some(id as nat)
        } else {
            None
        }),
{
    lemma_decimal_digits(id as nat);
    lemma_trim_digits(decimal(id as nat));
    lemma_parse_decimal(id as nat, u32::MAX as nat);
}

/// A topic subscribed to by appending its line to a topics file whose
/// bytes end at a line end is listed, after the topics already there, by a
/// store that reads the file afresh.
pub proof fn law_subscribed_topic_listed(file: Seq<u8>, topic: Seq<char>)
    requires
        ends_at_line_end(file),
        is_line_safe(topic),
    ensures
        fetched(None, Some(file + encode_utf8(line_text(topic)))) == Some(
            read_lines(file).push(topic),
        ),
{
    lemma_read_appended_line(file, topic);
}

/// The topics file that `Topics::overwrite` writes for a non-empty list of
/// safe topics reads back, in a fresh store, as the same list.
pub proof fn law_overwritten_topics_read_back(topics: Seq<Seq<char>>)
    requires
        topics.len() > 0,
        forall|i: int| 0 <= i < topics.len() ==> is_line_safe(#[trigger] topics[i]),
    ensures
        fetched(None, Some(encode_utf8(entries_text(topics)))) == Some(topics),
{
    lemma_read_written_entries(topics);
}

/// After unsubscribing from a topic, the topics file that
/// `Topics::delete` writes no longer lists that topic in lower case, for
/// a store that reads it afresh. It fails only where the topic in lower
/// case is empty and no other topic remains: the file then holds one
/// empty line.
pub proof fn law_unsubscribed_topic_not_listed(topics: Seq<Seq<char>>, topic: Seq<char>)
    requires
        lowercase_of(topic).len() > 0 || without(topics, lowercase_of(topic)).len() > 0,
        forall|i: int| 0 <= i < topics.len() ==> is_line_safe(#[trigger] topics[i]),
    ensures
        fetched(None, Some(encode_utf8(entries_text(without(topics, lowercase_of(topic))))))
            matches Some(listed) && !listed.contains(lowercase_of(topic)),
{
    let lower = lowercase_of(topic);
    let keep = differs_from(lower);
    let kept = without(topics, lower);
    assert forall|i: int| 0 <= i < kept.len() implies is_line_safe(#[trigger] kept[i]) by {
        topics.lemma_filter_pred(keep, i);
        assert(kept.contains(kept[i]));
        topics.lemma_filter_contains_rev(keep, kept[i]);
    }
    if kept.len() > 0 {
        lemma_read_written_entries(kept);
        if kept.contains(lower) {
            let k = choose|k: int| 0 <= k < kept.len() && kept[k] == lower;
            topics.lemma_filter_pred(keep, k);
        }
    } else {
        let empty = Seq::<Seq<char>>::empty();
        assert(kept == empty);
        assert(entries_text(kept) == seq!['\n']);
        lemma_read_written_entries(seq![Seq::<char>::empty()]);
        assert(seq![Seq::<char>::empty()].len() == 1);
        assert(entries_text(seq![Seq::<char>::empty()]) == seq!['\n']);
        let listed = read_lines(encode_utf8(entries_text(kept)));
        assert(listed == seq![Seq::<char>::empty()]);
        if listed.contains(lower) {
            let k = choose|k: int| 0 <= k < listed.len() && listed[k] == lower;
            assert(listed[k].len() == 0);
        }
    }
}

} // verus!
