//! Which new stories are looked at in a round, which of them match the
//! subscribed topics, and which get announced.

use vstd::prelude::*;
use vstd::utf8::*;

use crate::api::News;
use crate::store::fetched;
use crate::text::{
    chars_of, ends_at_line_end, has_piece, has_word, is_line_safe, lemma_encode_concat,
    lemma_read_appended_line, lemma_writes_end_at_line_end, line_text, lowercase, lowercase_of,
    push_all, push_char, read_lines, same_text, split_pieces, terminated_lines, words, Separators,
};

verus! {

// ---------------------------------------------------------------------------
// The stories of a round
// ---------------------------------------------------------------------------

/// How many ids come before the first occurrence of `id` (all of them, if
/// it does not occur).
pub open spec fn count_before(ids: Seq<u32>, id: u32) -> nat
    decreases ids.len(),
{
    if ids.len() == 0 {
        0
    } else if ids[0] == id {
        0
    } else {
        1 + count_before(ids.drop_first(), id)
    }
}

/// The stories to look at in a round: where the last processed id is
/// known, the new ids that come before it (all of them, if it is not among
/// them); where it is not known, none.
pub open spec fn unseen(ids: Seq<u32>, last: Option<u32>) -> Seq<u32> {
    match last {
        Some(id) => ids.take(count_before(ids, id) as int),
        None => seq![],
    }
}

proof fn lemma_count_before(ids: Seq<u32>, id: u32)
    ensures
        count_before(ids, id) <= ids.len(),
        count_before(ids, id) < ids.len() ==> ids[count_before(ids, id) as int] == id,
        forall|i: int| 0 <= i < count_before(ids, id) ==> ids[i] != id,
    decreases ids.len(),
{
    if ids.len() > 0 && ids[0] != id {
        lemma_count_before(ids.drop_first(), id);
        assert forall|i: int| 0 <= i < count_before(ids, id) implies ids[i] != id by {
            if i > 0 {
                assert(ids[i] == ids.drop_first()[i - 1]);
            }
        }
    }
}

/// The ids of the stories to look at in a round, newest first, as
/// `unseen` describes them.
pub fn stories_to_check(new_stories: &Vec<u32>, last: Option<u32>) -> (res: Vec<u32>)
    ensures
        res@ == unseen(new_stories@, last),
{
    let mut res: Vec<u32> = Vec::new();
    match last {
        None => res,
        Some(id) => {
            let n = new_stories.len();
            let mut i: usize = 0;
            assert(new_stories@.skip(0) == new_stories@);
            while i < n && new_stories[i] != id
                invariant
                    i <= n,
                    n == new_stories@.len(),
                    res@ == new_stories@.take(i as int),
                    count_before(new_stories@, id) == i + count_before(new_stories@.skip(i as int), id),
                decreases n - i,
            {
                assert(new_stories@.skip(i as int).drop_first() == new_stories@.skip(i + 1));
                res.push(new_stories[i]);
                assert(new_stories@.take(i + 1) == new_stories@.take(i as int).push(new_stories@[i as int]));
                i = i + 1;
            }
            assert(count_before(new_stories@.skip(i as int), id) == 0);
            res
        },
    }
}

/// A round right after another one over the same list of new stories
/// looks at none of them.
pub proof fn law_same_list_nothing_unseen(ids: Seq<u32>)
    requires
        ids.len() > 0,
    ensures
        unseen(ids, Some(ids[0])) == Seq::<u32>::empty(),
{
}

proof fn lemma_count_before_prefix(fresh: Seq<u32>, old: Seq<u32>, id: u32)
    requires
        old.len() > 0,
        old[0] == id,
        !fresh.contains(id),
    ensures
        count_before(fresh + old, id) == fresh.len(),
    decreases fresh.len(),
{
    let all = fresh + old;
    if fresh.len() == 0 {
        assert(all == old);
    } else {
        assert(all[0] == fresh[0]);
        assert(all.drop_first() == fresh.drop_first() + old);
        assert(!fresh.drop_first().contains(id)) by {
            if fresh.drop_first().contains(id) {
                let k = choose|k: int| 0 <= k < fresh.drop_first().len() && fresh.drop_first()[k] == id;
                assert(fresh[k + 1] == id);
            }
        }
        lemma_count_before_prefix(fresh.drop_first(), old, id);
    }
}

/// Stories that arrived in front of the list seen last time are exactly
/// the ones looked at, where the newest id of last time is not among them.
pub proof fn law_new_stories_unseen(fresh: Seq<u32>, old: Seq<u32>)
    requires
        old.len() > 0,
        !fresh.contains(old[0]),
    ensures
        unseen(fresh + old, Some(old[0])) == fresh,
{
    lemma_count_before_prefix(fresh, old, old[0]);
    assert((fresh + old).take(fresh.len() as int) == fresh);
}

/// The stories looked at come, in order, before the last processed one,
/// which is never among them.
pub proof fn law_unseen_before_last(ids: Seq<u32>, last: u32)
    ensures
        unseen(ids, Some(last)).len() <= ids.len(),
        unseen(ids, Some(last)) == ids.take(unseen(ids, Some(last)).len() as int),
        !unseen(ids, Some(last)).contains(last),
{
    lemma_count_before(ids, last);
    let u = unseen(ids, Some(last));
    if u.contains(last) {
        let k = choose|k: int| 0 <= k < u.len() && u[k] == last;
        assert(ids[k] == last);
    }
}

// ---------------------------------------------------------------------------
// Matching stories to topics
// ---------------------------------------------------------------------------

/// Whether a story is about `topic`: `topic` is one of the pieces of its
/// title in lower case cut at spaces, slashes and hyphens, or one of the
/// words of its text in lower case cut at ASCII whitespace.
pub open spec fn mentions(title: Seq<char>, text: Option<Seq<char>>, topic: Seq<char>) -> bool {
    ||| split_pieces(lowercase_of(title), Separators::TitlePunctuation).contains(topic)
    ||| match text {
        Some(t) => words(lowercase_of(t), Separators::AsciiWhitespace).contains(topic),
        None => false,
    }
}

/// The text of a story, where it has one.
pub open spec fn text_of(story: News) -> Option<Seq<char>> {
    match story.text {
        Some(t) => Some(t@),
        None => None,
    }
}

/// Whether a story is about one of the topics.
pub open spec fn matches_any(title: Seq<char>, text: Option<Seq<char>>, topics: Seq<Seq<char>>) -> bool {
    exists|i: int| 0 <= i < topics.len() && mentions(title, text, #[trigger] topics[i])
}

/// Whether the story is about `topic`.
pub fn story_mentions(story: &News, topic: &String) -> (res: bool)
    ensures
        res == mentions(story.title@, text_of(*story), topic@),
{
    let word = chars_of(topic.as_str());
    let title = chars_of(lowercase(story.title.as_str()).as_str());
    if has_piece(title.as_slice(), word.as_slice(), Separators::TitlePunctuation) {
        return true;
    }
    match &story.text {
        Some(text) => {
            let body = chars_of(lowercase(text.as_str()).as_str());
            has_word(body.as_slice(), word.as_slice(), Separators::AsciiWhitespace)
        },
        None => false,
    }
}

/// Whether the story is about one of the topics.
pub fn story_matches(story: &News, topics: &Vec<String>) -> (res: bool)
    ensures
        res == matches_any(story.title@, text_of(*story), topics.deep_view()),
{
    let n = topics.len();
    let ghost all = topics.deep_view();
    for i in 0..n
        invariant
            n == topics@.len(),
            all == topics.deep_view(),
            forall|j: int| 0 <= j < i ==> !mentions(story.title@, text_of(*story), #[trigger] all[j]),
    {
        if story_mentions(story, &topics[i]) {
            assert(mentions(story.title@, text_of(*story), all[i as int]));
            return true;
        }
    }
    false
}

// ---------------------------------------------------------------------------
// Announcing stories
// ---------------------------------------------------------------------------

/// The message that announces a story: its title, `\n`, its URL.
pub open spec fn message_text(title: Seq<char>, url: Seq<char>) -> Seq<char> {
    title.push('\n') + url
}

/// The announcement of a story that matched, given the titles already
/// sent (none, where they could not be read): a story with a URL whose
/// title has not been sent yet is announced with `message_text`; any other
/// is not announced.
pub open spec fn announcement_of(title: Seq<char>, url: Option<Seq<char>>, sent: Option<Seq<Seq<char>>>) -> Option<Seq<char>> {
    let sent_titles = match sent {
        Some(s) => s,
        None => seq![],
    };
    match url {
        Some(u) => if sent_titles.contains(title) {
            None
        } else {
            Some(message_text(title, u))
        },
        None => None,
    }
}

/// The URL of a story, where it has one.
pub open spec fn url_of(story: News) -> Option<Seq<char>> {
    match story.url {
        Some(u) => Some(u@),
        None => None,
    }
}

/// Whether `t` is one of `ts`.
fn contains_text(ts: &Vec<String>, t: &String) -> (res: bool)
    ensures
        res == ts.deep_view().contains(t@),
{
    let n = ts.len();
    let ghost all = ts.deep_view();
    for i in 0..n
        invariant
            n == ts@.len(),
            all == ts.deep_view(),
            forall|j: int| 0 <= j < i ==> all[j] != t@,
    {
        if same_text(&ts[i], t) {
            assert(all[i as int] == t@);
            return true;
        }
    }
    false
}

/// The message announcing a story that matched, as `announcement_of`
/// describes it; `sent` holds the titles already sent.
pub fn announcement(story: &News, sent: Option<Vec<String>>) -> (res: Option<String>)
    ensures
        match announcement_of(story.title@, url_of(*story), sent.deep_view()) {
            Some(m) => res matches Some(r) && r@ == m,
            None => res is None,
        },
{
    let sent_titles = match sent {
        Some(s) => s,
        None => Vec::new(),
    };
    proof {
        assert(sent_titles.deep_view() == (match sent.deep_view() {
            Some(s) => s,
            None => seq![],
        })) by {
            if sent is None {
                assert(sent_titles.deep_view() =~= Seq::<Seq<char>>::empty());
            }
        }
    }
    match &story.url {
        Some(url) => {
            if contains_text(&sent_titles, &story.title) {
                None
            } else {
                let mut message = story.title.clone();
                push_char(&mut message, '\n');
                push_all(&mut message, chars_of(url.as_str()).as_slice());
                Some(message)
            }
        },
        None => None,
    }
}

/// A story is not announced a second time: once its title has been
/// appended to the file of sent titles (whose bytes ended at a line end),
/// reading that file afresh leaves nothing to announce for it.
pub proof fn law_sent_title_not_announced_again(
    file: Seq<u8>,
    title: Seq<char>,
    url: Option<Seq<char>>,
)
    requires
        ends_at_line_end(file),
        is_line_safe(title),
    ensures
        announcement_of(title, url, fetched(None, Some(file + encode_utf8(line_text(title))))) is None,
{
    lemma_read_appended_line(file, title);
    let sent = read_lines(file).push(title);
    assert(sent[sent.len() - 1] == title);
}

/// Announcing is idempotent on the titles: a title once in the sent list
/// is never announced, whatever else the list holds.
pub proof fn law_sent_title_never_announced(title: Seq<char>, url: Option<Seq<char>>, sent: Seq<Seq<char>>)
    requires
        sent.contains(title),
    ensures
        announcement_of(title, url, Some(sent)) is None,
{
}

/// A story with a URL whose title is not among the sent titles (exactly
/// that title; other titles that start or end like it do not count) is
/// announced with its title, a line break and its URL; where no sent
/// titles could be read, every story with a URL is.
pub proof fn law_unsent_title_announced(title: Seq<char>, url: Seq<char>, sent: Seq<Seq<char>>)
    ensures
        !sent.contains(title) ==> announcement_of(title, Some(url), Some(sent)) == Some(
            title + seq!['\n'] + url,
        ),
        announcement_of(title, Some(url), None) == Some(title + seq!['\n'] + url),
{
    assert(title.push('\n') == title + seq!['\n']);
    assert(!Seq::<Seq<char>>::empty().contains(title));
}

/// A story without a URL is never announced.
pub proof fn law_no_url_not_announced(title: Seq<char>, sent: Option<Seq<Seq<char>>>)
    ensures
        announcement_of(title, None, sent) is None,
{
}

/// A story is about a topic that is one of the pieces of its title in
/// lower case, cut at spaces, slashes and hyphens, whatever its text is.
pub proof fn law_title_piece_mentioned(title: Seq<char>, text: Option<Seq<char>>, topic: Seq<char>)
    requires
        split_pieces(lowercase_of(title), Separators::TitlePunctuation).contains(topic),
    ensures
        mentions(title, text, topic),
{
}

/// A story is about a topic that is one of the words of its text in lower
/// case, cut at ASCII whitespace, whatever its title is.
pub proof fn law_text_word_mentioned(title: Seq<char>, text: Seq<char>, topic: Seq<char>)
    requires
        words(lowercase_of(text), Separators::AsciiWhitespace).contains(topic),
    ensures
        mentions(title, Some(text), topic),
{
}

/// A story is about a topic only through its title or its text: one of
/// the two, in lower case and cut as above, holds the topic.
pub proof fn law_mentioned_in_title_or_text(title: Seq<char>, text: Option<Seq<char>>, topic: Seq<char>)
    requires
        mentions(title, text, topic),
    ensures
        split_pieces(lowercase_of(title), Separators::TitlePunctuation).contains(topic) || (text
            matches Some(t) && words(lowercase_of(t), Separators::AsciiWhitespace).contains(topic)),
{
}


// ---------------------------------------------------------------------------
// A round
// ---------------------------------------------------------------------------

/// The message that handling one story in a round sends: where topics
/// could be read and the story is about one of them, its announcement
/// given the titles already sent; otherwise none.
pub open spec fn step_message(
    story: News,
    topics: Option<Seq<Seq<char>>>,
    sent: Option<Seq<Seq<char>>>,
) -> Option<Seq<char>> {
    match topics {
        Some(ts) => if matches_any(story.title@, text_of(story), ts) {
            announcement_of(story.title@, url_of(story), sent)
        } else {
            None
        },
        None => None,
    }
}

/// The message that handling `story` sends, as `step_message` describes
/// it; `topics` are the subscribed topics and `sent` the titles already
/// sent (the caller may leave `sent` unread where no topic matches).
pub fn story_step(story: &News, topics: &Option<Vec<String>>, sent: Option<Vec<String>>) -> (res:
    Option<String>)
    ensures
        match step_message(*story, topics.deep_view(), sent.deep_view()) {
            Some(m) => res matches Some(r) && r@ == m,
            None => res is None,
        },
{
    match topics {
        Some(ts) => if story_matches(story, ts) {
            announcement(story, sent)
        } else {
            None
        },
        None => None,
    }
}

/// The bytes of the file of sent titles after a round has handled
/// `stories` in this order, each reading the file as it then stands and,
/// where it sends a message, appending the story's title line. `file` holds
/// the bytes before the round (none where there was no file).
pub open spec fn sent_file_after(stories: Seq<News>, topics: Option<Seq<Seq<char>>>, file: Seq<u8>) -> Seq<
    u8,
>
    decreases stories.len(),
{
    if stories.len() == 0 {
        file
    } else {
        let before = sent_file_after(stories.drop_last(), topics, file);
        let story = stories.last();
        if step_message(story, topics, Some(read_lines(before))) is Some {
            before + encode_utf8(line_text(story.title@))
        } else {
            before
        }
    }
}

/// The titles of the messages that a round handling `stories` in this
/// order sends, in sending order.
pub open spec fn titles_sent(stories: Seq<News>, topics: Option<Seq<Seq<char>>>, file: Seq<u8>) -> Seq<
    Seq<char>,
>
    decreases stories.len(),
{
    if stories.len() == 0 {
        seq![]
    } else {
        let before = sent_file_after(stories.drop_last(), topics, file);
        let prev = titles_sent(stories.drop_last(), topics, file);
        let story = stories.last();
        if step_message(story, topics, Some(read_lines(before))) is Some {
            prev.push(story.title@)
        } else {
            prev
        }
    }
}

/// Over a whole round, whatever order its stories are handled in: no
/// message is sent for a title that the file of sent titles listed before
/// the round, no title is sent twice, and the file afterwards is the file
/// before followed by one line for each title sent, in sending order, so
/// that every title ever sent stays listed.
pub proof fn law_round_sends_each_title_once(
    stories: Seq<News>,
    topics: Option<Seq<Seq<char>>>,
    file: Seq<u8>,
)
    requires
        ends_at_line_end(file),
        forall|i: int| 0 <= i < stories.len() ==> is_line_safe(#[trigger] stories[i].title@),
    ensures
        sent_file_after(stories, topics, file) == file + encode_utf8(
            terminated_lines(titles_sent(stories, topics, file)),
        ),
        read_lines(sent_file_after(stories, topics, file)) == read_lines(file) + titles_sent(
            stories,
            topics,
            file,
        ),
        ends_at_line_end(sent_file_after(stories, topics, file)),
        titles_sent(stories, topics, file).no_duplicates(),
        forall|i: int|
            0 <= i < titles_sent(stories, topics, file).len() ==> !read_lines(file).contains(
                #[trigger] titles_sent(stories, topics, file)[i],
            ),
    decreases stories.len(),
{
    let sent = titles_sent(stories, topics, file);
    let after = sent_file_after(stories, topics, file);
    let listed = read_lines(file);
    if stories.len() == 0 {
        assert(terminated_lines(sent) == Seq::<char>::empty());
        assert(encode_utf8(Seq::<char>::empty()) == Seq::<u8>::empty());
        assert(file + Seq::<u8>::empty() == file);
        assert(listed + Seq::<Seq<char>>::empty() == listed);
    } else {
        let init = stories.drop_last();
        assert forall|i: int| 0 <= i < init.len() implies is_line_safe(#[trigger] init[i].title@) by {
            assert(init[i] == stories[i]);
        }
        law_round_sends_each_title_once(init, topics, file);
        let before = sent_file_after(init, topics, file);
        let prev = titles_sent(init, topics, file);
        let story = stories.last();
        let title = story.title@;
        if step_message(story, topics, Some(read_lines(before))) is Some {
            assert(is_line_safe(stories[stories.len() - 1].title@));
            assert(!read_lines(before).contains(title));
            assert(!prev.contains(title)) by {
                if prev.contains(title) {
                    let k = choose|k: int| 0 <= k < prev.len() && prev[k] == title;
                    assert((listed + prev)[listed.len() + k] == title);
                }
            }
            assert(!listed.contains(title)) by {
                if listed.contains(title) {
                    let k = choose|k: int| 0 <= k < listed.len() && listed[k] == title;
                    assert((listed + prev)[k] == title);
                }
            }
            lemma_read_appended_line(before, title);
            lemma_writes_end_at_line_end(Seq::<Seq<char>>::empty(), before, title);
            assert(sent == prev.push(title));
            assert(sent.drop_last() == prev);
            assert(terminated_lines(sent) == terminated_lines(prev) + line_text(title));
            lemma_encode_concat(terminated_lines(prev), line_text(title));
            assert(after == file + encode_utf8(terminated_lines(sent)));
            assert(read_lines(after) == listed + sent);
            assert forall|i: int, j: int| 0 <= i < sent.len() && 0 <= j < sent.len() && i != j implies
                sent[i] != sent[j] by {
                if i < prev.len() && j < prev.len() {
                    assert(sent[i] == prev[i] && sent[j] == prev[j]);
                } else if i < prev.len() {
                    assert(sent[i] == prev[i]);
                } else if j < prev.len() {
                    assert(sent[j] == prev[j]);
                }
            }
            assert forall|i: int| 0 <= i < sent.len() implies !listed.contains(#[trigger] sent[i]) by {
                if i < prev.len() {
                    assert(sent[i] == prev[i]);
                }
            }
        }
    }
}

} // verus!
