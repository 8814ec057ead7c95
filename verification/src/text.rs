//! Text helpers: case folding, splitting into words, decimal numbers,
//! trimming, and the line-per-entry file format of the stores.

use vstd::prelude::*;
use vstd::utf8::*;

verus! {

// ---------------------------------------------------------------------------
// Trusted calls into std
// ---------------------------------------------------------------------------

/// What `str::to_lowercase` returns for a string: the Unicode lowercase
/// mapping of every character. It is a function of the characters alone.
pub uninterp spec fn lowercase_of(s: Seq<char>) -> Seq<char>;

/// Calls `str::to_lowercase`. Claimed: the result is `lowercase_of` of the
/// argument's characters; the Unicode case tables themselves are not stated.
#[verifier::external_body]
pub(crate) fn lowercase(s: &str) -> (res: String)
    ensures
        res@ == lowercase_of(s@),
{
    s.to_lowercase()
}

/// Calls `String::push`. Claimed: the character is appended at the end.
#[verifier::external_body]
pub(crate) fn push_char(s: &mut String, c: char)
    ensures
        final(s)@ == old(s)@.push(c),
{
    s.push(c)
}

/// Calls `String::from_utf8`. Claimed, as std documents it: the result is
/// present exactly when the bytes are valid UTF-8, and it then holds the
/// characters those bytes encode.
#[verifier::external_body]
pub(crate) fn string_from_utf8(bytes: Vec<u8>) -> (res: Option<String>)
    ensures
        res is Some <==> valid_utf8(bytes@),
        res matches Some(s) ==> s@ == decode_utf8(bytes@),
{
    String::from_utf8(bytes).ok()
}

// ---------------------------------------------------------------------------
// Strings and character vectors
// ---------------------------------------------------------------------------

/// The characters of `s`, in order.
pub fn chars_of(s: &str) -> (res: Vec<char>)
    ensures
        res@ == s@,
{
    let mut res: Vec<char> = Vec::new();
    for c in it: s.chars()
        invariant
            res@ == it.seq().take(it.index() as int),
            it.seq() == s@,
    {
        res.push(c);
    }
    res
}

/// Appends every character of `cs` to `s`.
pub fn push_all(s: &mut String, cs: &[char])
    ensures
        final(s)@ == old(s)@ + cs@,
{
    let n = cs.len();
    for i in 0..n
        invariant
            n == cs@.len(),
            s@ == old(s)@ + cs@.take(i as int),
    {
        push_char(s, cs[i]);
        assert(cs@.take(i + 1) == cs@.take(i as int).push(cs@[i as int]));
    }
    assert(cs@.take(n as int) == cs@);
}

/// The string made of the characters of `cs`.
pub fn string_of(cs: &[char]) -> (res: String)
    ensures
        res@ == cs@,
{
    let mut res = String::new();
    push_all(&mut res, cs);
    res
}

/// `s` followed by `t`.
pub fn concat(s: &str, t: &str) -> (res: String)
    ensures
        res@ == s@ + t@,
{
    let mut res = String::new();
    push_all(&mut res, chars_of(s).as_slice());
    push_all(&mut res, chars_of(t).as_slice());
    res
}

/// Whether two character sequences are equal.
pub fn same_chars(a: &[char], b: &[char]) -> (res: bool)
    ensures
        res == (a@ == b@),
{
    if a.len() != b.len() {
        return false;
    }
    let n = a.len();
    for i in 0..n
        invariant
            n == a@.len(),
            n == b@.len(),
            forall|j: int| 0 <= j < i ==> a@[j] == b@[j],
    {
        if a[i] != b[i] {
            return false;
        }
    }
    assert(a@ =~= b@);
    true
}

/// Whether two strings hold the same characters.
pub fn same_text(a: &String, b: &String) -> (res: bool)
    ensures
        res == (a@ == b@),
{
    same_chars(chars_of(a.as_str()).as_slice(), chars_of(b.as_str()).as_slice())
}


// ---------------------------------------------------------------------------
// Splitting into words
// ---------------------------------------------------------------------------

/// Which characters separate the words of a text.
#[derive(Clone, Copy, PartialEq, Eq, Debug)]
pub enum Separators {
    /// A space, a slash or a hyphen: how story titles are cut into words.
    TitlePunctuation,
    /// ASCII whitespace (space, tab, line feed, form feed, carriage return):
    /// how story texts are cut into words.
    AsciiWhitespace,
}

/// Whether `c` separates words under `seps`.
pub open spec fn is_separator(seps: Separators, c: char) -> bool {
    match seps {
        Separators::TitlePunctuation => c == ' ' || c == '/' || c == '-',
        Separators::AsciiWhitespace => c == ' ' || c == '\t' || c == '\n' || c == '\x0C' || c == '\r',
    }
}

/// The pieces of `s` between separators, as `str::split` yields them: one
/// more piece than there are separators, empty pieces included.
pub open spec fn split_pieces(s: Seq<char>, seps: Separators) -> Seq<Seq<char>>
    decreases s.len(),
{
    if s.len() == 0 {
        seq![seq![]]
    } else {
        let pieces = split_pieces(s.drop_last(), seps);
        if is_separator(seps, s.last()) {
            pieces.push(seq![])
        } else {
            pieces.update(pieces.len() - 1, pieces.last().push(s.last()))
        }
    }
}

/// The non-empty pieces of `s`, as `str::split_ascii_whitespace` yields them
/// when `seps` is ASCII whitespace.
pub open spec fn words(s: Seq<char>, seps: Separators) -> Seq<Seq<char>> {
    split_pieces(s, seps).filter(|w: Seq<char>| w.len() > 0)
}

/// Whether `c` separates words under `seps`.
pub fn separates(seps: Separators, c: char) -> (res: bool)
    ensures
        res == is_separator(seps, c),
{
    match seps {
        Separators::TitlePunctuation => c == ' ' || c == '/' || c == '-',
        Separators::AsciiWhitespace => c == ' ' || c == '\t' || c == '\n' || c == '\x0C' || c == '\r',
    }
}

/// Whether `word` is one of the pieces of `s` between separators.
pub fn has_piece(s: &[char], word: &[char], seps: Separators) -> (res: bool)
    ensures
        res == split_pieces(s@, seps).contains(word@),
{
    let n = s.len();
    let mut found = false;
    let mut cur: Vec<char> = Vec::new();
    let ghost mut done: Seq<Seq<char>> = seq![];
    assert(s@.take(0) =~= Seq::<char>::empty());
    for i in 0..n
        invariant
            n == s@.len(),
            split_pieces(s@.take(i as int), seps) == done.push(cur@),
            found == done.contains(word@),
    {
        let c = s[i];
        let ghost prev = s@.take(i as int);
        assert(s@.take(i + 1).drop_last() == prev);
        assert(s@.take(i + 1).last() == c);
        if separates(seps, c) {
            let same = same_chars(cur.as_slice(), word);
            proof {
                let old_done = done;
                done = done.push(cur@);
                if same {
                    assert(done[old_done.len() as int] == word@);
                }
                if found {
                    let k = choose|k: int| 0 <= k < old_done.len() && old_done[k] == word@;
                    assert(done[k] == word@);
                }
                if done.contains(word@) && !found {
                    let k = choose|k: int| 0 <= k < done.len() && done[k] == word@;
                    if k < old_done.len() {
                        assert(old_done[k] == word@);
                    }
                }
            }
            found = found || same;
            cur = Vec::new();
            assert(split_pieces(s@.take(i + 1), seps) =~= done.push(cur@));
        } else {
            cur.push(c);
            assert(split_pieces(s@.take(i + 1), seps) =~= done.push(cur@));
        }
    }
    assert(s@.take(n as int) == s@);
    let last = same_chars(cur.as_slice(), word);
    proof {
        let all = done.push(cur@);
        if last {
            assert(all[done.len() as int] == word@);
        }
        if found {
            let k = choose|k: int| 0 <= k < done.len() && done[k] == word@;
            assert(all[k] == word@);
        }
        if all.contains(word@) && !found {
            let k = choose|k: int| 0 <= k < all.len() && all[k] == word@;
            if k < done.len() {
                assert(done[k] == word@);
            }
        }
    }
    found || last
}

/// Whether `word` is one of the non-empty pieces of `s` between separators.
pub fn has_word(s: &[char], word: &[char], seps: Separators) -> (res: bool)
    ensures
        res == words(s@, seps).contains(word@),
{
    let pieces = Ghost(split_pieces(s@, seps));
    let nonempty = Ghost(|w: Seq<char>| w.len() > 0);
    proof {
        if pieces@.filter(nonempty@).contains(word@) {
            pieces@.lemma_filter_contains_rev(nonempty@, word@);
            let k = choose|k: int| 0 <= k < pieces@.filter(nonempty@).len() && pieces@.filter(nonempty@)[k] == word@;
            pieces@.lemma_filter_pred(nonempty@, k);
        }
        if word@.len() > 0 && pieces@.contains(word@) {
            let k = choose|k: int| 0 <= k < pieces@.len() && pieces@[k] == word@;
            pieces@.lemma_filter_contains(nonempty@, k);
        }
    }
    word.len() > 0 && has_piece(s, word, seps)
}


// ---------------------------------------------------------------------------
// Decimal numbers
// ---------------------------------------------------------------------------

/// The character of the decimal digit `d`.
pub open spec fn digit_char(d: nat) -> char {
    (('0' as u32) + d) as char
}

/// Whether `c` is an ASCII decimal digit.
pub open spec fn is_digit(c: char) -> bool {
    '0' <= c && c <= '9'
}

/// The decimal writing of `n`, as `to_string` gives it for an unsigned
/// integer: no sign, no leading zeros.
pub open spec fn decimal(n: nat) -> Seq<char>
    decreases n,
{
    if n < 10 {
        seq![digit_char(n)]
    } else {
        decimal(n / 10).push(digit_char(n % 10))
    }
}

/// The number that a sequence of decimal digits denotes.
pub open spec fn digits_value(s: Seq<char>) -> nat
    decreases s.len(),
{
    if s.len() == 0 {
        0
    } else {
        digits_value(s.drop_last()) * 10 + ((s.last() as u32) - ('0' as u32)) as nat
    }
}

/// Whether every character of `s` is an ASCII decimal digit.
pub open spec fn all_digits(s: Seq<char>) -> bool {
    forall|i: int| 0 <= i < s.len() ==> is_digit(#[trigger] s[i])
}

/// `s` without one leading `+`, if it has one.
pub open spec fn unsigned_digits(s: Seq<char>) -> Seq<char> {
    if s.len() > 0 && s[0] == '+' {
        s.drop_first()
    } else {
        s
    }
}

/// What `str::parse` gives for an unsigned integer type whose largest value
/// is `max`: an optional `+`, then at least one ASCII digit and nothing
/// else, denoting a number no larger than `max`.
pub open spec fn parse_unsigned(s: Seq<char>, max: nat) -> Option<nat> {
    let digits = unsigned_digits(s);
    if digits.len() > 0 && all_digits(digits) && digits_value(digits) <= max {
        Some(digits_value(digits))
    } else {
        None
    }
}

/// Adding digits never makes the value smaller.
proof fn lemma_digits_value_prefix(s: Seq<char>, k: int)
    requires
        0 <= k <= s.len(),
        forall|i: int| 0 <= i < s.len() ==> is_digit(#[trigger] s[i]),
    ensures
        digits_value(s.take(k)) <= digits_value(s),
    decreases s.len(),
{
    if k < s.len() {
        assert(s.drop_last().take(k) == s.take(k));
        lemma_digits_value_prefix(s.drop_last(), k);
    } else {
        assert(s.take(k) == s);
    }
}

/// Parses a decimal number no larger than `max`, as `str::parse` does for
/// an unsigned integer type whose largest value is `max`.
pub fn parse_decimal(s: &[char], max: u64) -> (res: Option<u64>)
    ensures
        match parse_unsigned(s@, max as nat) {
            Some(v) => res == Some(v as u64),
            None => res is None,
        },
{
    let n = s.len();
    let start: usize = if n > 0 && s[0] == '+' { 1 } else { 0 };
    let ghost digits = unsigned_digits(s@);
    assert(digits == s@.skip(start as int));
    if start >= n {
        return None;
    }
    let mut value: u64 = 0;
    let mut i = start;
    while i < n
        invariant
            start <= i <= n,
            n == s@.len(),
            digits == s@.skip(start as int),
            digits == unsigned_digits(s@),
            value <= max,
            value == digits_value(digits.take(i - start)),
            forall|j: int| 0 <= j < i - start ==> is_digit(#[trigger] digits[j]),
        decreases n - i,
    {
        let c = s[i];
        assert(digits[i - start] == c);
        if !('0' <= c && c <= '9') {
            assert(!is_digit(digits[i - start]));
            assert(!all_digits(digits));
            return None;
        }
        let d = (c as u32) - ('0' as u32);
        assert(digits.take(i - start + 1).drop_last() == digits.take(i - start));
        assert(digits.take(i - start + 1).last() == c);
        if d as u64 > max || value > (max - d as u64) / 10 {
            proof {
                assert(digits_value(digits.take(i - start + 1)) > max) by (nonlinear_arith)
                    requires
                        digits_value(digits.take(i - start + 1)) == value * 10 + d,
                        d > max || value > (max - d) / 10,
                        value >= 0,
                ;
                if all_digits(digits) {
                    lemma_digits_value_prefix(digits, i - start + 1);
                }
            }
            return None;
        }
        value = value * 10 + d as u64;
        i = i + 1;
    }
    assert(digits.take(n - start) == digits);
    Some(value)
}

/// Appends the decimal writing of `n` to `s`.
pub fn push_decimal(s: &mut String, n: u64)
    ensures
        final(s)@ == old(s)@ + decimal(n as nat),
    decreases n,
{
    if n >= 10 {
        push_decimal(s, n / 10);
    }
    let d = (n % 10) as u8;
    let c = (48u8 + d) as char;
    assert(c == digit_char((n % 10) as nat));
    push_char(s, c);
}

/// The decimal writing of `n`, as `n.to_string()` gives it.
pub fn decimal_string(n: u64) -> (res: String)
    ensures
        res@ == decimal(n as nat),
{
    let mut s = String::new();
    push_decimal(&mut s, n);
    s
}

proof fn lemma_digit_char(d: nat)
    requires
        d < 10,
    ensures
        digit_char(d) as u32 == 48 + d,
        is_digit(digit_char(d)),
{
}

/// Reading back the decimal writing of a number gives the number.
pub proof fn lemma_parse_decimal(n: nat, max: nat)
    requires
        n <= max,
    ensures
        parse_unsigned(decimal(n), max) == Some(n),
{
    lemma_decimal_digits(n);
}

/// The decimal writing of `n` is made of digits, starts with one, and
/// denotes `n`.
pub proof fn lemma_decimal_digits(n: nat)
    ensures
        decimal(n).len() > 0,
        forall|i: int| 0 <= i < decimal(n).len() ==> is_digit(#[trigger] decimal(n)[i]),
        digits_value(decimal(n)) == n,
    decreases n,
{
    lemma_digit_char(n % 10);
    assert(n == (n / 10) * 10 + n % 10);
    if n < 10 {
        let s = decimal(n);
        assert(s == seq![digit_char(n)]);
        assert(s.drop_last() =~= Seq::<char>::empty());
        assert(digits_value(s.drop_last()) == 0);
        assert(s.last() == digit_char(n));
        assert(digits_value(s) == n);
    }
    if n >= 10 {
        lemma_decimal_digits(n / 10);
        let s = decimal(n);
        assert(s.drop_last() == decimal(n / 10));
        assert(s.last() == digit_char(n % 10));
        assert(digits_value(s) == digits_value(decimal(n / 10)) * 10 + n % 10);
        assert forall|i: int| 0 <= i < s.len() implies is_digit(#[trigger] s[i]) by {
            if i < s.len() - 1 {
                assert(s[i] == decimal(n / 10)[i]);
            }
        }
    }
}


// ---------------------------------------------------------------------------
// Trimming
// ---------------------------------------------------------------------------

/// Whether `c` has the Unicode `White_Space` property, which is what
/// `char::is_whitespace` and `str::trim` go by.
pub open spec fn is_whitespace(c: char) -> bool {
    let u = c as u32;
    ||| 0x09 <= u <= 0x0D
    ||| u == 0x20
    ||| u == 0x85
    ||| u == 0xA0
    ||| u == 0x1680
    ||| 0x2000 <= u <= 0x200A
    ||| u == 0x2028
    ||| u == 0x2029
    ||| u == 0x202F
    ||| u == 0x205F
    ||| u == 0x3000
}

/// `s` without its leading whitespace.
pub open spec fn trim_start(s: Seq<char>) -> Seq<char>
    decreases s.len(),
{
    if s.len() > 0 && is_whitespace(s[0]) {
        trim_start(s.drop_first())
    } else {
        s
    }
}

/// `s` without its trailing whitespace.
pub open spec fn trim_end(s: Seq<char>) -> Seq<char>
    decreases s.len(),
{
    if s.len() > 0 && is_whitespace(s.last()) {
        trim_end(s.drop_last())
    } else {
        s
    }
}

/// `s` without leading and trailing whitespace, as `str::trim` gives it.
pub open spec fn trim(s: Seq<char>) -> Seq<char> {
    trim_end(trim_start(s))
}

/// Whether `c` has the Unicode `White_Space` property.
pub fn whitespace(c: char) -> (res: bool)
    ensures
        res == is_whitespace(c),
{
    let u = c as u32;
    (0x09 <= u && u <= 0x0D) || u == 0x20 || u == 0x85 || u == 0xA0 || u == 0x1680 || (0x2000 <= u
        && u <= 0x200A) || u == 0x2028 || u == 0x2029 || u == 0x202F || u == 0x205F || u == 0x3000
}

/// `s` without leading and trailing whitespace.
pub fn trimmed(s: &[char]) -> (res: Vec<char>)
    ensures
        res@ == trim(s@),
{
    let n = s.len();
    let mut i: usize = 0;
    assert(s@.skip(0) == s@);
    while i < n && whitespace(s[i])
        invariant
            i <= n,
            n == s@.len(),
            trim_start(s@) == trim_start(s@.skip(i as int)),
        decreases n - i,
    {
        assert(s@.skip(i as int).drop_first() == s@.skip(i + 1));
        i = i + 1;
    }
    let mut j: usize = n;
    assert(s@.skip(i as int) == s@.subrange(i as int, n as int));
    while j > i && whitespace(s[j - 1])
        invariant
            i <= j <= n,
            n == s@.len(),
            trim_start(s@) == s@.subrange(i as int, n as int),
            trim(s@) == trim_end(s@.subrange(i as int, j as int)),
        decreases j - i,
    {
        assert(s@.subrange(i as int, j as int).drop_last() == s@.subrange(i as int, j - 1));
        j = j - 1;
    }
    let mut res: Vec<char> = Vec::new();
    let mut k = i;
    while k < j
        invariant
            i <= k <= j <= n,
            n == s@.len(),
            res@ == s@.subrange(i as int, k as int),
        decreases j - k,
    {
        res.push(s[k]);
        assert(s@.subrange(i as int, k + 1) == s@.subrange(i as int, k as int).push(s@[k as int]));
        k = k + 1;
    }
    res
}


// ---------------------------------------------------------------------------
// The line-per-entry file format
// ---------------------------------------------------------------------------

/// The byte that ends a line (`\n`).
pub open spec fn newline_byte() -> u8 {
    10
}

/// The length of the first line of `b`, not counting the `\n` that ends it.
pub open spec fn line_len(b: Seq<u8>) -> nat
    decreases b.len(),
{
    if b.len() == 0 || b[0] == newline_byte() {
        0
    } else {
        1 + line_len(b.drop_first())
    }
}

/// A line that ended with `\n`, without the `\r` before it, if any.
pub open spec fn strip_cr(b: Seq<u8>) -> Seq<u8> {
    if b.len() > 0 && b.last() == 13 {
        b.drop_last()
    } else {
        b
    }
}

/// The lines that `BufRead::lines` yields for a reader over `b`, leaving out
/// those that are not valid UTF-8 (reading one of them fails, and the stores
/// go on with the next line). A line ends at `\n`, which is dropped together
/// with a `\r` just before it; a last line without `\n` keeps all its bytes.
pub open spec fn read_lines(b: Seq<u8>) -> Seq<Seq<char>>
    decreases b.len(),
{
    if b.len() == 0 {
        seq![]
    } else {
        let k = line_len(b);
        if k < b.len() {
            let line = strip_cr(b.take(k as int));
            let rest = read_lines(b.skip(k as int + 1));
            if valid_utf8(line) {
                seq![decode_utf8(line)] + rest
            } else {
                rest
            }
        } else if valid_utf8(b) {
            seq![decode_utf8(b)]
        } else {
            seq![]
        }
    }
}

proof fn lemma_line_len_bound(b: Seq<u8>)
    ensures
        line_len(b) <= b.len(),
        line_len(b) < b.len() ==> b[line_len(b) as int] == newline_byte(),
        forall|i: int| 0 <= i < line_len(b) ==> b[i] != newline_byte(),
    decreases b.len(),
{
    if b.len() > 0 && b[0] != newline_byte() {
        lemma_line_len_bound(b.drop_first());
        assert forall|i: int| 0 <= i < line_len(b) implies b[i] != newline_byte() by {
            if i > 0 {
                assert(b[i] == b.drop_first()[i - 1]);
            }
        }
    }
}

/// The bytes `b[from..to]`, copied.
fn copy_bytes(b: &[u8], from: usize, to: usize) -> (res: Vec<u8>)
    requires
        from <= to <= b@.len(),
    ensures
        res@ == b@.subrange(from as int, to as int),
{
    let mut res: Vec<u8> = Vec::new();
    let mut k = from;
    while k < to
        invariant
            from <= k <= to <= b@.len(),
            res@ == b@.subrange(from as int, k as int),
        decreases to - k,
    {
        res.push(b[k]);
        assert(b@.subrange(from as int, k + 1) == b@.subrange(from as int, k as int).push(b@[k as int]));
        k = k + 1;
    }
    res
}

/// The lines of a store file, as `read_lines` describes them.
pub fn lines_of(b: &[u8]) -> (res: Vec<String>)
    ensures
        res.deep_view() == read_lines(b@),
{
    let n = b.len();
    let mut res: Vec<String> = Vec::new();
    let mut pos: usize = 0;
    assert(b@.skip(0) == b@);
    while pos < n
        invariant
            pos <= n,
            n == b@.len(),
            res.deep_view() + read_lines(b@.skip(pos as int)) == read_lines(b@),
        decreases n - pos,
    {
        let ghost rest = b@.skip(pos as int);
        let mut end = pos;
        while end < n && b[end] != 10
            invariant
                pos <= end <= n,
                n == b@.len(),
                rest == b@.skip(pos as int),
                line_len(rest) == (end - pos) + line_len(b@.skip(end as int)),
            decreases n - end,
        {
            assert(b@.skip(end as int).drop_first() == b@.skip(end + 1));
            end = end + 1;
        }
        let ghost k = line_len(rest);
        assert(k == end - pos);
        let ghost before = res.deep_view();
        if end < n {
            let stop = if end > pos && b[end - 1] == 13 { end - 1 } else { end };
            assert(rest.take(k as int) == b@.subrange(pos as int, end as int));
            assert(strip_cr(rest.take(k as int)) == b@.subrange(pos as int, stop as int));
            assert(rest.skip(k as int + 1) == b@.skip(end + 1));
            let line = copy_bytes(b, pos, stop);
            match string_from_utf8(line) {
                Some(text) => {
                    res.push(text);
                    assert(res.deep_view() == before.push(text@));
                },
                None => {},
            }
            pos = end + 1;
        } else {
            assert(rest.take(k as int) == rest);
            assert(rest == b@.subrange(pos as int, n as int));
            let line = copy_bytes(b, pos, n);
            match string_from_utf8(line) {
                Some(text) => {
                    res.push(text);
                    assert(res.deep_view() == before.push(text@));
                },
                None => {},
            }
            pos = n;
            assert(b@.skip(n as int) == Seq::<u8>::empty());
        }
    }
    assert(b@.skip(n as int) == Seq::<u8>::empty());
    res
}


/// The entries joined with `\n` between them, as `[String]::join("\n")`
/// gives it.
pub open spec fn join_lines(ts: Seq<Seq<char>>) -> Seq<char>
    decreases ts.len(),
{
    if ts.len() == 0 {
        seq![]
    } else if ts.len() == 1 {
        ts[0]
    } else {
        join_lines(ts.drop_last()) + seq!['\n'] + ts.last()
    }
}

/// Joins the strings with `\n` between them.
pub fn join_newline(ts: &Vec<String>) -> (res: String)
    ensures
        res@ == join_lines(ts.deep_view()),
{
    let mut res = String::new();
    let n = ts.len();
    let ghost all = ts.deep_view();
    for i in 0..n
        invariant
            n == ts@.len(),
            all == ts.deep_view(),
            res@ == join_lines(all.take(i as int)),
    {
        let ghost prefix = all.take(i as int);
        assert(all.take(i + 1).drop_last() == prefix);
        assert(all.take(i + 1).last() == ts@[i as int]@);
        if i > 0 {
            push_char(&mut res, '\n');
        } else {
            assert(join_lines(prefix) == Seq::<char>::empty());
            assert(res@ + ts@[i as int]@ == ts@[i as int]@);
        }
        push_all(&mut res, chars_of(ts[i].as_str()).as_slice());
    }
    assert(all.take(n as int) == all);
    res
}

/// The text of a store file holding these entries: each entry on a line
/// of its own, as the topics store writes it with
/// `format!("{}\n", entries.join("\n"))`.
pub open spec fn entries_text(ts: Seq<Seq<char>>) -> Seq<char> {
    join_lines(ts).push('\n')
}

/// The text of a store file holding these entries.
pub fn entries_file_text(ts: &Vec<String>) -> (res: String)
    ensures
        res@ == entries_text(ts.deep_view()),
{
    let mut res = join_newline(ts);
    push_char(&mut res, '\n');
    res
}

/// The line that appending `t` to a store file adds: `t` and `\n`.
pub open spec fn line_text(t: Seq<char>) -> Seq<char> {
    t.push('\n')
}

/// The line that appending `t` to a store file adds.
pub fn line_for(t: &String) -> (res: String)
    ensures
        res@ == line_text(t@),
{
    let mut res = t.clone();
    push_char(&mut res, '\n');
    res
}

// ---------------------------------------------------------------------------
// Reading back what was written
// ---------------------------------------------------------------------------

/// An entry that survives a trip through a store file: it holds no `\n`
/// and does not end with `\r`.
pub open spec fn is_line_safe(t: Seq<char>) -> bool {
    &&& !t.contains('\n')
    &&& (t.len() > 0 ==> t.last() != '\r')
}

/// A store file's bytes end where a line ends (or there are none).
pub open spec fn ends_at_line_end(b: Seq<u8>) -> bool {
    b.len() == 0 || b.last() == newline_byte()
}

/// The entries, each followed by `\n`.
pub open spec fn terminated_lines(ts: Seq<Seq<char>>) -> Seq<char>
    decreases ts.len(),
{
    if ts.len() == 0 {
        seq![]
    } else {
        terminated_lines(ts.drop_last()) + line_text(ts.last())
    }
}

/// Encoding text piece by piece gives the encoding of the whole.
pub proof fn lemma_encode_concat(a: Seq<char>, b: Seq<char>)
    ensures
        encode_utf8(a + b) == encode_utf8(a) + encode_utf8(b),
    decreases a.len(),
{
    if a.len() == 0 {
        assert(a + b == b);
    } else {
        assert((a + b).drop_first() == a.drop_first() + b);
        lemma_encode_concat(a.drop_first(), b);
        assert(encode_utf8(a + b) == encode_scalar(a[0] as u32) + encode_utf8(a.drop_first() + b));
    }
}

/// The bytes of one character: a character below 0x80 is its own single
/// byte; every byte of any other character is 0x80 or above.
proof fn lemma_encode_scalar_bytes(c: char)
    ensures
        (c as u32) < 0x80 ==> encode_scalar(c as u32) == seq![(c as u32) as u8],
        (c as u32) >= 0x80 ==> forall|i: int|
            0 <= i < encode_scalar(c as u32).len() ==> #[trigger] encode_scalar(c as u32)[i] >= 0x80,
        encode_scalar(c as u32).len() > 0,
{
    let s = c as u32;
    vstd::utf8::char_is_scalar(c);
    assert(s <= 0x7F ==> (s & 0x7F) as u8 == s as u8) by (bit_vector);
    assert(0xC0 | ((s >> 6) & 0x1F) as u8 >= 0x80) by (bit_vector);
    assert(0xE0 | ((s >> 12) & 0x0F) as u8 >= 0x80) by (bit_vector);
    assert(0xF0 | ((s >> 18) & 0x7) as u8 >= 0x80) by (bit_vector);
    assert(0x80 | (s & 0x3F) as u8 >= 0x80) by (bit_vector);
    assert(0x80 | ((s >> 6) & 0x3F) as u8 >= 0x80) by (bit_vector);
    assert(0x80 | ((s >> 12) & 0x3F) as u8 >= 0x80) by (bit_vector);
}

/// Text without `\n` encodes to bytes without the newline byte.
proof fn lemma_encode_no_newline(t: Seq<char>)
    requires
        !t.contains('\n'),
    ensures
        forall|i: int| 0 <= i < encode_utf8(t).len() ==> #[trigger] encode_utf8(t)[i] != newline_byte(),
    decreases t.len(),
{
    if t.len() > 0 {
        let rest = t.drop_first();
        assert(!rest.contains('\n')) by {
            if rest.contains('\n') {
                let k = choose|k: int| 0 <= k < rest.len() && rest[k] == '\n';
                assert(t[k + 1] == '\n');
            }
        }
        lemma_encode_no_newline(rest);
        lemma_encode_scalar_bytes(t[0]);
        assert(t[0] != '\n');
        lemma_char_code_distinct(t[0], '\n');
        let e = encode_utf8(t);
        let first = encode_scalar(t[0] as u32);
        assert(e == first + encode_utf8(rest));
        assert forall|i: int| 0 <= i < e.len() implies #[trigger] e[i] != newline_byte() by {
            if i < first.len() {
                assert(e[i] == first[i]);
            } else {
                assert(e[i] == encode_utf8(rest)[i - first.len()]);
            }
        }
    }
}

/// Text that does not end with `\r` encodes to bytes that do not end with
/// the carriage-return byte.
proof fn lemma_encode_last_not_cr(t: Seq<char>)
    requires
        t.len() > 0,
        t.last() != '\r',
    ensures
        encode_utf8(t).len() > 0,
        encode_utf8(t).last() != 13,
{
    let init = t.drop_last();
    let c = t.last();
    assert(t == init + seq![c]);
    lemma_encode_concat(init, seq![c]);
    assert(seq![c].drop_first() == Seq::<char>::empty());
    assert(encode_utf8(seq![c]) == encode_scalar(c as u32) + encode_utf8(Seq::<char>::empty()));
    assert(encode_utf8(seq![c]) == encode_scalar(c as u32));
    lemma_encode_scalar_bytes(c);
    let last = encode_scalar(c as u32);
    assert(encode_utf8(t).last() == last.last());
    if (c as u32) >= 0x80 {
        assert(last[last.len() - 1] >= 0x80);
    } else {
        lemma_char_code_distinct(c, '\r');
    }
}

/// Different characters have different codes.
proof fn lemma_char_code_distinct(c: char, d: char)
    requires
        c != d,
    ensures
        (c as u32) != (d as u32),
{
    vstd::utf8::char_u32_cast(c, c as u32);
    vstd::utf8::char_u32_cast(d, d as u32);
}

proof fn lemma_encode_newline()
    ensures
        encode_utf8(seq!['\n']) == seq![newline_byte()],
{
    assert(seq!['\n'].drop_first() == Seq::<char>::empty());
    assert(encode_utf8(seq!['\n']) == encode_scalar('\n' as u32) + encode_utf8(Seq::<char>::empty()));
    lemma_encode_scalar_bytes('\n');
}

/// A first line of bytes without `\n` runs to its end.
proof fn lemma_line_len_prefix(x: Seq<u8>, y: Seq<u8>)
    requires
        forall|i: int| 0 <= i < x.len() ==> x[i] != newline_byte(),
    ensures
        line_len(x + y) == x.len() + line_len(y),
    decreases x.len(),
{
    if x.len() == 0 {
        assert(x + y == y);
    } else {
        assert((x + y).drop_first() == x.drop_first() + y);
        lemma_line_len_prefix(x.drop_first(), y);
    }
}

/// The bytes of an appended line: the entry's bytes, then `\n`.
proof fn lemma_encode_line(t: Seq<char>)
    ensures
        encode_utf8(line_text(t)) == encode_utf8(t) + seq![newline_byte()],
{
    assert(line_text(t) == t + seq!['\n']);
    lemma_encode_concat(t, seq!['\n']);
    lemma_encode_newline();
}

/// Appending the line of a safe entry to a store file whose bytes end at a
/// line end adds exactly that entry to what reading the file gives.
pub proof fn lemma_read_appended_line(c: Seq<u8>, t: Seq<char>)
    requires
        ends_at_line_end(c),
        is_line_safe(t),
    ensures
        read_lines(c + encode_utf8(line_text(t))) == read_lines(c).push(t),
    decreases c.len(),
{
    let e = encode_utf8(t);
    let appended = encode_utf8(line_text(t));
    lemma_encode_line(t);
    lemma_encode_no_newline(t);
    vstd::utf8::encode_utf8_valid_utf8(t);
    vstd::utf8::encode_utf8_decode_utf8(t);
    if t.len() > 0 {
        lemma_encode_last_not_cr(t);
    } else {
        assert(e == Seq::<u8>::empty());
    }
    assert(strip_cr(e) == e);
    if c.len() == 0 {
        let b = c + appended;
        assert(b == e + seq![newline_byte()]);
        lemma_line_len_prefix(e, seq![newline_byte()]);
        assert(line_len(b) == e.len());
        assert(b.take(e.len() as int) == e);
        assert(b.skip(e.len() as int + 1) == Seq::<u8>::empty());
        assert(strip_cr(b.take(e.len() as int)) == e);
        assert(read_lines(b.skip(e.len() as int + 1)) == Seq::<Seq<char>>::empty());
        assert(read_lines(b) == seq![decode_utf8(e)] + Seq::<Seq<char>>::empty());
        assert(read_lines(b) == seq![t]);
        assert(read_lines(c) == Seq::<Seq<char>>::empty());
        assert(seq![t] == Seq::<Seq<char>>::empty().push(t));
    } else {
        let b = c + appended;
        lemma_line_len_bound(c);
        let k = line_len(c);
        if k == c.len() {
            assert(c[c.len() - 1] != newline_byte());
        }
        assert(k < c.len());
        let head = c.take(k as int);
        assert(c == head + c.skip(k as int));
        assert(b == head + (c.skip(k as int) + appended));
        lemma_line_len_prefix(head, c.skip(k as int));
        lemma_line_len_prefix(head, c.skip(k as int) + appended);
        assert(c.skip(k as int)[0] == newline_byte());
        assert((c.skip(k as int) + appended)[0] == newline_byte());
        assert(line_len(b) == k);
        assert(b.take(k as int) == head);
        let rest_c = c.skip(k as int + 1);
        assert(b.skip(k as int + 1) == rest_c + appended);
        if rest_c.len() > 0 {
            assert(rest_c.last() == c.last());
        }
        lemma_read_appended_line(rest_c, t);
        let line = strip_cr(head);
        if valid_utf8(line) {
            assert(read_lines(b) == seq![decode_utf8(line)] + read_lines(rest_c + appended));
            assert(read_lines(c) == seq![decode_utf8(line)] + read_lines(rest_c));
            assert(seq![decode_utf8(line)] + read_lines(rest_c).push(t) == (seq![decode_utf8(line)]
                + read_lines(rest_c)).push(t));
        } else {
            assert(read_lines(b) == read_lines(rest_c + appended));
            assert(read_lines(c) == read_lines(rest_c));
        }
    }
}

/// Every write of a store leaves its file ending at a line end: a whole
/// file written from entries, and a line appended to a file that ended at
/// one.
pub proof fn lemma_writes_end_at_line_end(ts: Seq<Seq<char>>, file: Seq<u8>, t: Seq<char>)
    ensures
        ends_at_line_end(encode_utf8(entries_text(ts))),
        ends_at_line_end(file + encode_utf8(line_text(t))),
{
    assert(entries_text(ts) == join_lines(ts) + seq!['\n']);
    lemma_encode_concat(join_lines(ts), seq!['\n']);
    lemma_encode_newline();
    lemma_encode_line(t);
}

/// Entries each followed by `\n` read back as the same entries.
proof fn lemma_read_terminated_lines(ts: Seq<Seq<char>>)
    requires
        forall|i: int| 0 <= i < ts.len() ==> is_line_safe(#[trigger] ts[i]),
    ensures
        read_lines(encode_utf8(terminated_lines(ts))) == ts,
        ends_at_line_end(encode_utf8(terminated_lines(ts))),
    decreases ts.len(),
{
    if ts.len() == 0 {
        assert(encode_utf8(Seq::<char>::empty()) == Seq::<u8>::empty());
    } else {
        let init = ts.drop_last();
        assert forall|i: int| 0 <= i < init.len() implies is_line_safe(#[trigger] init[i]) by {
            assert(init[i] == ts[i]);
        }
        lemma_read_terminated_lines(init);
        let c = encode_utf8(terminated_lines(init));
        lemma_encode_concat(terminated_lines(init), line_text(ts.last()));
        lemma_encode_line(ts.last());
        assert(is_line_safe(ts[ts.len() - 1]));
        lemma_read_appended_line(c, ts.last());
        assert(init.push(ts.last()) == ts);
    }
}

proof fn lemma_entries_text_terminated(ts: Seq<Seq<char>>)
    requires
        ts.len() > 0,
    ensures
        entries_text(ts) == terminated_lines(ts),
    decreases ts.len(),
{
    if ts.len() == 1 {
        assert(ts.drop_last() == Seq::<Seq<char>>::empty());
        assert(terminated_lines(ts.drop_last()) == Seq::<char>::empty());
    } else {
        lemma_entries_text_terminated(ts.drop_last());
    }
}

/// Writing a non-empty list of safe entries to a store file and reading the
/// file back gives the same list.
pub proof fn lemma_read_written_entries(ts: Seq<Seq<char>>)
    requires
        ts.len() > 0,
        forall|i: int| 0 <= i < ts.len() ==> is_line_safe(#[trigger] ts[i]),
    ensures
        read_lines(encode_utf8(entries_text(ts))) == ts,
{
    lemma_entries_text_terminated(ts);
    lemma_read_terminated_lines(ts);
}


// ---------------------------------------------------------------------------
// What the pieces of a text are
// ---------------------------------------------------------------------------

/// Whether `w` holds no separator.
pub open spec fn separator_free(w: Seq<char>, seps: Separators) -> bool {
    forall|k: int| 0 <= k < w.len() ==> !is_separator(seps, #[trigger] w[k])
}

/// Whether `w` stands in `s` at `i`, with a separator or the start of `s`
/// before it and a separator or the end of `s` after it.
pub open spec fn delimited_at(s: Seq<char>, w: Seq<char>, seps: Separators, i: int) -> bool {
    &&& 0 <= i
    &&& i + w.len() <= s.len()
    &&& s.subrange(i, i + w.len()) == w
    &&& (i == 0 || is_separator(seps, s[i - 1]))
    &&& (i + w.len() == s.len() || is_separator(seps, s[i + w.len()]))
}

/// Where the last piece of `s` starts: just after its last separator, or at
/// its start where it has none.
pub open spec fn tail_start(s: Seq<char>, seps: Separators) -> int
    decreases s.len(),
{
    if s.len() == 0 {
        0
    } else if is_separator(seps, s.last()) {
        s.len() as int
    } else {
        tail_start(s.drop_last(), seps)
    }
}

proof fn lemma_tail_start(s: Seq<char>, seps: Separators)
    ensures
        0 <= tail_start(s, seps) <= s.len(),
        tail_start(s, seps) == 0 || is_separator(seps, s[tail_start(s, seps) - 1]),
        forall|k: int| tail_start(s, seps) <= k < s.len() ==> !is_separator(seps, #[trigger] s[k]),
        split_pieces(s, seps).len() >= 1,
        split_pieces(s, seps).last() == s.subrange(tail_start(s, seps), s.len() as int),
    decreases s.len(),
{
    if s.len() > 0 {
        let init = s.drop_last();
        lemma_tail_start(init, seps);
        assert forall|k: int| tail_start(s, seps) <= k < s.len() implies !is_separator(seps, #[trigger] s[k]) by {
            if k < s.len() - 1 {
                assert(s[k] == init[k]);
            }
        }
        if !is_separator(seps, s.last()) {
            let t = tail_start(init, seps);
            if t > 0 {
                assert(s[t - 1] == init[t - 1]);
            }
            assert(s.subrange(t, s.len() as int) == init.subrange(t, init.len() as int).push(s.last()));
        } else {
            assert(s.subrange(s.len() as int, s.len() as int) == Seq::<char>::empty());
        }
    }
}

/// A separator-free stretch that starts at the start of `s` or after a
/// separator and runs to the end of `s` is the last piece.
proof fn lemma_tail_unique(s: Seq<char>, seps: Separators, i: int)
    requires
        0 <= i <= s.len(),
        i == 0 || is_separator(seps, s[i - 1]),
        forall|k: int| i <= k < s.len() ==> !is_separator(seps, #[trigger] s[k]),
    ensures
        i == tail_start(s, seps),
{
    lemma_tail_start(s, seps);
    let t = tail_start(s, seps);
    if i < t {
        assert(is_separator(seps, s[t - 1]));
    }
    if i > t {
        assert(!is_separator(seps, s[i - 1]));
    }
}

/// The pieces before the last are the separator-free stretches of `s`
/// delimited as `delimited_at` says and followed by a separator.
proof fn lemma_pieces_before_last(s: Seq<char>, seps: Separators, w: Seq<char>)
    ensures
        split_pieces(s, seps).drop_last().contains(w) <==> (separator_free(w, seps) && exists|i: int|
            #[trigger] delimited_at(s, w, seps, i) && i + w.len() < s.len()),
    decreases s.len(),
{
    lemma_tail_start(s, seps);
    if s.len() == 0 {
        assert(split_pieces(s, seps).drop_last() == Seq::<Seq<char>>::empty());
    } else {
        let init = s.drop_last();
        let c = s.last();
        lemma_tail_start(init, seps);
        lemma_pieces_before_last(init, seps, w);
        let p = split_pieces(init, seps);
        let before = split_pieces(s, seps).drop_last();
        if is_separator(seps, c) {
            assert(before == p);
            assert(p == p.drop_last().push(p.last()));
            let t = tail_start(init, seps);
            if before.contains(w) {
                if w == p.last() {
                    assert forall|k: int| 0 <= k < w.len() implies !is_separator(seps, #[trigger] w[k]) by {
                        assert(w[k] == init[t + k]);
                    }
                    assert(s.subrange(t, t + w.len()) == w);
                    if t > 0 {
                        assert(s[t - 1] == init[t - 1]);
                    }
                    assert(delimited_at(s, w, seps, t));
                } else {
                    let k = choose|k: int| 0 <= k < p.len() && p[k] == w;
                    assert(p.drop_last()[k] == w);
                    assert(p.drop_last().contains(w));
                    let i = choose|i: int| #[trigger] delimited_at(init, w, seps, i) && i + w.len() < init.len();
                    assert(s.subrange(i, i + w.len()) == init.subrange(i, i + w.len()));
                    if i > 0 {
                        assert(s[i - 1] == init[i - 1]);
                    }
                    assert(s[i + w.len()] == init[i + w.len()]);
                    assert(delimited_at(s, w, seps, i));
                }
            }
            if separator_free(w, seps) && exists|i: int| #[trigger] delimited_at(s, w, seps, i) && i + w.len() < s.len() {
                let i = choose|i: int| #[trigger] delimited_at(s, w, seps, i) && i + w.len() < s.len();
                let e = i + w.len();
                assert(init.subrange(i, e) == s.subrange(i, e));
                if i > 0 {
                    assert(s[i - 1] == init[i - 1]);
                }
                if e == init.len() {
                    assert forall|k: int| i <= k < init.len() implies !is_separator(seps, #[trigger] init[k]) by {
                        assert(init[k] == w[k - i]);
                    }
                    lemma_tail_unique(init, seps, i);
                    assert(w == p.last());
                    assert(p[p.len() - 1] == w);
                } else {
                    assert(init[e] == s[e]);
                    assert(delimited_at(init, w, seps, i));
                    assert(p.drop_last().contains(w));
                    let k = choose|k: int| 0 <= k < p.drop_last().len() && p.drop_last()[k] == w;
                    assert(p[k] == w);
                }
            }
        } else {
            assert(before == p.drop_last());
            if separator_free(w, seps) && exists|i: int| #[trigger] delimited_at(s, w, seps, i) && i + w.len() < s.len() {
                let i = choose|i: int| #[trigger] delimited_at(s, w, seps, i) && i + w.len() < s.len();
                let e = i + w.len();
                assert(e < init.len());
                assert(init.subrange(i, e) == s.subrange(i, e));
                if i > 0 {
                    assert(s[i - 1] == init[i - 1]);
                }
                assert(init[e] == s[e]);
                assert(delimited_at(init, w, seps, i));
            }
            if before.contains(w) {
                let i = choose|i: int| #[trigger] delimited_at(init, w, seps, i) && i + w.len() < init.len();
                assert(s.subrange(i, i + w.len()) == init.subrange(i, i + w.len()));
                if i > 0 {
                    assert(s[i - 1] == init[i - 1]);
                }
                assert(s[i + w.len()] == init[i + w.len()]);
                assert(delimited_at(s, w, seps, i));
            }
        }
    }
}

/// The pieces of a text, as `str::split` yields them, are exactly its
/// separator-free stretches that have a separator or the start of the text
/// before them and a separator or the end of the text after them.
pub proof fn law_pieces_are_delimited_stretches(s: Seq<char>, seps: Separators, w: Seq<char>)
    ensures
        split_pieces(s, seps).contains(w) <==> (separator_free(w, seps) && exists|i: int|
            #[trigger] delimited_at(s, w, seps, i)),
{
    lemma_tail_start(s, seps);
    lemma_pieces_before_last(s, seps, w);
    let p = split_pieces(s, seps);
    let t = tail_start(s, seps);
    assert(p == p.drop_last().push(p.last()));
    if p.contains(w) {
        let k = choose|k: int| 0 <= k < p.len() && p[k] == w;
        if k == p.len() - 1 {
            assert forall|j: int| 0 <= j < w.len() implies !is_separator(seps, #[trigger] w[j]) by {
                assert(w[j] == s[t + j]);
            }
            assert(delimited_at(s, w, seps, t));
        } else {
            assert(p.drop_last()[k] == w);
        }
    }
    if separator_free(w, seps) && exists|i: int| #[trigger] delimited_at(s, w, seps, i) {
        let i = choose|i: int| #[trigger] delimited_at(s, w, seps, i);
        if i + w.len() == s.len() {
            assert forall|k: int| i <= k < s.len() implies !is_separator(seps, #[trigger] s[k]) by {
                assert(s[k] == w[k - i]);
            }
            lemma_tail_unique(s, seps, i);
            assert(p[p.len() - 1] == w);
        } else {
            let k = choose|k: int| 0 <= k < p.drop_last().len() && p.drop_last()[k] == w;
            assert(p[k] == w);
        }
    }
}


/// The words of a text (as `str::split_ascii_whitespace` yields them for
/// ASCII whitespace) are exactly its non-empty pieces.
pub proof fn law_words_are_nonempty_pieces(s: Seq<char>, seps: Separators, w: Seq<char>)
    ensures
        words(s, seps).contains(w) <==> (w.len() > 0 && separator_free(w, seps) && exists|i: int|
            #[trigger] delimited_at(s, w, seps, i)),
{
    law_pieces_are_delimited_stretches(s, seps, w);
    let pieces = split_pieces(s, seps);
    let nonempty = |v: Seq<char>| v.len() > 0;
    if pieces.filter(nonempty).contains(w) {
        pieces.lemma_filter_contains_rev(nonempty, w);
        let k = choose|k: int| 0 <= k < pieces.filter(nonempty).len() && pieces.filter(nonempty)[k] == w;
        pieces.lemma_filter_pred(nonempty, k);
    }
    if w.len() > 0 && pieces.contains(w) {
        let k = choose|k: int| 0 <= k < pieces.len() && pieces[k] == w;
        pieces.lemma_filter_contains(nonempty, k);
    }
}

} // verus!
