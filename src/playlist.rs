//! Playlist entries and the extraction of their `group-title` attribute.
use vstd::prelude::*;
use crate::text::{
    chars_of, find_chars, find_from, lemma_find_first, lemma_find_from, occurs_at, occurs_at_exec, slice_chars,
    lemma_text_lines_plain, lemma_trim_idempotent, split_lines, string_of, text_lines, trim,
    trim_chars,
};

verus! {

/// The attribute name as it stands before the opening quote: `group-title=`.
pub open spec fn title_key() -> Seq<char> {
    seq!['g', 'r', 'o', 'u', 'p', '-', 't', 'i', 't', 'l', 'e', '=']
}

/// The text between `group-title=` followed by the quote `q`, at its first
/// occurrence, and the next `q` after it; `None` where either is missing.
pub open spec fn quoted_value(s: Seq<char>, q: char) -> Option<Seq<char>> {
    let key = title_key().push(q);
    match find_from(s, key, 0) {
        Some(k) => {
            let start = k + key.len();
            match find_from(s, seq![q], start) {
                Some(e) => Some(s.subrange(start, e)),
                None => None,
            }
        },
        None => None,
    }
}

/// The group named by a descriptor line: the double-quoted form is tried
/// first, then the single-quoted one.
pub open spec fn group_title(s: Seq<char>) -> Option<Seq<char>> {
    match quoted_value(s, '"') {
        Some(v) => Some(v),
        None => quoted_value(s, '\''),
    }
}

/// The group named by a descriptor line held as characters.
pub fn group_title_chars(s: &Vec<char>) -> (r: Option<Vec<char>>)
    ensures
        match r {
            Some(v) => group_title(s@) == Some(v@),
            None => group_title(s@) is None,
        },
{
    match quoted_value_exec(s, '"') {
        Some(v) => Some(v),
        None => quoted_value_exec(s, '\''),
    }
}

fn quoted_value_exec(s: &Vec<char>, q: char) -> (r: Option<Vec<char>>)
    ensures
        match r {
            Some(v) => quoted_value(s@, q) == Some(v@),
            None => quoted_value(s@, q) is None,
        },
{
    let key = vec!['g', 'r', 'o', 'u', 'p', '-', 't', 'i', 't', 'l', 'e', '=', q];
    assert(key@ =~= title_key().push(q));
    match find_chars(s, &key, 0) {
        Some(k) => {
            proof {
                lemma_find_from(s@, key@, 0);
            }
            assert(k + key@.len() <= s.len());
            let start = k + key.len();
            let quote = vec![q];
            assert(quote@ =~= seq![q]);
            proof {
                lemma_find_from(s@, quote@, start as int);
            }
            match find_chars(s, &quote, start) {
                Some(e) => Some(slice_chars(s, start, e)),
                None => None,
            }
        },
        None => None,
    }
}

/// Extracts the value of the `group-title` attribute of a descriptor line,
/// written `group-title="VALUE"` or `group-title='VALUE'`.
pub fn parse_group_name(extinf_line: &str) -> (r: Option<String>)
    ensures
        match r {
            Some(v) => group_title(extinf_line@) == Some(v@),
            None => group_title(extinf_line@) is None,
        },
{
    let s = chars_of(extinf_line);
    match group_title_chars(&s) {
        Some(v) => Some(string_of(&v)),
        None => None,
    }
}

proof fn lemma_quoted_value_found(s: Seq<char>, q: char, a: Seq<char>, x: Seq<char>, b: Seq<char>)
    requires
        s == a + title_key().push(q) + x + seq![q] + b,
        !x.contains(q),
        forall|j: int| 0 <= j < a.len() ==> !occurs_at(s, title_key().push(q), j),
    ensures
        quoted_value(s, q) == Some(x),
{
    let key = title_key().push(q);
    let start: int = (a.len() + key.len()) as int;
    assert(s.subrange(a.len() as int, start) =~= key);
    lemma_find_first(s, key, 0, a.len() as int);
    let end: int = start + x.len();
    assert(s.subrange(end, end + 1) =~= seq![q]);
    assert forall|j: int| start <= j < end implies !occurs_at(s, seq![q], j) by {
        assert(s[j] == x[j - start]);
        if occurs_at(s, seq![q], j) {
            assert(s.subrange(j, j + 1)[0] == s[j]);
        }
    }
    lemma_find_first(s, seq![q], start, end);
    assert(s.subrange(start, end) =~= x);
}

/// A descriptor line holding `group-title="X"`, where X has no double quote
/// and this is the first `group-title="` of the line, names the group X,
/// whatever else X holds (nothing at all, `&`, any Unicode character).
pub proof fn lemma_double_quoted_title(a: Seq<char>, x: Seq<char>, b: Seq<char>)
    requires
        !x.contains('"'),
        forall|j: int|
            0 <= j < a.len() ==> !occurs_at(
                a + title_key().push('"') + x + seq!['"'] + b,
                title_key().push('"'),
                j,
            ),
    ensures
        group_title(a + title_key().push('"') + x + seq!['"'] + b) == Some(x),
{
    lemma_quoted_value_found(a + title_key().push('"') + x + seq!['"'] + b, '"', a, x, b);
}

/// A descriptor line holding `group-title='X'`, where X has no single quote,
/// this is the first `group-title='` of the line, and the double-quoted form
/// yields nothing, names the group X.
pub proof fn lemma_single_quoted_title(a: Seq<char>, x: Seq<char>, b: Seq<char>)
    requires
        !x.contains('\''),
        forall|j: int|
            0 <= j < a.len() ==> !occurs_at(
                a + title_key().push('\'') + x + seq!['\''] + b,
                title_key().push('\''),
                j,
            ),
        quoted_value(a + title_key().push('\'') + x + seq!['\''] + b, '"') is None,
    ensures
        group_title(a + title_key().push('\'') + x + seq!['\''] + b) == Some(x),
{
    lemma_quoted_value_found(a + title_key().push('\'') + x + seq!['\''] + b, '\'', a, x, b);
}

/// A descriptor line in which neither `group-title="` nor `group-title='`
/// occurs names no group, and its entry falls in the group `Unknown`.
pub proof fn lemma_missing_title(s: Seq<char>)
    requires
        forall|j: int| !occurs_at(s, title_key().push('"'), j),
        forall|j: int| !occurs_at(s, title_key().push('\''), j),
    ensures
        group_title(s) is None,
        group_of(s) == unknown_label(),
{
    lemma_find_from(s, title_key().push('"'), 0);
    lemma_find_from(s, title_key().push('\''), 0);
}

/// The label of the group of an entry whose descriptor names none.
pub open spec fn unknown_label() -> Seq<char> {
    seq!['U', 'n', 'k', 'n', 'o', 'w', 'n']
}

/// The token that opens a descriptor line.
pub open spec fn extinf_tag() -> Seq<char> {
    seq!['#', 'E', 'X', 'T', 'I', 'N', 'F', ':']
}

/// The group of an entry with descriptor `d`.
pub open spec fn group_of(d: Seq<char>) -> Seq<char> {
    match group_title(d) {
        Some(g) => g,
        None => unknown_label(),
    }
}

/// A line is a descriptor when, trimmed, it starts with `#EXTINF:`.
pub open spec fn is_descriptor(line: Seq<char>) -> bool {
    occurs_at(trim(line), extinf_tag(), 0)
}

/// One playlist entry, as the contracts see it.
pub struct ChannelView {
    pub extinf_line: Seq<char>,
    pub url: Seq<char>,
    pub group_name: Seq<char>,
}

/// The entry made of descriptor line `d` and the line `l` after it.
pub open spec fn entry_of(d: Seq<char>, l: Seq<char>) -> ChannelView {
    ChannelView { extinf_line: trim(d), url: trim(l), group_name: group_of(trim(d)) }
}

/// The entries found in `lines` from index `i` on: each descriptor takes the
/// line after it as its locator; a descriptor on the last line, and every
/// other line, is skipped.
pub open spec fn entries_from(lines: Seq<Seq<char>>, i: int) -> Seq<ChannelView>
    decreases lines.len() - i,
{
    if i < 0 || i >= lines.len() {
        Seq::empty()
    } else if is_descriptor(lines[i]) && i + 1 < lines.len() {
        seq![entry_of(lines[i], lines[i + 1])] + entries_from(lines, i + 2)
    } else {
        entries_from(lines, i + 1)
    }
}

/// The entries of a playlist text, in order.
pub open spec fn parse_playlist(text: Seq<char>) -> Seq<ChannelView> {
    entries_from(text_lines(text), 0)
}

/// An entry as the parser yields it: descriptor line and locator trimmed
/// and free of newlines, the descriptor opening with `#EXTINF:`, and the
/// group the one that the descriptor names.
pub open spec fn is_parsed_entry(c: ChannelView) -> bool {
    &&& trim(c.extinf_line) == c.extinf_line
    &&& trim(c.url) == c.url
    &&& !c.extinf_line.contains('\n')
    &&& !c.url.contains('\n')
    &&& occurs_at(c.extinf_line, extinf_tag(), 0)
    &&& c.group_name == group_of(c.extinf_line)
}

proof fn lemma_entries_from_well_formed(lines: Seq<Seq<char>>, i: int)
    requires
        0 <= i,
        forall|k: int| 0 <= k < lines.len() ==> !(#[trigger] lines[k]).contains('\n'),
    ensures
        forall|j: int|
            0 <= j < entries_from(lines, i).len() ==> is_parsed_entry(
                #[trigger] entries_from(lines, i)[j],
            ),
    decreases lines.len() - i,
{
    if i >= lines.len() {
    } else if is_descriptor(lines[i]) && i + 1 < lines.len() {
        lemma_entries_from_well_formed(lines, i + 2);
        let d = lines[i];
        let l = lines[i + 1];
        lemma_trim_idempotent(d, '\n');
        lemma_trim_idempotent(l, '\n');
        let e = entry_of(d, l);
        assert(is_parsed_entry(e));
        let rest = entries_from(lines, i + 2);
        assert forall|j: int| 0 <= j < entries_from(lines, i).len() implies is_parsed_entry(
            #[trigger] entries_from(lines, i)[j],
        ) by {
            assert(entries_from(lines, i) == seq![e] + rest);
            if j > 0 {
                assert(entries_from(lines, i)[j] == rest[j - 1]);
            } else {
                assert(entries_from(lines, i)[j] == e);
            }
        }
    } else {
        lemma_entries_from_well_formed(lines, i + 1);
        assert(entries_from(lines, i) == entries_from(lines, i + 1));
    }
}

/// Every entry that parsing yields is well formed, as `is_parsed_entry` says.
pub proof fn lemma_parsed_entries_well_formed(text: Seq<char>)
    ensures
        forall|j: int|
            0 <= j < parse_playlist(text).len() ==> is_parsed_entry(
                #[trigger] parse_playlist(text)[j],
            ),
{
    lemma_text_lines_plain(text);
    lemma_entries_from_well_formed(text_lines(text), 0);
}

/// One playlist entry: its descriptor line, the locator line after it, and
/// the name of its group.
pub struct Channel {
    pub extinf_line: String,
    pub url: String,
    pub group_name: String,
}

impl View for Channel {
    type V = ChannelView;

    open spec fn view(&self) -> ChannelView {
        ChannelView {
            extinf_line: self.extinf_line@,
            url: self.url@,
            group_name: self.group_name@,
        }
    }
}

/// The views of a sequence of entries.
pub open spec fn channels_view(v: Seq<Channel>) -> Seq<ChannelView> {
    v.map_values(|c: Channel| c@)
}

/// Builds the entry for descriptor line `d` and locator line `l`.
fn make_channel(d: &Vec<char>, l: &Vec<char>) -> (r: Channel)
    ensures
        r@ == entry_of(d@, l@),
{
    let extinf = trim_chars(d);
    let url = trim_chars(l);
    let group = match group_title_chars(&extinf) {
        Some(g) => g,
        None => {
            let u = vec!['U', 'n', 'k', 'n', 'o', 'w', 'n'];
            assert(u@ =~= unknown_label());
            u
        },
    };
    Channel { extinf_line: string_of(&extinf), url: string_of(&url), group_name: string_of(&group) }
}

/// Parses the text of a playlist into its entries, in order of appearance.
pub fn parse_m3u(content: &str) -> (r: Vec<Channel>)
    ensures
        channels_view(r@) == parse_playlist(content@),
{
    let text = chars_of(content);
    let lines = split_lines(&text);
    let ghost lv = lines@.map_values(|v: Vec<char>| v@);
    let tag = vec!['#', 'E', 'X', 'T', 'I', 'N', 'F', ':'];
    assert(tag@ =~= extinf_tag());
    let mut out: Vec<Channel> = Vec::new();
    let mut i: usize = 0;
    assert(channels_view(out@) + entries_from(lv, 0) =~= entries_from(lv, 0));
    while i < lines.len()
        invariant
            lv == lines@.map_values(|v: Vec<char>| v@),
            lv == text_lines(text@),
            text@ == content@,
            tag@ == extinf_tag(),
            i <= lines@.len(),
            channels_view(out@) + entries_from(lv, i as int) == entries_from(lv, 0),
        decreases lines@.len() - i,
    {
        let t = trim_chars(&lines[i]);
        if occurs_at_exec(&t, &tag, 0) && i + 1 < lines.len() {
            let c = make_channel(&lines[i], &lines[i + 1]);
            let ghost before = channels_view(out@);
            out.push(c);
            assert(channels_view(out@) =~= before.push(c@));
            assert(channels_view(out@) + entries_from(lv, i + 2) =~= before + entries_from(
                lv,
                i as int,
            ));
            i += 2;
        } else {
            i += 1;
        }
    }
    assert(channels_view(out@) =~= channels_view(out@) + entries_from(lv, i as int));
    out
}

} // verus!
