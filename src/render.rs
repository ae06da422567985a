//! Serialization of a group's entries back to playlist text.
use vstd::prelude::*;
use crate::playlist::{
    channels_view, entries_from, entry_of, is_descriptor, is_parsed_entry, lemma_parsed_entries_well_formed,
    parse_playlist,
    Channel, ChannelView,
};
use crate::text::{
    chars_of, lemma_split_append_newline, lemma_split_append_plain, split_newlines, string_of,
    text_lines, trim,
};

verus! {

/// The header line of a playlist file.
pub open spec fn header_line() -> Seq<char> {
    seq!['#', 'E', 'X', 'T', 'M', '3', 'U']
}

/// Each entry's descriptor line and locator, each ended by a newline, in order.
pub open spec fn entries_text(cs: Seq<ChannelView>) -> Seq<char>
    decreases cs.len(),
{
    if cs.len() == 0 {
        Seq::empty()
    } else {
        entries_text(cs.drop_last()) + cs.last().extinf_line + seq!['\n'] + cs.last().url
            + seq!['\n']
    }
}

/// The text of a playlist file holding `cs`: the header line, then the entries.
pub open spec fn playlist_text(cs: Seq<ChannelView>) -> Seq<char> {
    header_line() + seq!['\n'] + entries_text(cs)
}

/// Renders the playlist file of one group: the `#EXTM3U` header, then each
/// entry's descriptor line and locator, verbatim and in order, one per line.
pub fn render_group(channels: &Vec<Channel>) -> (r: String)
    ensures
        r@ == playlist_text(channels_view(channels@)),
{
    let ghost cs = channels_view(channels@);
    let mut out: Vec<char> = vec!['#', 'E', 'X', 'T', 'M', '3', 'U', '\n'];
    let mut i: usize = 0;
    assert(cs.subrange(0, 0) =~= Seq::<ChannelView>::empty());
    assert(out@ =~= playlist_text(cs.subrange(0, 0)));
    while i < channels.len()
        invariant
            cs == channels_view(channels@),
            i <= channels@.len(),
            out@ == playlist_text(cs.subrange(0, i as int)),
        decreases channels@.len() - i,
    {
        assert(cs.subrange(0, i + 1).drop_last() =~= cs.subrange(0, i as int));
        let mut d = chars_of(channels[i].extinf_line.as_str());
        let mut l = chars_of(channels[i].url.as_str());
        let ghost before = out@;
        out.append(&mut d);
        out.push('\n');
        out.append(&mut l);
        out.push('\n');
        assert(out@ =~= playlist_text(cs.subrange(0, i + 1)));
        i += 1;
    }
    assert(cs.subrange(0, i as int) =~= cs);
    string_of(&out)
}

/// The lines of the text of a playlist file holding `cs`.
pub open spec fn rendered_lines(cs: Seq<ChannelView>) -> Seq<Seq<char>>
    decreases cs.len(),
{
    if cs.len() == 0 {
        seq![header_line()]
    } else {
        rendered_lines(cs.drop_last()).push(cs.last().extinf_line).push(cs.last().url)
    }
}

proof fn lemma_rendered_lines_split(cs: Seq<ChannelView>)
    requires
        forall|i: int| 0 <= i < cs.len() ==> is_parsed_entry(#[trigger] cs[i]),
    ensures
        split_newlines(playlist_text(cs)) == rendered_lines(cs).push(Seq::empty()),
    decreases cs.len(),
{
    if cs.len() == 0 {
        let h = header_line();
        assert(!h.contains('\n')) by {
            if h.contains('\n') {
                let j = choose|j: int| 0 <= j < h.len() && h[j] == '\n';
            }
        }
        lemma_split_append_plain(Seq::empty(), h);
        assert(Seq::<char>::empty() + h =~= h);
        assert(split_newlines(Seq::<char>::empty()) =~= seq![Seq::<char>::empty()]);
        assert(split_newlines(h) =~= seq![h]) by {
            assert(seq![Seq::<char>::empty()].update(0, Seq::<char>::empty() + h) =~= seq![h]);
        }
        lemma_split_append_newline(h);
        assert(playlist_text(cs) =~= h.push('\n'));
    } else {
        let p = cs.drop_last();
        let c = cs.last();
        assert(is_parsed_entry(c)) by {
            assert(cs[cs.len() - 1] == c);
        }
        assert forall|i: int| 0 <= i < p.len() implies is_parsed_entry(#[trigger] p[i]) by {
            assert(p[i] == cs[i]);
        }
        lemma_rendered_lines_split(p);
        let x = playlist_text(p);
        let r = rendered_lines(p);
        lemma_split_append_plain(x, c.extinf_line);
        assert(r.push(Seq::empty()).update(r.len() as int, Seq::<char>::empty() + c.extinf_line)
            =~= r.push(c.extinf_line));
        lemma_split_append_newline(x + c.extinf_line);
        let y = (x + c.extinf_line).push('\n');
        lemma_split_append_plain(y, c.url);
        assert(r.push(c.extinf_line).push(Seq::empty()).update(
            (r.len() + 1) as int,
            Seq::<char>::empty() + c.url,
        ) =~= r.push(c.extinf_line).push(c.url));
        lemma_split_append_newline(y + c.url);
        assert(playlist_text(cs) =~= (y + c.url).push('\n'));
    }
}

proof fn lemma_rendered_lines_index(cs: Seq<ChannelView>)
    ensures
        rendered_lines(cs).len() == 2 * cs.len() + 1,
        rendered_lines(cs)[0] == header_line(),
        forall|k: int|
            0 <= k < cs.len() ==> rendered_lines(cs)[2 * k + 1] == (#[trigger] cs[k]).extinf_line
                && rendered_lines(cs)[2 * k + 2] == cs[k].url,
    decreases cs.len(),
{
    if cs.len() > 0 {
        let p = cs.drop_last();
        lemma_rendered_lines_index(p);
        assert forall|k: int| 0 <= k < cs.len() implies rendered_lines(cs)[2 * k + 1] == (
        #[trigger] cs[k]).extinf_line && rendered_lines(cs)[2 * k + 2] == cs[k].url by {
            if k < p.len() {
                assert(cs[k] == p[k]);
            }
        }
    }
}

proof fn lemma_entries_of_rendered(cs: Seq<ChannelView>, k: int)
    requires
        0 <= k <= cs.len(),
        forall|i: int| 0 <= i < cs.len() ==> is_parsed_entry(#[trigger] cs[i]),
    ensures
        entries_from(rendered_lines(cs), 2 * k + 1) == cs.subrange(k, cs.len() as int),
    decreases cs.len() - k,
{
    lemma_rendered_lines_index(cs);
    let l = rendered_lines(cs);
    if k == cs.len() {
        assert(cs.subrange(k, cs.len() as int) =~= Seq::<ChannelView>::empty());
    } else {
        let c = cs[k];
        assert(is_parsed_entry(c));
        assert(l[2 * k + 1] == c.extinf_line);
        assert(is_descriptor(l[2 * k + 1]));
        lemma_entries_of_rendered(cs, k + 1);
        assert(entry_of(c.extinf_line, c.url) == c);
        assert(cs.subrange(k, cs.len() as int) =~= seq![c] + cs.subrange(k + 1, cs.len() as int));
    }
}

/// Parsing the text of a playlist file holding entries such as the parser
/// yields gives back exactly those entries, in order.
pub proof fn lemma_render_parse_round_trip(cs: Seq<ChannelView>)
    requires
        forall|i: int| 0 <= i < cs.len() ==> is_parsed_entry(#[trigger] cs[i]),
    ensures
        parse_playlist(playlist_text(cs)) == cs,
{
    let t = playlist_text(cs);
    lemma_rendered_lines_split(cs);
    lemma_rendered_lines_index(cs);
    assert(t.len() > 0 && t.last() == '\n') by {
        if cs.len() == 0 {
            assert(t =~= header_line().push('\n'));
        } else {
            assert(t =~= header_line() + seq!['\n'] + entries_text(cs));
            assert(entries_text(cs).last() == '\n');
        }
    }
    assert(t.drop_last().push('\n') =~= t);
    lemma_split_append_newline(t.drop_last());
    let a = split_newlines(t.drop_last());
    assert(a.push(Seq::empty()) == rendered_lines(cs).push(Seq::empty()));
    assert(a =~= a.push(Seq::empty()).drop_last());
    assert(rendered_lines(cs) =~= rendered_lines(cs).push(Seq::empty()).drop_last());
    assert(text_lines(t) == a);
    assert(!is_descriptor(header_line())) by {
        assert(trim(header_line()) == header_line());
    }
    lemma_entries_of_rendered(cs, 0);
    assert(cs.subrange(0, cs.len() as int) =~= cs);
}

/// Rendering the entries parsed from a text and parsing the result gives
/// the same entries back.
pub proof fn lemma_reparse_rendered(text: Seq<char>)
    ensures
        parse_playlist(playlist_text(parse_playlist(text))) == parse_playlist(text),
{
    lemma_parsed_entries_well_formed(text);
    lemma_render_parse_round_trip(parse_playlist(text));
}

} // verus!
