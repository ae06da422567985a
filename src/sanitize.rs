//! Derivation of file-system-safe names from group names.
use vstd::prelude::*;
use crate::text::{chars_of, is_ws, string_of, trim, trim_chars, trim_end, trim_start};

verus! {

/// The characters a file name keeps: ASCII letters and digits, `-`, `_` and space.
pub open spec fn is_safe(c: char) -> bool {
    ('a' <= c && c <= 'z') || ('A' <= c && c <= 'Z') || ('0' <= c && c <= '9') || c == '-'
        || c == '_' || c == ' '
}

/// The characters of `s` that are safe, in order.
pub open spec fn keep_safe(s: Seq<char>) -> Seq<char>
    decreases s.len(),
{
    if s.len() == 0 {
        Seq::empty()
    } else if is_safe(s.last()) {
        keep_safe(s.drop_last()).push(s.last())
    } else {
        keep_safe(s.drop_last())
    }
}

/// `s` with each space replaced by an underscore.
pub open spec fn spaces_to_underscores(s: Seq<char>) -> Seq<char> {
    s.map_values(|c: char| if c == ' ' { '_' } else { c })
}

/// The sanitized form of a group name: unsafe characters dropped, the rest
/// trimmed, and each remaining space turned into an underscore.
pub open spec fn sanitized(s: Seq<char>) -> Seq<char> {
    spaces_to_underscores(trim(keep_safe(s)))
}

/// The name of the file that holds a group: its sanitized name and `.m3u`.
pub open spec fn group_file_name(s: Seq<char>) -> Seq<char> {
    sanitized(s) + seq!['.', 'm', '3', 'u']
}

fn is_safe_exec(c: char) -> (r: bool)
    ensures
        r == is_safe(c),
{
    ('a' <= c && c <= 'z') || ('A' <= c && c <= 'Z') || ('0' <= c && c <= '9') || c == '-'
        || c == '_' || c == ' '
}

fn sanitize_chars(s: &Vec<char>) -> (r: Vec<char>)
    ensures
        r@ == sanitized(s@),
{
    let mut kept: Vec<char> = Vec::new();
    let mut i: usize = 0;
    while i < s.len()
        invariant
            i <= s@.len(),
            kept@ == keep_safe(s@.subrange(0, i as int)),
        decreases s@.len() - i,
    {
        assert(s@.subrange(0, i + 1).drop_last() =~= s@.subrange(0, i as int));
        if is_safe_exec(s[i]) {
            kept.push(s[i]);
        }
        i += 1;
    }
    assert(s@.subrange(0, i as int) =~= s@);
    let t = trim_chars(&kept);
    let mut out: Vec<char> = Vec::new();
    let mut j: usize = 0;
    while j < t.len()
        invariant
            j <= t@.len(),
            out@ == spaces_to_underscores(t@).subrange(0, j as int),
        decreases t@.len() - j,
    {
        if t[j] == ' ' {
            out.push('_');
        } else {
            out.push(t[j]);
        }
        assert(out@ =~= spaces_to_underscores(t@).subrange(0, j + 1));
        j += 1;
    }
    assert(out@ =~= spaces_to_underscores(t@));
    out
}

/// Turns a group name into a string that is safe as a file name: only ASCII
/// letters, digits, `-`, `_` and spaces are kept, the result is trimmed, and
/// each remaining space becomes an underscore.
pub fn sanitize_filename(group_name: &str) -> (r: String)
    ensures
        r@ == sanitized(group_name@),
{
    let s = chars_of(group_name);
    let out = sanitize_chars(&s);
    string_of(&out)
}

/// The name of the file written for a group: the sanitized group name
/// followed by `.m3u`.
pub fn output_file_name(group_name: &str) -> (r: String)
    ensures
        r@ == group_file_name(group_name@),
{
    let s = chars_of(group_name);
    let mut out = sanitize_chars(&s);
    out.push('.');
    out.push('m');
    out.push('3');
    out.push('u');
    assert(out@ =~= group_file_name(group_name@));
    string_of(&out)
}

proof fn lemma_keep_safe_is_safe(s: Seq<char>)
    ensures
        forall|i: int| 0 <= i < keep_safe(s).len() ==> is_safe(#[trigger] keep_safe(s)[i]),
    decreases s.len(),
{
    if s.len() > 0 {
        let p = keep_safe(s.drop_last());
        lemma_keep_safe_is_safe(s.drop_last());
        assert forall|i: int| 0 <= i < keep_safe(s).len() implies is_safe(
            #[trigger] keep_safe(s)[i],
        ) by {
            if is_safe(s.last()) && i < p.len() {
                assert(keep_safe(s)[i] == p[i]);
            }
        }
    }
}

proof fn lemma_keep_safe_of_safe(s: Seq<char>)
    requires
        forall|i: int| 0 <= i < s.len() ==> is_safe(#[trigger] s[i]),
    ensures
        keep_safe(s) == s,
    decreases s.len(),
{
    if s.len() > 0 {
        lemma_keep_safe_of_safe(s.drop_last());
        assert(s.drop_last().push(s.last()) =~= s);
    }
}

proof fn lemma_keep_safe_of_unsafe(s: Seq<char>)
    requires
        forall|i: int| 0 <= i < s.len() ==> !is_safe(#[trigger] s[i]),
    ensures
        keep_safe(s) == Seq::<char>::empty(),
    decreases s.len(),
{
    if s.len() > 0 {
        lemma_keep_safe_of_unsafe(s.drop_last());
    }
}

proof fn lemma_trim_start_keeps_safe(s: Seq<char>)
    requires
        forall|i: int| 0 <= i < s.len() ==> is_safe(#[trigger] s[i]),
    ensures
        forall|i: int| 0 <= i < trim_start(s).len() ==> is_safe(#[trigger] trim_start(s)[i]),
    decreases s.len(),
{
    if s.len() > 0 && is_ws(s[0]) {
        assert forall|i: int| 0 <= i < s.drop_first().len() implies is_safe(
            #[trigger] s.drop_first()[i],
        ) by {
            assert(s.drop_first()[i] == s[i + 1]);
        }
        lemma_trim_start_keeps_safe(s.drop_first());
        assert(trim_start(s) == trim_start(s.drop_first()));
    } else {
        assert(trim_start(s) == s);
    }
}

proof fn lemma_trim_end_keeps_safe(s: Seq<char>)
    requires
        forall|i: int| 0 <= i < s.len() ==> is_safe(#[trigger] s[i]),
    ensures
        forall|i: int| 0 <= i < trim_end(s).len() ==> is_safe(#[trigger] trim_end(s)[i]),
    decreases s.len(),
{
    if s.len() > 0 && is_ws(s.last()) {
        assert forall|i: int| 0 <= i < s.drop_last().len() implies is_safe(
            #[trigger] s.drop_last()[i],
        ) by {
            assert(s.drop_last()[i] == s[i]);
        }
        lemma_trim_end_keeps_safe(s.drop_last());
        assert(trim_end(s) == trim_end(s.drop_last()));
    } else {
        assert(trim_end(s) == s);
    }
}

/// Every character of a sanitized name is safe and none is a space.
pub proof fn lemma_sanitized_chars(s: Seq<char>)
    ensures
        forall|i: int|
            0 <= i < sanitized(s).len() ==> is_safe(#[trigger] sanitized(s)[i]) && sanitized(
                s,
            )[i] != ' ',
{
    lemma_keep_safe_is_safe(s);
    lemma_trim_start_keeps_safe(keep_safe(s));
    lemma_trim_end_keeps_safe(trim_start(keep_safe(s)));
}

/// Sanitizing is idempotent: a sanitized name sanitizes to itself.
pub proof fn lemma_sanitize_idempotent(s: Seq<char>)
    ensures
        sanitized(sanitized(s)) == sanitized(s),
{
    let t = sanitized(s);
    lemma_sanitized_chars(s);
    lemma_keep_safe_of_safe(t);
    assert(forall|i: int| 0 <= i < t.len() ==> !is_ws(#[trigger] t[i]));
    assert(trim_start(t) == t);
    assert(trim_end(t) == t);
    assert(spaces_to_underscores(t) =~= t);
}

/// A name made only of characters that are not safe sanitizes to the empty string.
pub proof fn lemma_sanitize_unsafe_only(s: Seq<char>)
    requires
        forall|i: int| 0 <= i < s.len() ==> !is_safe(#[trigger] s[i]),
    ensures
        sanitized(s) == Seq::<char>::empty(),
{
    lemma_keep_safe_of_unsafe(s);
    assert(sanitized(s) =~= Seq::<char>::empty());
}

/// After unsafe characters are dropped and the ends trimmed, each space that
/// remains, however many stand together, becomes one underscore, and every
/// other character stays where it is.
pub proof fn lemma_sanitize_spaces(s: Seq<char>)
    ensures
        sanitized(s).len() == trim(keep_safe(s)).len(),
        forall|i: int|
            0 <= i < sanitized(s).len() ==> (trim(keep_safe(s))[i] == ' ' ==> #[trigger] sanitized(
                s,
            )[i] == '_') && (trim(keep_safe(s))[i] != ' ' ==> sanitized(s)[i] == trim(
                keep_safe(s),
            )[i]),
{
}

} // verus!
