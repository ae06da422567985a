//! Grouping of entries by group name, in order of first appearance.
use vstd::prelude::*;
use crate::playlist::{channels_view, Channel, ChannelView};

verus! {

/// The distinct group names of `cs`, in order of first appearance.
pub open spec fn group_names(cs: Seq<ChannelView>) -> Seq<Seq<char>>
    decreases cs.len(),
{
    if cs.len() == 0 {
        Seq::empty()
    } else {
        let p = group_names(cs.drop_last());
        if p.contains(cs.last().group_name) {
            p
        } else {
            p.push(cs.last().group_name)
        }
    }
}

/// The entries of `cs` whose group is `g`, in order.
pub open spec fn members(cs: Seq<ChannelView>, g: Seq<char>) -> Seq<ChannelView>
    decreases cs.len(),
{
    if cs.len() == 0 {
        Seq::empty()
    } else if cs.last().group_name == g {
        members(cs.drop_last(), g).push(cs.last())
    } else {
        members(cs.drop_last(), g)
    }
}

/// The entries of one group, in their order in the source.
pub struct ChannelGroup {
    pub name: String,
    pub channels: Vec<Channel>,
}

/// `groups` is the grouping of `cs`: one group per distinct name, in order
/// of first appearance, each holding that name's entries in order.
pub open spec fn is_grouping_of(groups: Seq<ChannelGroup>, cs: Seq<ChannelView>) -> bool {
    &&& groups.len() == group_names(cs).len()
    &&& forall|k: int|
        0 <= k < groups.len() ==> (#[trigger] groups[k]).name@ == group_names(cs)[k]
            && channels_view(groups[k].channels@) == members(cs, group_names(cs)[k])
}

/// Copies an entry.
pub fn copy_channel(c: &Channel) -> (r: Channel)
    ensures
        r@ == c@,
{
    Channel {
        extinf_line: c.extinf_line.clone(),
        url: c.url.clone(),
        group_name: c.group_name.clone(),
    }
}

/// Partitions entries into groups by their group name. Groups come in the
/// order in which their names first appear, and each keeps its entries in
/// source order.
pub fn group_channels(channels: &Vec<Channel>) -> (r: Vec<ChannelGroup>)
    ensures
        is_grouping_of(r@, channels_view(channels@)),
        forall|j: int, k: int| 0 <= j < k < r@.len() ==> r@[j].name@ != r@[k].name@,
{
    let ghost cs = channels_view(channels@);
    let mut groups: Vec<ChannelGroup> = Vec::new();
    let mut i: usize = 0;
    assert(cs.subrange(0, 0) =~= Seq::<ChannelView>::empty());
    while i < channels.len()
        invariant
            cs == channels_view(channels@),
            i <= channels@.len(),
            is_grouping_of(groups@, cs.subrange(0, i as int)),
        decreases channels@.len() - i,
    {
        let ghost pre = cs.subrange(0, i as int);
        let ghost post = cs.subrange(0, i + 1);
        assert(post.drop_last() =~= pre);
        let ghost names = group_names(pre);
        let c = copy_channel(&channels[i]);
        assert(c@ == cs[i as int] && post.last() == c@);
        let mut k: usize = 0;
        let mut found = false;
        while k < groups.len() && !found
            invariant
                k <= groups@.len(),
                found ==> k < groups@.len() && names[k as int] == c@.group_name,
                is_grouping_of(groups@, pre),
                names == group_names(pre),
                forall|j: int| 0 <= j < k ==> names[j] != c@.group_name,
            decreases groups@.len() - k + (if found {
                0int
            } else {
                1int
            }),
        {
            if groups[k].name == c.group_name {
                found = true;
            } else {
                k += 1;
            }
        }
        let ghost old_groups = groups@;
        if found {
            proof {
                lemma_group_names_distinct(pre);
            }
            assert(names[k as int] == c@.group_name);
            assert(names.contains(c@.group_name));
            groups[k].channels.push(c);
            assert forall|j: int| 0 <= j < groups@.len() implies (#[trigger] groups@[j]).name@
                == group_names(post)[j] && channels_view(groups@[j].channels@) == members(
                post,
                group_names(post)[j],
            ) by {
                if j == k {
                    assert(channels_view(groups@[j].channels@) =~= channels_view(
                        old_groups[j].channels@,
                    ).push(c@));
                } else {
                    assert(groups@[j] == old_groups[j]);
                    assert(names[j] != names[k as int]);
                }
            }
        } else {
            assert(!names.contains(c@.group_name));
            let name = c.group_name.clone();
            let mut members_vec: Vec<Channel> = Vec::new();
            members_vec.push(c);
            groups.push(ChannelGroup { name, channels: members_vec });
            assert forall|j: int| 0 <= j < groups@.len() implies (#[trigger] groups@[j]).name@
                == group_names(post)[j] && channels_view(groups@[j].channels@) == members(
                post,
                group_names(post)[j],
            ) by {
                if j < k {
                    assert(groups@[j] == old_groups[j]);
                    assert(names[j] != c@.group_name);
                } else {
                    assert(members(pre, c@.group_name) =~= Seq::<ChannelView>::empty()) by {
                        lemma_members_absent(pre, c@.group_name);
                    }
                    assert(channels_view(groups@[j].channels@) =~= seq![c@]);
                }
            }
        }
        i += 1;
    }
    assert(cs.subrange(0, i as int) =~= cs);
    proof {
        lemma_group_names_distinct(cs);
    }
    groups
}

/// Every entry's group is one of the group names, so each entry lands in a
/// group, and, the names being distinct, in one only.
pub proof fn lemma_every_entry_grouped(cs: Seq<ChannelView>)
    ensures
        forall|i: int| 0 <= i < cs.len() ==> group_names(cs).contains(#[trigger] cs[i].group_name),
        group_names(cs).no_duplicates(),
    decreases cs.len(),
{
    lemma_group_names_distinct(cs);
    if cs.len() > 0 {
        let p = cs.drop_last();
        lemma_every_entry_grouped(p);
        let names = group_names(p);
        assert forall|i: int| 0 <= i < cs.len() implies group_names(cs).contains(
            #[trigger] cs[i].group_name,
        ) by {
            if i < p.len() {
                assert(cs[i] == p[i]);
                let j = choose|j: int| 0 <= j < names.len() && names[j] == p[i].group_name;
                if !names.contains(cs.last().group_name) {
                    assert(names.push(cs.last().group_name)[j] == names[j]);
                }
            } else {
                if !names.contains(cs.last().group_name) {
                    assert(names.push(cs.last().group_name)[names.len() as int]
                        == cs.last().group_name);
                }
            }
        }
    }
}

/// No name appears twice among the group names.
pub proof fn lemma_group_names_distinct(cs: Seq<ChannelView>)
    ensures
        group_names(cs).no_duplicates(),
    decreases cs.len(),
{
    if cs.len() > 0 {
        lemma_group_names_distinct(cs.drop_last());
    }
}

/// A name that is not among the group names has no members.
pub proof fn lemma_members_absent(cs: Seq<ChannelView>, g: Seq<char>)
    requires
        !group_names(cs).contains(g),
    ensures
        members(cs, g) == Seq::<ChannelView>::empty(),
    decreases cs.len(),
{
    if cs.len() > 0 {
        let p = group_names(cs.drop_last());
        if !p.contains(cs.last().group_name) {
            assert(p.push(cs.last().group_name).last() == cs.last().group_name);
        }
        assert forall|x: Seq<char>| p.contains(x) implies group_names(cs).contains(x) by {
            let j = choose|j: int| 0 <= j < p.len() && p[j] == x;
            if !p.contains(cs.last().group_name) {
                assert(p.push(cs.last().group_name)[j] == x);
            }
        }
        lemma_members_absent(cs.drop_last(), g);
    }
}

} // verus!
