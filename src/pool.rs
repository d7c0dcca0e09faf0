use vstd::prelude::*;
use crate::augmentation::Augmentation;

verus! {

/// One channel of the live listing.
pub struct ChannelEntry {
    pub id: i32,
    pub name: String,
    pub parent_id: i32,
    /// The id of the channel this one is sorted after.
    pub order: i32,
    pub total_clients: i32,
}

/// What the pool logic reads of a channel.
pub struct Member {
    pub id: i32,
    pub name: Seq<char>,
    pub clients: int,
}

impl View for ChannelEntry {
    type V = Member;

    open spec fn view(&self) -> Member {
        Member { id: self.id, name: self.name@, clients: self.total_clients as int }
    }
}

pub open spec fn member_views(s: Seq<ChannelEntry>) -> Seq<Member> {
    s.map_values(|c: ChannelEntry| c@)
}

impl ChannelEntry {
    pub fn copy(&self) -> (r: ChannelEntry)
        ensures
            r == *self,
    {
        ChannelEntry {
            id: self.id,
            name: self.name.clone(),
            parent_id: self.parent_id,
            order: self.order,
            total_clients: self.total_clients,
        }
    }
}

/// The members of `aug`'s pool among `channels`, in listing order.
pub open spec fn pool_of(aug: Augmentation, channels: Seq<ChannelEntry>) -> Seq<Member>
    decreases channels.len(),
{
    if channels.len() == 0 {
        seq![]
    } else {
        let rest = pool_of(aug, channels.drop_last());
        if aug.owns(channels.last().name@) {
            rest.push(channels.last()@)
        } else {
            rest
        }
    }
}

/// Every member of a pool carries one of its augmentation's labels.
pub proof fn lemma_pool_owned(aug: Augmentation, channels: Seq<ChannelEntry>)
    ensures
        forall|i: int| 0 <= i < pool_of(aug, channels).len() ==> aug.owns(#[trigger] pool_of(aug, channels)[i].name),
    decreases channels.len(),
{
    if channels.len() > 0 {
        lemma_pool_owned(aug, channels.drop_last());
        let rest = pool_of(aug, channels.drop_last());
        assert forall|i: int| 0 <= i < pool_of(aug, channels).len() implies aug.owns(#[trigger] pool_of(aug, channels)[i].name) by {
            if i < rest.len() {
                assert(pool_of(aug, channels)[i] == rest[i]);
            }
        }
    }
}

/// The positions of the members without occupants, in order.
pub open spec fn empty_positions(pool: Seq<Member>) -> Seq<int>
    decreases pool.len(),
{
    if pool.len() == 0 {
        seq![]
    } else {
        let rest = empty_positions(pool.drop_last());
        if pool.last().clients == 0 {
            rest.push(pool.len() - 1)
        } else {
            rest
        }
    }
}

/// How a pool stands against its resting shape.
#[derive(PartialEq, Eq, Structural, Clone, Copy, Debug)]
pub enum PoolShape {
    /// No member is left.
    Vanished,
    /// One empty member and it is the last, or two members and both empty.
    Steady,
    /// No empty member.
    Starved,
    /// One empty member, not the last.
    MisplacedEmpty,
    /// Two or more empty members, other than the two-member steady case.
    ExcessEmpty,
}

pub open spec fn shape_of(pool: Seq<Member>) -> PoolShape {
    let k = empty_positions(pool).len();
    if pool.len() == 0 {
        PoolShape::Vanished
    } else if (k == 1 && pool.last().clients == 0) || (k == 2 && pool.len() == 2) {
        PoolShape::Steady
    } else if k == 0 {
        PoolShape::Starved
    } else if k == 1 {
        PoolShape::MisplacedEmpty
    } else {
        PoolShape::ExcessEmpty
    }
}

pub proof fn lemma_empty_positions(pool: Seq<Member>)
    ensures
        empty_positions(pool).len() <= pool.len(),
        forall|j: int| 0 <= j < empty_positions(pool).len() ==> {
            let p = #[trigger] empty_positions(pool)[j];
            0 <= p < pool.len() && pool[p].clients == 0
        },
        forall|j: int, l: int| 0 <= j < l < empty_positions(pool).len()
            ==> empty_positions(pool)[j] < empty_positions(pool)[l],
        forall|i: int| 0 <= i < pool.len() && pool[i].clients == 0
            ==> exists|j: int| 0 <= j < empty_positions(pool).len() && empty_positions(pool)[j] == i,
    decreases pool.len(),
{
    if pool.len() > 0 {
        let init = pool.drop_last();
        lemma_empty_positions(init);
        assert forall|i: int| 0 <= i < pool.len() && pool[i].clients == 0
            implies exists|j: int| 0 <= j < empty_positions(pool).len() && empty_positions(pool)[j] == i by {
            if i < pool.len() - 1 {
                assert(init[i] == pool[i]);
                let j = choose|j: int| 0 <= j < empty_positions(init).len() && empty_positions(init)[j] == i;
                assert(empty_positions(pool)[j] == i);
            } else {
                assert(empty_positions(pool)[empty_positions(pool).len() - 1] == i);
            }
        }
    }
}

/// The members of `aug`'s pool among `channels`, in listing order.
pub fn augmentation_instances(aug: &Augmentation, channels: &Vec<ChannelEntry>) -> (r: Vec<ChannelEntry>)
    ensures
        member_views(r@) == pool_of(*aug, channels@),
{
    let mut r: Vec<ChannelEntry> = Vec::new();
    for i in 0..channels.len()
        invariant
            member_views(r@) == pool_of(*aug, channels@.subrange(0, i as int)),
    {
        let ghost before = channels@.subrange(0, i as int);
        assert(channels@.subrange(0, i + 1).drop_last() =~= before);
        if aug.is_instance(channels[i].name.as_str()) {
            let ghost old_r = member_views(r@);
            r.push(channels[i].copy());
            assert(member_views(r@) =~= old_r.push(channels@[i as int]@));
        }
    }
    assert(channels@.subrange(0, channels.len() as int) =~= channels@);
    r
}

/// The positions of the members without occupants, in order.
pub fn empty_instances(pool: &Vec<ChannelEntry>) -> (r: Vec<usize>)
    ensures
        r@.len() == empty_positions(member_views(pool@)).len(),
        forall|j: int| 0 <= j < r@.len() ==> r@[j] as int == empty_positions(member_views(pool@))[j],
{
    let ghost all = member_views(pool@);
    let mut r: Vec<usize> = Vec::new();
    for i in 0..pool.len()
        invariant
            all == member_views(pool@),
            r@.len() == empty_positions(all.subrange(0, i as int)).len(),
            forall|j: int| 0 <= j < r@.len() ==> r@[j] as int == empty_positions(all.subrange(0, i as int))[j],
    {
        assert(all.subrange(0, i + 1).drop_last() =~= all.subrange(0, i as int));
        assert(all[i as int] == pool@[i as int]@);
        if pool[i].total_clients == 0 {
            r.push(i);
        }
    }
    assert(all.subrange(0, pool.len() as int) =~= all);
    r
}

/// Classifies a pool, given the positions of its empty members.
pub fn classify(pool: &Vec<ChannelEntry>) -> (r: PoolShape)
    ensures
        r == shape_of(member_views(pool@)),
{
    let empties = empty_instances(pool);
    let n = pool.len();
    let k = empties.len();
    assert(n > 0 ==> member_views(pool@).last() == pool@[n - 1]@);
    if n == 0 {
        PoolShape::Vanished
    } else if (k == 1 && pool[n - 1].total_clients == 0) || (k == 2 && n == 2) {
        PoolShape::Steady
    } else if k == 0 {
        PoolShape::Starved
    } else if k == 1 {
        PoolShape::MisplacedEmpty
    } else {
        PoolShape::ExcessEmpty
    }
}

} // verus!
