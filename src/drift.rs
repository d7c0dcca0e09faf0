use vstd::prelude::*;
use vstd::string::StrSliceExecFns;
use crate::augmentation::Augmentation;
use crate::naming::is_numeral_letter;
use crate::pool::ChannelEntry;

verus! {

/// A name that could be a pool member's: a single line ending in a numeral letter.
pub open spec fn looks_numbered(name: Seq<char>) -> bool {
    &&& name.len() > 0
    &&& is_numeral_letter(name.last())
    &&& forall|i: int| 0 <= i < name.len() ==> #[trigger] name[i] != '\n'
}

pub fn is_numbered(name: &str) -> (r: bool)
    ensures
        r == looks_numbered(name@),
{
    let n = name.unicode_len();
    if n == 0 {
        return false;
    }
    let mut i: usize = 0;
    while i < n
        invariant
            n == name@.len(),
            i <= n,
            forall|j: int| 0 <= j < i ==> #[trigger] name@[j] != '\n',
        decreases n - i,
    {
        if name.get_char(i) == '\n' {
            return false;
        }
        i = i + 1;
    }
    let c = name.get_char(n - 1);
    c == 'I' || c == 'V' || c == 'X' || c == 'L' || c == 'C' || c == 'D' || c == 'M'
}

pub open spec fn groups_view(groups: Seq<Vec<usize>>) -> Seq<Seq<usize>> {
    groups.map_values(|g: Vec<usize>| g@)
}

pub open spec fn matrix_view(m: Seq<Vec<bool>>) -> Seq<Seq<bool>> {
    m.map_values(|row: Vec<bool>| row@)
}

/// The first group whose latest member is similar to channel `c`.
pub open spec fn first_joinable(groups: Seq<Seq<usize>>, similar: Seq<Seq<bool>>, c: usize) -> Option<int>
    decreases groups.len(),
{
    if groups.len() == 0 {
        None
    } else {
        match first_joinable(groups.drop_last(), similar, c) {
            Some(g) => Some(g),
            None => if similar[groups.last().last() as int][c as int] { Some(groups.len() - 1) } else { None },
        }
    }
}

/// The groups that greedy chaining builds from the first `count` channels:
/// each numbered-looking channel joins the first group whose latest member
/// is similar to it, or opens a group of its own.
pub open spec fn chained_groups(channels: Seq<ChannelEntry>, similar: Seq<Seq<bool>>, count: int) -> Seq<Seq<usize>>
    decreases count,
{
    if count <= 0 {
        seq![]
    } else {
        let groups = chained_groups(channels, similar, count - 1);
        let c = (count - 1) as usize;
        if !looks_numbered(channels[count - 1].name@) {
            groups
        } else {
            match first_joinable(groups, similar, c) {
                Some(g) => groups.update(g, groups[g].push(c)),
                None => groups.push(seq![c]),
            }
        }
    }
}

/// A group worth a warning: more than one channel, and its first channel
/// belongs to no registered augmentation.
pub open spec fn is_drift(group: Seq<usize>, channels: Seq<ChannelEntry>, augs: Seq<Augmentation>) -> bool {
    group.len() > 1 && !exists|a: int| 0 <= a < augs.len() && augs[a].owns(channels[group[0] as int].name@)
}

/// The groups of `groups` worth a warning, in order.
pub open spec fn drift_groups(groups: Seq<Seq<usize>>, channels: Seq<ChannelEntry>, augs: Seq<Augmentation>) -> Seq<Seq<usize>>
    decreases groups.len(),
{
    if groups.len() == 0 {
        seq![]
    } else {
        let rest = drift_groups(groups.drop_last(), channels, augs);
        if is_drift(groups.last(), channels, augs) {
            rest.push(groups.last())
        } else {
            rest
        }
    }
}

/// Every group is non-empty and holds channel positions below `bound`.
pub open spec fn groups_wf(groups: Seq<Seq<usize>>, bound: int) -> bool {
    forall|g: int| 0 <= g < groups.len() ==> #[trigger] groups[g].len() > 0
        && forall|j: int| 0 <= j < groups[g].len() ==> groups[g][j] < bound
}

proof fn lemma_first_joinable(groups: Seq<Seq<usize>>, similar: Seq<Seq<bool>>, c: usize)
    ensures
        first_joinable(groups, similar, c) matches Some(g) ==> 0 <= g < groups.len()
            && similar[groups[g].last() as int][c as int]
            && forall|h: int| 0 <= h < g ==> !similar[groups[h].last() as int][c as int],
        first_joinable(groups, similar, c) is None ==> forall|h: int| 0 <= h < groups.len()
            ==> !similar[groups[h].last() as int][c as int],
    decreases groups.len(),
{
    if groups.len() > 0 {
        lemma_first_joinable(groups.drop_last(), similar, c);
        assert forall|h: int| 0 <= h < groups.len() - 1 implies groups.drop_last()[h] == groups[h] by {}
    }
}

proof fn lemma_first_joinable_at(groups: Seq<Seq<usize>>, similar: Seq<Seq<bool>>, c: usize, g: int)
    requires
        0 <= g < groups.len(),
        similar[groups[g].last() as int][c as int],
        forall|h: int| 0 <= h < g ==> !similar[groups[h].last() as int][c as int],
    ensures
        first_joinable(groups, similar, c) == Some(g),
{
    lemma_first_joinable(groups, similar, c);
}

/// Groups the numbered-looking channels by greedy similarity chaining, where
/// `similar[i][j]` says whether channel `i`'s name is similar to channel
/// `j`'s; a channel is compared only with the latest member of each group.
pub fn chain_similar(channels: &Vec<ChannelEntry>, similar: &Vec<Vec<bool>>) -> (r: Vec<Vec<usize>>)
    requires
        similar@.len() == channels@.len(),
        forall|i: int| 0 <= i < similar@.len() ==> (#[trigger] similar@[i])@.len() == channels@.len(),
    ensures
        groups_view(r@) == chained_groups(channels@, matrix_view(similar@), channels@.len() as int),
        groups_wf(groups_view(r@), channels@.len() as int),
{
    let ghost m = matrix_view(similar@);
    let n = channels.len();
    let mut groups: Vec<Vec<usize>> = Vec::new();
    for c in 0..n
        invariant
            n == channels@.len(),
            m == matrix_view(similar@),
            similar@.len() == n,
            forall|i: int| 0 <= i < similar@.len() ==> (#[trigger] similar@[i])@.len() == n,
            groups_view(groups@) == chained_groups(channels@, m, c as int),
            groups_wf(groups_view(groups@), c as int),
    {
        if is_numbered(channels[c].name.as_str()) {
            let ghost before = groups_view(groups@);
            let mut g: usize = 0;
            let mut target: Option<usize> = None;
            while g < groups.len() && target.is_none()
                invariant
                    n == channels@.len(),
                    c < n,
                    m == matrix_view(similar@),
                    similar@.len() == n,
                    forall|i: int| 0 <= i < similar@.len() ==> (#[trigger] similar@[i])@.len() == n,
                    before == groups_view(groups@),
                    groups_wf(before, c as int),
                    g <= groups@.len(),
                    target matches Some(t) ==> first_joinable(before, m, c) == Some(t as int),
                    target is None ==> forall|h: int| 0 <= h < g ==> !m[before[h].last() as int][c as int],
                decreases groups@.len() - g,
            {
                assert(before[g as int] == groups@[g as int]@);
                let latest = groups[g][groups[g].len() - 1];
                assert(m[latest as int] == similar@[latest as int]@);
                if similar[latest][c] {
                    proof {
                        lemma_first_joinable_at(before, m, c, g as int);
                    }
                    target = Some(g);
                }
                g = g + 1;
            }
            match target {
                Some(t) => {
                    proof {
                        lemma_first_joinable(before, m, c);
                    }
                    assert(before.len() == groups@.len());
                    assert(before[t as int] == groups@[t as int]@);
                    groups[t].push(c);
                    assert(groups_view(groups@) =~= before.update(t as int, before[t as int].push(c)));
                },
                None => {
                    proof {
                        lemma_first_joinable(before, m, c);
                    }
                    let mut single: Vec<usize> = Vec::new();
                    single.push(c);
                    groups.push(single);
                    assert(groups_view(groups@) =~= before.push(seq![c]));
                },
            }
            assert(groups_view(groups@) == chained_groups(channels@, m, c + 1));
            assert(groups_wf(groups_view(groups@), c + 1)) by {
                let now = groups_view(groups@);
                assert forall|h: int| 0 <= h < now.len() implies #[trigger] now[h].len() > 0
                    && forall|j: int| 0 <= j < now[h].len() ==> now[h][j] < c + 1 by {
                    if h < before.len() && h != g {
                        assert forall|j: int| 0 <= j < now[h].len() implies now[h][j] < c + 1 by {
                            if j < before[h].len() {
                                assert(now[h][j] == before[h][j] || (h == g && j == before[h].len()));
                            }
                        }
                    }
                }
            }
        }
    }
    groups
}

fn copy_group(v: &Vec<usize>) -> (r: Vec<usize>)
    ensures
        r@ == v@,
{
    let mut r: Vec<usize> = Vec::new();
    for i in 0..v.len()
        invariant
            r@ == v@.subrange(0, i as int),
    {
        r.push(v[i]);
        assert(r@ =~= v@.subrange(0, i + 1));
    }
    assert(r@ =~= v@);
    r
}

/// Whether some registered augmentation owns a channel called `name`.
pub fn owned_by_any(augs: &Vec<Augmentation>, name: &str) -> (r: bool)
    ensures
        r == exists|a: int| 0 <= a < augs@.len() && augs@[a].owns(name@),
{
    for a in 0..augs.len()
        invariant
            forall|b: int| 0 <= b < a ==> !augs@[b].owns(name@),
    {
        if augs[a].is_instance(name) {
            return true;
        }
    }
    false
}

/// The groups of channels that look like a pool no registered augmentation
/// owns, which suggests a second, uncoordinated instance: groups built by
/// `chain_similar`, of more than one channel, whose first channel no
/// augmentation of `augs` owns.
pub fn potential_augmentations(channels: &Vec<ChannelEntry>, similar: &Vec<Vec<bool>>, augs: &Vec<Augmentation>) -> (r: Vec<Vec<usize>>)
    requires
        similar@.len() == channels@.len(),
        forall|i: int| 0 <= i < similar@.len() ==> (#[trigger] similar@[i])@.len() == channels@.len(),
    ensures
        groups_view(r@) == drift_groups(chained_groups(channels@, matrix_view(similar@), channels@.len() as int), channels@, augs@),
{
    let groups = chain_similar(channels, similar);
    let ghost all = groups_view(groups@);
    let mut r: Vec<Vec<usize>> = Vec::new();
    for g in 0..groups.len()
        invariant
            all == groups_view(groups@),
            groups_wf(all, channels@.len() as int),
            groups_view(r@) == drift_groups(all.subrange(0, g as int), channels@, augs@),
    {
        assert(all.subrange(0, g + 1).drop_last() =~= all.subrange(0, g as int));
        assert(all[g as int] == groups@[g as int]@);
        if groups[g].len() > 1 && !owned_by_any(augs, channels[groups[g][0]].name.as_str()) {
            let ghost before = groups_view(r@);
            r.push(copy_group(&groups[g]));
            assert(groups_view(r@) =~= before.push(all[g as int]));
        }
    }
    assert(all.subrange(0, groups@.len() as int) =~= all);
    r
}

} // verus!
