use vstd::prelude::*;
use vstd::string::StrSliceExecFns;
use vstd::seq_lib::{to_multiset_contains, to_multiset_insert, to_multiset_remove};
use crate::augmentation::Augmentation;
use crate::helper::{Channel, Client};

verus! {

/// The position of the first of `channels` with this id.
pub open spec fn first_with_id(channels: Seq<Channel>, id: i32) -> Option<int>
    decreases channels.len(),
{
    if channels.len() == 0 {
        None
    } else {
        match first_with_id(channels.drop_last(), id) {
            Some(j) => Some(j),
            None => if channels.last().id == id { Some(channels.len() - 1) } else { None },
        }
    }
}

/// The depth of a channel below the root, from the depths of the channels
/// listed before it: 0 at the root, one more than its parent's, or 1 when
/// its parent is not listed before it.
pub open spec fn level_of(channel: Channel, earlier: Seq<Channel>, earlier_levels: Seq<int>) -> int {
    if channel.parent_id == 0 {
        0
    } else {
        match first_with_id(earlier, channel.parent_id) {
            Some(j) => earlier_levels[j] + 1,
            None => 1,
        }
    }
}

/// The depths of the first `n` channels in listing order.
pub open spec fn levels(channels: Seq<Channel>, n: nat) -> Seq<int>
    decreases n,
{
    if n == 0 {
        seq![]
    } else {
        let prev = levels(channels, (n - 1) as nat);
        prev.push(level_of(channels[n - 1], channels.take(n - 1), prev))
    }
}

proof fn lemma_first_with_id(channels: Seq<Channel>, id: i32)
    ensures
        first_with_id(channels, id) matches Some(j) ==> 0 <= j < channels.len() && channels[j].id == id
            && forall|k: int| 0 <= k < j ==> channels[k].id != id,
        first_with_id(channels, id) is None ==> forall|k: int| 0 <= k < channels.len() ==> channels[k].id != id,
    decreases channels.len(),
{
    if channels.len() > 0 {
        lemma_first_with_id(channels.drop_last(), id);
        assert forall|k: int| 0 <= k < channels.len() - 1 implies channels.drop_last()[k] == channels[k] by {}
    }
}

proof fn lemma_levels_len(channels: Seq<Channel>, n: nat)
    ensures
        levels(channels, n).len() == n,
    decreases n,
{
    if n > 0 {
        lemma_levels_len(channels, (n - 1) as nat);
    }
}

/// A channel with a new indent level and nothing else changed.
pub open spec fn with_indent(c: Channel, level: int) -> Channel {
    Channel { indent_level: level as i32, ..c }
}

/// Sets each channel's indent level to its depth; see `levels`.
pub fn set_indent_levels(channels: &mut Vec<Channel>)
    requires
        old(channels)@.len() < 0x7fff_ffff,
    ensures
        final(channels)@.len() == old(channels)@.len(),
        forall|i: int| 0 <= i < old(channels)@.len() ==> #[trigger] final(channels)@[i]
            == with_indent(old(channels)@[i], levels(old(channels)@, old(channels)@.len())[i]),
{
    let ghost original = channels@;
    let n = channels.len();
    let mut found: Vec<i32> = Vec::new();
    let mut i: usize = 0;
    while i < n
        invariant
            n == original.len(),
            n < 0x7fff_ffff,
            channels@.len() == n,
            i <= n,
            found@.len() == i,
            forall|j: int| 0 <= j < i ==> found@[j] as int == levels(original, i as nat)[j],
            forall|j: int| 0 <= j < i ==> 0 <= #[trigger] found@[j] <= j + 1,
            forall|j: int| 0 <= j < n ==> channels@[j].id == original[j].id && channels@[j].parent_id == original[j].parent_id,
            forall|j: int| 0 <= j < i ==> #[trigger] channels@[j] == with_indent(original[j], found@[j] as int),
            forall|j: int| i <= j < n ==> #[trigger] channels@[j] == original[j],
        decreases n - i,
    {
        proof {
            lemma_levels_len(original, i as nat);
            lemma_first_with_id(original.take(i as int), original[i as int].parent_id);
        }
        let parent = channels[i].parent_id;
        let ghost earlier = original.take(i as int);
        let mut j: usize = 0;
        let mut pos: Option<usize> = None;
        while j < i && pos.is_none()
            invariant
                i < n,
                n == original.len(),
                channels@.len() == n,
                earlier == original.take(i as int),
                forall|k: int| 0 <= k < n ==> channels@[k].id == original[k].id,
                j <= i,
                pos matches Some(p) ==> first_with_id(earlier, parent) == Some(p as int) && p < i,
                pos is None ==> forall|k: int| 0 <= k < j ==> earlier[k].id != parent,
            decreases i - j,
        {
            if channels[j].id == parent {
                proof {
                    lemma_first_with_id(earlier, parent);
                    assert(earlier[j as int] == original[j as int]);
                    assert(earlier[j as int].id == parent);
                }
                pos = Some(j);
            }
            j = j + 1;
        }
        proof {
            lemma_first_with_id(earlier, parent);
        }
        let level: i32 = if parent == 0 {
            0
        } else {
            match pos {
                Some(p) => found[p] + 1,
                None => 1,
            }
        };
        let ghost prev = levels(original, i as nat);
        assert(levels(original, (i + 1) as nat) == prev.push(level_of(original[i as int], original.take(i as int), prev)));
        assert(level as int == level_of(original[i as int], original.take(i as int), prev));
        channels[i].indent_level = level;
        found.push(level);
        i = i + 1;
    }
}

/// A channel of `aug`'s pool as the dashboard marks it.
pub open spec fn marked(c: Channel, aug: Augmentation, color: Seq<char>) -> bool {
    &&& c.is_augmented
    &&& c.augmentation_id matches Some(id) && id@ == aug.identifier@
    &&& c.highlight_color matches Some(h) && h@ == color
}

/// Marks every channel of `aug`'s pool as augmented, with its identifier and
/// highlight color; other channels are left as they are.
pub fn mark_augmented(channels: &mut Vec<Channel>, aug: &Augmentation, color: &String)
    ensures
        final(channels)@.len() == old(channels)@.len(),
        forall|i: int| 0 <= i < old(channels)@.len() ==> {
            let (before, after) = (old(channels)@[i], #[trigger] final(channels)@[i]);
            if aug.owns(before.name@) {
                marked(after, *aug, color@) && after.id == before.id && after.name == before.name
                    && after.parent_id == before.parent_id && after.talk_power == before.talk_power
                    && after.indent_level == before.indent_level
            } else {
                after == before
            }
        },
{
    let ghost original = channels@;
    let n = channels.len();
    for i in 0..n
        invariant
            n == original.len(),
            channels@.len() == n,
            forall|j: int| i <= j < n ==> #[trigger] channels@[j] == original[j],
            forall|j: int| 0 <= j < i ==> {
                let (before, after) = (original[j], #[trigger] channels@[j]);
                if aug.owns(before.name@) {
                    marked(after, *aug, color@) && after.id == before.id && after.name == before.name
                        && after.parent_id == before.parent_id && after.talk_power == before.talk_power
                        && after.indent_level == before.indent_level
                } else {
                    after == before
                }
            },
    {
        if aug.is_instance(channels[i].name.as_str()) {
            channels[i].is_augmented = true;
            channels[i].augmentation_id = Some(aug.identifier.clone());
            channels[i].highlight_color = Some(color.clone());
        }
    }
}

/// Lets every client whose talk power reaches the channel's needed talk
/// power talk; a client already allowed stays allowed.
pub fn update_can_talk(clients: &mut Vec<Client>, needed: i32)
    ensures
        final(clients)@.len() == old(clients)@.len(),
        forall|i: int| 0 <= i < old(clients)@.len() ==> #[trigger] final(clients)@[i]
            == (Client { can_talk: old(clients)@[i].can_talk || old(clients)@[i].talk_power >= needed, ..old(clients)@[i] }),
{
    let ghost original = clients@;
    let n = clients.len();
    for i in 0..n
        invariant
            n == original.len(),
            clients@.len() == n,
            forall|j: int| i <= j < n ==> #[trigger] clients@[j] == original[j],
            forall|j: int| 0 <= j < i ==> #[trigger] clients@[j]
                == (Client { can_talk: original[j].can_talk || original[j].talk_power >= needed, ..original[j] }),
    {
        if clients[i].talk_power >= needed {
            clients[i].can_talk = true;
        }
    }
}

/// `a` comes before `b` in character order, a proper prefix first.
pub open spec fn text_less(a: Seq<char>, b: Seq<char>) -> bool
    decreases a.len(),
{
    if a.len() == 0 {
        b.len() > 0
    } else if b.len() == 0 {
        false
    } else if a[0] != b[0] {
        (a[0] as u32) < (b[0] as u32)
    } else {
        text_less(a.drop_first(), b.drop_first())
    }
}

proof fn lemma_text_less_transitive(a: Seq<char>, b: Seq<char>, c: Seq<char>)
    requires
        text_less(a, b),
        text_less(b, c),
    ensures
        text_less(a, c),
    decreases a.len(),
{
    if a.len() > 0 && b.len() > 0 && c.len() > 0 && a[0] == b[0] && b[0] == c[0] {
        lemma_text_less_transitive(a.drop_first(), b.drop_first(), c.drop_first());
    }
}

proof fn lemma_text_less_irreflexive(a: Seq<char>)
    ensures
        !text_less(a, a),
    decreases a.len(),
{
    if a.len() > 0 {
        lemma_text_less_irreflexive(a.drop_first());
    }
}

/// Whether `a` comes before `b` in character order.
pub fn name_less(a: &str, b: &str) -> (r: bool)
    ensures
        r == text_less(a@, b@),
{
    let n = a.unicode_len();
    let m = b.unicode_len();
    let mut i: usize = 0;
    assert(a@.subrange(0, n as int) =~= a@);
    assert(b@.subrange(0, m as int) =~= b@);
    while i < n && i < m && a.get_char(i) == b.get_char(i)
        invariant
            n == a@.len(),
            m == b@.len(),
            i <= n,
            i <= m,
            text_less(a@, b@) == text_less(a@.subrange(i as int, n as int), b@.subrange(i as int, m as int)),
        decreases n - i,
    {
        let ghost (x, y) = (a@.subrange(i as int, n as int), b@.subrange(i as int, m as int));
        assert(x.drop_first() =~= a@.subrange(i + 1, n as int));
        assert(y.drop_first() =~= b@.subrange(i + 1, m as int));
        i = i + 1;
    }
    let ghost (x, y) = (a@.subrange(i as int, n as int), b@.subrange(i as int, m as int));
    if i == n {
        i < m
    } else if i == m {
        false
    } else {
        assert(x[0] == a@[i as int] && y[0] == b@[i as int]);
        (a.get_char(i) as u32) < (b.get_char(i) as u32)
    }
}

/// The dashboard's order of clients: higher talk power first, then by name.
pub open spec fn client_before(a: Client, b: Client) -> bool {
    a.talk_power > b.talk_power || (a.talk_power == b.talk_power && text_less(a.name@, b.name@))
}

pub open spec fn clients_sorted(s: Seq<Client>) -> bool {
    forall|i: int, j: int| 0 <= i < j < s.len() ==> !client_before(#[trigger] s[j], #[trigger] s[i])
}

proof fn lemma_client_before_transitive(a: Client, b: Client, c: Client)
    requires
        client_before(a, b),
        client_before(b, c),
    ensures
        client_before(a, c),
{
    if a.talk_power == b.talk_power && b.talk_power == c.talk_power {
        lemma_text_less_transitive(a.name@, b.name@, c.name@);
    }
}

fn comes_before(a: &Client, b: &Client) -> (r: bool)
    ensures
        r == client_before(*a, *b),
{
    a.talk_power > b.talk_power || (a.talk_power == b.talk_power && name_less(a.name.as_str(), b.name.as_str()))
}

/// Orders clients by the dashboard's order, keeping clients that compare
/// equal in the order they came.
pub fn sort_clients(clients: Vec<Client>) -> (r: Vec<Client>)
    ensures
        clients_sorted(r@),
        r@.to_multiset() == clients@.to_multiset(),
{
    broadcast use vstd::multiset::group_multiset_axioms, vstd::seq_lib::group_to_multiset_ensures;

    let mut rest = clients;
    let mut r: Vec<Client> = Vec::new();
    let ghost original = rest@;
    assert(r@.to_multiset().add(rest@.to_multiset()) =~= original.to_multiset());
    while rest.len() > 0
        invariant
            clients_sorted(r@),
            r@.to_multiset().add(rest@.to_multiset()) == original.to_multiset(),
        decreases rest@.len(),
    {
        let ghost before_rest = rest@;
        let x = rest.remove(0);
        proof {
            to_multiset_remove(before_rest, 0);
        }
        let mut p: usize = 0;
        while p < r.len() && !comes_before(&x, &r[p])
            invariant
                p <= r@.len(),
                forall|k: int| 0 <= k < p ==> !client_before(x, #[trigger] r@[k]),
            decreases r@.len() - p,
        {
            p = p + 1;
        }
        let ghost before = r@;
        proof {
            if p < before.len() {
                assert(client_before(x, before[p as int]));
            }
        }
        r.insert(p, x);
        proof {
            to_multiset_insert(before, p as int, x);
            assert(before_rest[0] == x);
            to_multiset_contains(before_rest, x);
            assert(before_rest.to_multiset().count(x) > 0);
            assert(r@.to_multiset().add(rest@.to_multiset()) =~= original.to_multiset());
            assert forall|i: int, j: int| 0 <= i < j < r@.len() implies !client_before(#[trigger] r@[j], #[trigger] r@[i]) by {
                if i < p && j == p {
                } else if i == p && j > p {
                    if client_before(r@[j], x) {
                        assert(r@[j] == before[j - 1]);
                        lemma_client_before_transitive(before[j - 1], x, before[p as int]);
                        if j - 1 == p {
                            lemma_text_less_irreflexive(before[p as int].name@);
                        }
                    }
                } else {
                    let a = if i < p { i } else { i - 1 };
                    let b = if j < p { j } else { j - 1 };
                    assert(r@[i] == before[a] && r@[j] == before[b]);
                }
            }
        }
    }
    assert(r@.to_multiset().add(rest@.to_multiset()) =~= r@.to_multiset());
    r
}

} // verus!
