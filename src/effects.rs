use vstd::prelude::*;
use crate::augmentation::{Augmentation, AugmentationPrefix, PropertyView, property_views};
use crate::plan::{OperationView, rename_step};
use crate::pool::{ChannelEntry, Member, PoolShape, empty_positions, lemma_empty_positions, pool_of, shape_of};
use crate::reconcile::{create_plain, delete_steps, drop_cut, extend_steps, pool_steps, recovery_steps, recovery_tail, relabel_steps, survivors};
use crate::naming::{label_at, member_name};

verus! {

/// The first position of a member with this id.
pub open spec fn position_with_id(pool: Seq<Member>, id: i32) -> Option<int>
    decreases pool.len(),
{
    if pool.len() == 0 {
        None
    } else {
        match position_with_id(pool.drop_last(), id) {
            Some(p) => Some(p),
            None => if pool.last().id == id { Some(pool.len() - 1) } else { None },
        }
    }
}

/// The channel a new channel is sorted after: its last `Order` attribute.
pub open spec fn order_target(props: Seq<PropertyView>) -> Option<i32>
    decreases props.len(),
{
    if props.len() == 0 {
        None
    } else {
        match props.last() {
            PropertyView::Order(after) => Some(after),
            _ => order_target(props.drop_last()),
        }
    }
}

/// What one operation does to the members of a pool, where the server gives
/// a created channel the id `fresh`. Renamed members are taken to stay in the
/// pool, as the labels the planners write do.
pub open spec fn apply_step(pool: Seq<Member>, op: OperationView, fresh: i32) -> Seq<Member> {
    match op {
        OperationView::Create { name, properties, permissions } => {
            let created = Member { id: fresh, name, clients: 0 };
            match order_target(properties) {
                Some(after) => match position_with_id(pool, after) {
                    Some(p) => pool.insert(p + 1, created),
                    None => pool.push(created),
                },
                None => pool.push(created),
            }
        },
        OperationView::Rename { id, name } => Seq::new(
            pool.len(),
            |i: int| if pool[i].id == id { Member { id: pool[i].id, name, clients: pool[i].clients } } else { pool[i] },
        ),
        OperationView::Delete { id } => match position_with_id(pool, id) {
            Some(p) => pool.remove(p),
            None => pool,
        },
        OperationView::MoveOccupants { from, to } => {
            let moved = match position_with_id(pool, from) {
                Some(p) => pool[p].clients,
                None => 0,
            };
            if from == to {
                pool
            } else {
                Seq::new(
                    pool.len(),
                    |i: int| if pool[i].id == from {
                        Member { id: pool[i].id, name: pool[i].name, clients: 0 }
                    } else if pool[i].id == to {
                        Member { id: pool[i].id, name: pool[i].name, clients: pool[i].clients + moved }
                    } else {
                        pool[i]
                    },
                )
            }
        },
        OperationView::Grant { .. } => pool,
    }
}

/// What a sequence of operations does to a pool, in order.
pub open spec fn apply_steps(pool: Seq<Member>, ops: Seq<OperationView>, fresh: i32) -> Seq<Member>
    decreases ops.len(),
{
    if ops.len() == 0 {
        pool
    } else {
        apply_step(apply_steps(pool, ops.drop_last(), fresh), ops.last(), fresh)
    }
}

pub open spec fn ids_distinct(pool: Seq<Member>) -> bool {
    forall|i: int, j: int| 0 <= i < j < pool.len() ==> pool[i].id != pool[j].id
}

/// Two pools that agree on length, ids and occupant counts.
pub open spec fn same_occupancy(a: Seq<Member>, b: Seq<Member>) -> bool {
    &&& a.len() == b.len()
    &&& forall|i: int| 0 <= i < a.len() ==> a[i].id == b[i].id && a[i].clients == b[i].clients
}

proof fn lemma_position_with_id(pool: Seq<Member>, id: i32)
    ensures
        position_with_id(pool, id) matches Some(p) ==> 0 <= p < pool.len() && pool[p].id == id,
        position_with_id(pool, id) is None ==> forall|i: int| 0 <= i < pool.len() ==> pool[i].id != id,
    decreases pool.len(),
{
    if pool.len() > 0 {
        lemma_position_with_id(pool.drop_last(), id);
        assert forall|i: int| 0 <= i < pool.len() - 1 implies pool.drop_last()[i] == pool[i] by {}
    }
}

proof fn lemma_apply_concat(pool: Seq<Member>, a: Seq<OperationView>, b: Seq<OperationView>, fresh: i32)
    ensures
        apply_steps(pool, a + b, fresh) == apply_steps(apply_steps(pool, a, fresh), b, fresh),
    decreases b.len(),
{
    if b.len() == 0 {
        assert(a + b =~= a);
    } else {
        assert((a + b).drop_last() =~= a + b.drop_last());
        lemma_apply_concat(pool, a, b.drop_last(), fresh);
    }
}

proof fn lemma_same_occupancy_empties(a: Seq<Member>, b: Seq<Member>)
    requires
        same_occupancy(a, b),
    ensures
        empty_positions(a) == empty_positions(b),
    decreases a.len(),
{
    if a.len() > 0 {
        lemma_same_occupancy_empties(a.drop_last(), b.drop_last());
    }
}

proof fn lemma_rename_keeps_occupancy(pool: Seq<Member>, steps: Seq<OperationView>, fresh: i32)
    requires
        forall|i: int| 0 <= i < steps.len() ==> #[trigger] steps[i] is Rename,
    ensures
        same_occupancy(pool, apply_steps(pool, steps, fresh)),
    decreases steps.len(),
{
    if steps.len() > 0 {
        lemma_rename_keeps_occupancy(pool, steps.drop_last(), fresh);
        assert(steps[steps.len() - 1] is Rename);
    }
}

proof fn lemma_relabel_renames(prefix: AugmentationPrefix, identifier: Seq<char>, members: Seq<Member>, count: int)
    ensures
        forall|i: int| 0 <= i < relabel_steps(prefix, identifier, members, count).len()
            ==> #[trigger] relabel_steps(prefix, identifier, members, count)[i] is Rename,
    decreases count,
{
    if count > 0 {
        lemma_relabel_renames(prefix, identifier, members, count - 1);
    }
}

/// Only the last member is empty.
proof fn lemma_only_last_empty(pool: Seq<Member>)
    requires
        pool.len() > 0,
        pool.last().clients == 0,
        forall|i: int| 0 <= i < pool.len() - 1 ==> pool[i].clients != 0,
    ensures
        empty_positions(pool) == seq![pool.len() - 1],
{
    lemma_no_empty(pool.drop_last());
    assert(empty_positions(pool.drop_last()).push(pool.len() - 1) =~= seq![pool.len() - 1]);
}

proof fn lemma_no_empty(pool: Seq<Member>)
    requires
        forall|i: int| 0 <= i < pool.len() ==> pool[i].clients != 0,
    ensures
        empty_positions(pool) == Seq::<int>::empty(),
    decreases pool.len(),
{
    if pool.len() > 0 {
        lemma_no_empty(pool.drop_last());
    }
}

proof fn lemma_steady_plans_nothing(aug: Augmentation, pool: Seq<Member>)
    requires
        pool.len() > 0,
        pool.last().clients == 0,
        forall|i: int| 0 <= i < pool.len() - 1 ==> pool[i].clients != 0,
    ensures
        shape_of(pool) == PoolShape::Steady,
        pool_steps(aug, pool) == Seq::<OperationView>::empty(),
{
    lemma_only_last_empty(pool);
}

/// One pass of the reconciler, as its operations act on the pool.
pub open spec fn after_pass(aug: Augmentation, pool: Seq<Member>, fresh: i32) -> Seq<Member> {
    apply_steps(pool, pool_steps(aug, pool), fresh)
}

proof fn lemma_position_distinct(pool: Seq<Member>, i: int)
    requires
        ids_distinct(pool),
        0 <= i < pool.len(),
    ensures
        position_with_id(pool, pool[i].id) == Some(i),
{
    lemma_position_with_id(pool, pool[i].id);
}

proof fn lemma_count_update(pool: Seq<Member>, j: int, m: Member)
    requires
        0 <= j < pool.len(),
    ensures
        empty_positions(pool.update(j, m)).len() as int == empty_positions(pool).len() as int
            - (if pool[j].clients == 0 { 1int } else { 0int }) + (if m.clients == 0 { 1int } else { 0int }),
    decreases pool.len(),
{
    let q = pool.update(j, m);
    if j == pool.len() - 1 {
        assert(q.drop_last() =~= pool.drop_last());
    } else {
        assert(q.drop_last() =~= pool.drop_last().update(j, m));
        lemma_count_update(pool.drop_last(), j, m);
    }
}

proof fn lemma_count_remove(pool: Seq<Member>, j: int)
    requires
        0 <= j < pool.len(),
    ensures
        empty_positions(pool.remove(j)).len() as int == empty_positions(pool).len() as int
            - (if pool[j].clients == 0 { 1int } else { 0int }),
    decreases pool.len(),
{
    let q = pool.remove(j);
    if j == pool.len() - 1 {
        assert(q =~= pool.drop_last());
    } else {
        assert(q.drop_last() =~= pool.drop_last().remove(j));
        assert(q.last() == pool.last());
        lemma_count_remove(pool.drop_last(), j);
    }
}

proof fn lemma_apply_one(pool: Seq<Member>, op: OperationView, fresh: i32)
    ensures
        apply_steps(pool, seq![op], fresh) == apply_step(pool, op, fresh),
{
    assert(seq![op].drop_last() =~= Seq::<OperationView>::empty());
    assert(apply_steps(pool, Seq::<OperationView>::empty(), fresh) == pool);
    assert(seq![op].last() == op);
}

proof fn lemma_order_target_push(props: Seq<PropertyView>, after: i32)
    ensures
        order_target(props.push(PropertyView::Order(after))) == Some(after),
{
}

/// What one pass does to the shape: a starved pool, or one whose single
/// empty member is not the last, comes out steady; a pool with excess empty
/// members loses one member and one empty member, keeps distinct ids, and
/// ends with an empty member; with just two empty members it comes out
/// steady. A steady or vanished pool is left as it is.
pub proof fn lemma_one_pass(aug: Augmentation, pool: Seq<Member>, fresh: i32)
    requires
        ids_distinct(pool),
    ensures
        shape_of(pool) is Starved || shape_of(pool) is MisplacedEmpty
            || (shape_of(pool) is ExcessEmpty && empty_positions(pool).len() == 2) ==> {
            let next = after_pass(aug, pool, fresh);
            &&& next.len() > 0
            &&& next.last().clients == 0
            &&& forall|i: int| 0 <= i < next.len() - 1 ==> next[i].clients != 0
        },
        shape_of(pool) is ExcessEmpty ==> {
            let next = after_pass(aug, pool, fresh);
            &&& next.len() == pool.len() - 1
            &&& empty_positions(next).len() == empty_positions(pool).len() - 1
            &&& next.len() > 0
            &&& next.last().clients == 0
            &&& ids_distinct(next)
        },
        shape_of(pool) is Steady || shape_of(pool) is Vanished ==> after_pass(aug, pool, fresh) == pool,
{
    let n = pool.len() as int;
    let e = empty_positions(pool);
    let k = e.len() as int;
    lemma_empty_positions(pool);
    let steps = pool_steps(aug, pool);
    match shape_of(pool) {
        PoolShape::Starved => {
            let create = extend_steps(aug, pool)[0];
            let renames = rename_step(pool[n - 1], member_name(aug.prefix.middle@, aug.identifier@, n as nat));
            assert(steps =~= seq![create] + renames);
            lemma_apply_concat(pool, seq![create], renames, fresh);
            lemma_apply_one(pool, create, fresh);
            lemma_position_distinct(pool, n - 1);
            lemma_order_target_push(property_views(aug.properties@), pool[n - 1].id);
            let grown = apply_steps(pool, seq![create], fresh);
            assert(grown =~= pool.push(Member { id: fresh, name: member_name(aug.prefix.last@, aug.identifier@, (n + 1) as nat), clients: 0 }));
            assert forall|i: int| 0 <= i < renames.len() implies #[trigger] renames[i] is Rename by {}
            lemma_rename_keeps_occupancy(grown, renames, fresh);
            assert forall|i: int| 0 <= i < n implies pool[i].clients != 0 by {
                if pool[i].clients == 0 {
                    let j = choose|j: int| 0 <= j < e.len() && e[j] == i;
                }
            }
        },
        PoolShape::MisplacedEmpty => {
            let e0 = e[0];
            assert(pool.last().clients != 0);
            assert(e0 != n - 1);
            lemma_position_distinct(pool, n - 1);
            let mv = OperationView::MoveOccupants { from: pool.last().id, to: pool[e0].id };
            assert(steps =~= seq![mv]);
            lemma_apply_one(pool, mv, fresh);
            let next = after_pass(aug, pool, fresh);
            assert forall|i: int| 0 <= i < n - 1 implies next[i].clients != 0 by {
                if i != e0 && pool[i].clients == 0 {
                    let j = choose|j: int| 0 <= j < e.len() && e[j] == i;
                }
            }
        },
        PoolShape::ExcessEmpty => {
            let e0 = e[0];
            let el = e[k - 1];
            assert(e0 < el);
            let kept = pool.remove(e0);
            let delete = seq![OperationView::Delete { id: pool[e0].id }];
            let middle: Seq<OperationView> = if pool[n - 1].clients == 0 {
                seq![]
            } else {
                seq![OperationView::MoveOccupants { from: pool[n - 1].id, to: pool[el].id }]
            };
            let renames = relabel_steps(aug.prefix, aug.identifier@, kept, kept.len() as int);
            assert(steps =~= delete + middle + renames);
            lemma_apply_concat(pool, delete + middle, renames, fresh);
            lemma_apply_concat(pool, delete, middle, fresh);
            lemma_apply_one(pool, delete[0], fresh);
            assert(delete =~= seq![delete[0]]);
            lemma_position_distinct(pool, e0);
            assert(apply_steps(pool, delete, fresh) == kept);
            lemma_count_remove(pool, e0);
            assert(ids_distinct(kept)) by {
                assert forall|i: int, j: int| 0 <= i < j < kept.len() implies kept[i].id != kept[j].id by {
                    let a = if i < e0 { i } else { i + 1 };
                    let b = if j < e0 { j } else { j + 1 };
                    assert(kept[i] == pool[a] && kept[j] == pool[b]);
                }
            }
            let moved = apply_steps(kept, middle, fresh);
            if pool[n - 1].clients == 0 {
                assert(moved == kept);
            } else {
                lemma_apply_one(kept, middle[0], fresh);
                assert(middle =~= seq![middle[0]]);
                assert(kept[n - 2] == pool[n - 1]);
                assert(kept[el - 1] == pool[el]);
                lemma_position_distinct(kept, n - 2);
                let once = kept.update(el - 1, Member { id: pool[el].id, name: pool[el].name, clients: pool[n - 1].clients });
                let twice = once.update(n - 2, Member { id: pool[n - 1].id, name: pool[n - 1].name, clients: 0 });
                assert(moved =~= twice);
                lemma_count_update(kept, el - 1, once[el - 1]);
                lemma_count_update(once, n - 2, twice[n - 2]);
            }
            assert(ids_distinct(moved));
            lemma_relabel_renames(aug.prefix, aug.identifier@, kept, kept.len() as int);
            lemma_rename_keeps_occupancy(moved, renames, fresh);
            let next = apply_steps(moved, renames, fresh);
            lemma_same_occupancy_empties(moved, next);
            if k == 2 {
                assert forall|i: int| 0 <= i < next.len() - 1 implies next[i].clients != 0 by {
                    let a = if i < e0 { i } else { i + 1 };
                    assert(kept[i] == pool[a]);
                    if pool[a].clients == 0 {
                        let j = choose|j: int| 0 <= j < e.len() && e[j] == a;
                    }
                }
            }
        },
        _ => {},
    }
}

/// A pass over a pool with no more than two empty members leaves it steady
/// or vanished, so a second pass right after plans no operation. The created
/// member gets the id `fresh`.
pub proof fn lemma_second_pass_idle(aug: Augmentation, pool: Seq<Member>, fresh: i32)
    requires
        ids_distinct(pool),
        empty_positions(pool).len() <= 2,
    ensures
        pool_steps(aug, after_pass(aug, pool, fresh)) == Seq::<OperationView>::empty(),
{
    lemma_one_pass(aug, pool, fresh);
    let next = after_pass(aug, pool, fresh);
    if !(shape_of(pool) is Steady || shape_of(pool) is Vanished) {
        lemma_steady_plans_nothing(aug, next);
    }
}

/// The pool after `count` passes, pass `i` giving a created member the id
/// `fresh[i]`.
pub open spec fn after_passes(aug: Augmentation, pool: Seq<Member>, fresh: Seq<i32>, count: nat) -> Seq<Member>
    decreases count,
{
    if count == 0 {
        pool
    } else {
        after_passes(aug, after_pass(aug, pool, fresh[0]), fresh.drop_first(), (count - 1) as nat)
    }
}

/// How many passes a pool needs at most: one, or one less than its number of
/// empty members when that is more.
pub open spec fn pass_bound(pool: Seq<Member>) -> nat {
    let k = empty_positions(pool).len();
    if k <= 1 { 1 } else { (k - 1) as nat }
}

/// From any shape with at least one member and distinct ids, repeated passes
/// reach the steady shape within `pass_bound` passes: one for a starved pool,
/// a misplaced empty member or a steady pool, and `k - 1` for a pool with
/// `k >= 2` empty members.
pub proof fn lemma_passes_converge(aug: Augmentation, pool: Seq<Member>, fresh: Seq<i32>)
    requires
        pool.len() > 0,
        ids_distinct(pool),
        fresh.len() >= pass_bound(pool),
    ensures
        shape_of(after_passes(aug, pool, fresh, pass_bound(pool))) == PoolShape::Steady,
    decreases empty_positions(pool).len(),
{
    let k = empty_positions(pool).len();
    lemma_one_pass(aug, pool, fresh[0]);
    let next = after_pass(aug, pool, fresh[0]);
    assert(after_passes(aug, next, fresh.drop_first(), 0) == next);
    match shape_of(pool) {
        PoolShape::Steady => {},
        PoolShape::ExcessEmpty => {
            if k == 2 {
                lemma_steady_plans_nothing(aug, next);
            } else {
                lemma_passes_converge(aug, next, fresh.drop_first());
            }
        },
        _ => {
            lemma_steady_plans_nothing(aug, next);
        },
    }
}

/// Recovery of an augmentation with no member left creates exactly two
/// members from the template, labelled "<first>identifier I" and
/// "<last>identifier II"; both start without occupants.
pub proof fn lemma_recovery_from_nothing(aug: Augmentation, channels: Seq<ChannelEntry>, fresh: i32)
    requires
        pool_of(aug, channels).len() == 0,
    ensures
        recovery_steps(aug, channels) == seq![
            create_plain(aug, member_name(aug.prefix.first@, aug.identifier@, 1)),
            create_plain(aug, member_name(aug.prefix.last@, aug.identifier@, 2)),
        ],
        apply_steps(Seq::<Member>::empty(), recovery_steps(aug, channels), fresh) == seq![
            Member { id: fresh, name: member_name(aug.prefix.first@, aug.identifier@, 1), clients: 0 },
            Member { id: fresh, name: member_name(aug.prefix.last@, aug.identifier@, 2), clients: 0 },
        ],
        member_name(aug.prefix.first@, aug.identifier@, 1) == aug.prefix.first@ + aug.identifier@ + seq![' ', 'I'],
        member_name(aug.prefix.last@, aug.identifier@, 2) == aug.prefix.last@ + aug.identifier@ + seq![' ', 'I', 'I'],
{
    crate::naming::lemma_small_numerals();
    assert(member_name(aug.prefix.first@, aug.identifier@, 1) =~= aug.prefix.first@ + aug.identifier@ + seq![' ', 'I']);
    assert(member_name(aug.prefix.last@, aug.identifier@, 2) =~= aug.prefix.last@ + aug.identifier@ + seq![' ', 'I', 'I']);
    let steps = recovery_steps(aug, channels);
    let first = steps[0];
    let second = steps[1];
    assert(steps =~= seq![first] + seq![second]);
    lemma_apply_concat(Seq::<Member>::empty(), seq![first], seq![second], fresh);
    lemma_apply_one(Seq::<Member>::empty(), first, fresh);
    let one = apply_steps(Seq::<Member>::empty(), seq![first], fresh);
    lemma_apply_one(one, second, fresh);
    assert(one =~= seq![Member { id: fresh, name: member_name(aug.prefix.first@, aug.identifier@, 1), clients: 0 }]) by {
        lemma_position_with_id(Seq::<Member>::empty(), 0);
        if let Some(after) = order_target(property_views(aug.properties@)) {
            lemma_position_with_id(Seq::<Member>::empty(), after);
        }
    }
    if let Some(after) = order_target(property_views(aug.properties@)) {
        lemma_position_with_id(one, after);
    }
}

/// All occupants of a pool.
pub open spec fn total_clients(pool: Seq<Member>) -> int
    decreases pool.len(),
{
    if pool.len() == 0 { 0 } else { total_clients(pool.drop_last()) + pool.last().clients }
}

proof fn lemma_total_update(pool: Seq<Member>, j: int, m: Member)
    requires
        0 <= j < pool.len(),
    ensures
        total_clients(pool.update(j, m)) == total_clients(pool) - pool[j].clients + m.clients,
    decreases pool.len(),
{
    let q = pool.update(j, m);
    if j == pool.len() - 1 {
        assert(q.drop_last() =~= pool.drop_last());
    } else {
        assert(q.drop_last() =~= pool.drop_last().update(j, m));
        lemma_total_update(pool.drop_last(), j, m);
    }
}

proof fn lemma_total_remove(pool: Seq<Member>, j: int)
    requires
        0 <= j < pool.len(),
    ensures
        total_clients(pool.remove(j)) == total_clients(pool) - pool[j].clients,
    decreases pool.len(),
{
    let q = pool.remove(j);
    if j == pool.len() - 1 {
        assert(q =~= pool.drop_last());
    } else {
        assert(q.drop_last() =~= pool.drop_last().remove(j));
        assert(q.last() == pool.last());
        lemma_total_remove(pool.drop_last(), j);
    }
}

proof fn lemma_total_same_occupancy(a: Seq<Member>, b: Seq<Member>)
    requires
        same_occupancy(a, b),
    ensures
        total_clients(a) == total_clients(b),
    decreases a.len(),
{
    if a.len() > 0 {
        lemma_total_same_occupancy(a.drop_last(), b.drop_last());
    }
}

/// Relabelling renames each member to its label by position, and only that.
proof fn lemma_relabel_effect(
    prefix: AugmentationPrefix,
    identifier: Seq<char>,
    members: Seq<Member>,
    pool: Seq<Member>,
    count: int,
    fresh: i32,
)
    requires
        ids_distinct(pool),
        pool.len() == members.len(),
        forall|i: int| 0 <= i < pool.len() ==> pool[i].id == members[i].id && pool[i].name == members[i].name,
        0 <= count <= members.len(),
    ensures
        ({
            let after = apply_steps(pool, relabel_steps(prefix, identifier, members, count), fresh);
            &&& same_occupancy(pool, after)
            &&& forall|i: int| 0 <= i < after.len() ==> #[trigger] after[i].name == if i < count {
                label_at(prefix, identifier, i, members.len() as int)
            } else {
                pool[i].name
            }
        }),
    decreases count,
{
    if count > 0 {
        lemma_relabel_effect(prefix, identifier, members, pool, count - 1, fresh);
        let c = count - 1;
        let label = label_at(prefix, identifier, c, members.len() as int);
        let before = apply_steps(pool, relabel_steps(prefix, identifier, members, c), fresh);
        let step = rename_step(members[c], label);
        lemma_apply_concat(pool, relabel_steps(prefix, identifier, members, c), step, fresh);
        if members[c].name != label {
            lemma_apply_one(before, step[0], fresh);
            assert(step =~= seq![step[0]]);
        } else {
            assert(step =~= Seq::<OperationView>::empty());
        }
    }
}

/// The contraction of a pool with excess empty members meets its four
/// requirements: the pool loses exactly one member; every member left carries
/// the label of its new position; no occupant is lost or gained; and the pool
/// ends steady or with one empty member fewer, its last member empty.
pub proof fn lemma_contraction(aug: Augmentation, pool: Seq<Member>, fresh: i32)
    requires
        ids_distinct(pool),
        shape_of(pool) is ExcessEmpty,
    ensures
        ({
            let next = after_pass(aug, pool, fresh);
            &&& next.len() == pool.len() - 1
            &&& forall|i: int| 0 <= i < next.len() ==> #[trigger] next[i].name
                == label_at(aug.prefix, aug.identifier@, i, next.len() as int)
            &&& total_clients(next) == total_clients(pool)
            &&& next.last().clients == 0
            &&& empty_positions(next).len() == empty_positions(pool).len() - 1
        }),
{
    lemma_one_pass(aug, pool, fresh);
    lemma_empty_positions(pool);
    let n = pool.len() as int;
    let e = empty_positions(pool);
    let k = e.len() as int;
    let e0 = e[0];
    let el = e[k - 1];
    let kept = pool.remove(e0);
    let delete = seq![OperationView::Delete { id: pool[e0].id }];
    let middle: Seq<OperationView> = if pool[n - 1].clients == 0 {
        seq![]
    } else {
        seq![OperationView::MoveOccupants { from: pool[n - 1].id, to: pool[el].id }]
    };
    let renames = relabel_steps(aug.prefix, aug.identifier@, kept, kept.len() as int);
    assert(pool_steps(aug, pool) =~= delete + middle + renames);
    lemma_apply_concat(pool, delete + middle, renames, fresh);
    lemma_apply_concat(pool, delete, middle, fresh);
    lemma_apply_one(pool, delete[0], fresh);
    assert(delete =~= seq![delete[0]]);
    lemma_position_distinct(pool, e0);
    lemma_total_remove(pool, e0);
    assert(ids_distinct(kept)) by {
        assert forall|i: int, j: int| 0 <= i < j < kept.len() implies kept[i].id != kept[j].id by {
            let a = if i < e0 { i } else { i + 1 };
            let b = if j < e0 { j } else { j + 1 };
            assert(kept[i] == pool[a] && kept[j] == pool[b]);
        }
    }
    let moved = apply_steps(kept, middle, fresh);
    if pool[n - 1].clients != 0 {
        lemma_apply_one(kept, middle[0], fresh);
        assert(middle =~= seq![middle[0]]);
        assert(kept[n - 2] == pool[n - 1]);
        assert(kept[el - 1] == pool[el]);
        lemma_position_distinct(kept, n - 2);
        let once = kept.update(el - 1, Member { id: pool[el].id, name: pool[el].name, clients: pool[n - 1].clients });
        let twice = once.update(n - 2, Member { id: pool[n - 1].id, name: pool[n - 1].name, clients: 0 });
        assert(moved =~= twice);
        lemma_total_update(kept, el - 1, once[el - 1]);
        lemma_total_update(once, n - 2, twice[n - 2]);
    }
    assert(ids_distinct(moved));
    lemma_relabel_effect(aug.prefix, aug.identifier@, kept, moved, kept.len() as int, fresh);
    lemma_total_same_occupancy(moved, apply_steps(moved, renames, fresh));
}

/// Every operation of `ops` deletes a channel other than `id`.
pub open spec fn deletes_other_than(ops: Seq<OperationView>, id: i32) -> bool {
    forall|i: int| 0 <= i < ops.len() ==> (#[trigger] ops[i] is Delete && ops[i]->Delete_id != id)
}

/// A position holding `id` before which none does is what the search finds.
proof fn lemma_first_position(pool: Seq<Member>, id: i32, p: int)
    requires
        0 <= p < pool.len(),
        pool[p].id == id,
        forall|j: int| 0 <= j < p ==> pool[j].id != id,
    ensures
        position_with_id(pool, id) == Some(p),
    decreases pool.len(),
{
    if p < pool.len() - 1 {
        lemma_first_position(pool.drop_last(), id, p);
    } else {
        lemma_position_with_id(pool.drop_last(), id);
        if let Some(q) = position_with_id(pool.drop_last(), id) {
            assert(pool.drop_last()[q] == pool[q]);
        }
    }
}

proof fn lemma_first_position_is_first(pool: Seq<Member>, id: i32)
    ensures
        position_with_id(pool, id) matches Some(p) ==> forall|j: int| 0 <= j < p ==> pool[j].id != id,
    decreases pool.len(),
{
    if pool.len() > 0 {
        lemma_first_position_is_first(pool.drop_last(), id);
        lemma_position_with_id(pool.drop_last(), id);
        assert forall|j: int| 0 <= j < pool.len() - 1 implies pool.drop_last()[j] == pool[j] by {}
    }
}

proof fn lemma_delete_push(q: Seq<Member>, x: Member, id: i32, fresh: i32)
    requires
        id != x.id,
    ensures
        apply_step(q.push(x), OperationView::Delete { id }, fresh) == apply_step(q, OperationView::Delete { id }, fresh).push(x),
{
    lemma_position_with_id(q, id);
    lemma_position_with_id(q.push(x), id);
    lemma_first_position_is_first(q, id);
    match position_with_id(q, id) {
        Some(p) => {
            assert forall|j: int| 0 <= j < p implies q.push(x)[j].id != id by {
                assert(q.push(x)[j] == q[j]);
            }
            lemma_first_position(q.push(x), id, p);
            assert(q.push(x).remove(p) =~= q.remove(p).push(x));
        },
        None => {
            if let Some(p) = position_with_id(q.push(x), id) {
                if p < q.len() {
                    assert(q.push(x)[p] == q[p]);
                }
            }
        },
    }
}

proof fn lemma_delete_frame(pool: Seq<Member>, x: Member, ops: Seq<OperationView>, fresh: i32)
    requires
        deletes_other_than(ops, x.id),
    ensures
        apply_steps(pool.push(x), ops, fresh) == apply_steps(pool, ops, fresh).push(x),
    decreases ops.len(),
{
    if ops.len() > 0 {
        let init = ops.drop_last();
        assert(deletes_other_than(init, x.id)) by {
            assert forall|i: int| 0 <= i < init.len() implies (#[trigger] init[i] is Delete && init[i]->Delete_id != x.id) by {
                assert(init[i] == ops[i]);
            }
        }
        lemma_delete_frame(pool, x, init, fresh);
        assert(ops[ops.len() - 1] == ops.last());
        lemma_delete_push(apply_steps(pool, init, fresh), x, ops.last()->Delete_id, fresh);
    }
}

/// Whether recovery deletes the member at position `j`.
pub open spec fn dropped_at(pool: Seq<Member>, cut: int, j: int) -> bool {
    pool[j].clients == 0 && j < cut
}

proof fn lemma_survivor_origin(pool: Seq<Member>, cut: int)
    ensures
        survivors(pool, cut).len() <= pool.len(),
        forall|i: int| 0 <= i < survivors(pool, cut).len() ==> exists|j: int| 0 <= j < pool.len()
            && #[trigger] survivors(pool, cut)[i] == pool[j] && !dropped_at(pool, cut, j),
    decreases pool.len(),
{
    if pool.len() > 0 {
        let init = pool.drop_last();
        lemma_survivor_origin(init, cut);
        let s = survivors(pool, cut);
        let si = survivors(init, cut);
        assert forall|i: int| 0 <= i < s.len() implies exists|j: int| 0 <= j < pool.len()
            && #[trigger] s[i] == pool[j] && !dropped_at(pool, cut, j) by {
            if i < si.len() {
                let j = choose|j: int| 0 <= j < init.len() && #[trigger] si[i] == init[j] && !dropped_at(init, cut, j);
                assert(s[i] == si[i] && init[j] == pool[j]);
            } else {
                assert(s[i] == pool[pool.len() - 1]);
            }
        }
    }
}

proof fn lemma_survivor_present(pool: Seq<Member>, cut: int)
    ensures
        forall|j: int| 0 <= j < pool.len() && !dropped_at(pool, cut, j)
            ==> exists|i: int| 0 <= i < survivors(pool, cut).len() && survivors(pool, cut)[i] == #[trigger] pool[j],
    decreases pool.len(),
{
    if pool.len() > 0 {
        let init = pool.drop_last();
        lemma_survivor_present(init, cut);
        let s = survivors(pool, cut);
        let si = survivors(init, cut);
        assert forall|j: int| 0 <= j < pool.len() && !dropped_at(pool, cut, j)
            implies exists|i: int| 0 <= i < s.len() && s[i] == #[trigger] pool[j] by {
            if j < pool.len() - 1 {
                assert(init[j] == pool[j]);
                let i = choose|i: int| 0 <= i < si.len() && si[i] == #[trigger] init[j];
                assert(s[i] == si[i]);
            } else {
                assert(s[s.len() - 1] == pool[j]);
            }
        }
    }
}

proof fn lemma_survivors_distinct(pool: Seq<Member>, cut: int)
    requires
        ids_distinct(pool),
    ensures
        ids_distinct(survivors(pool, cut)),
    decreases pool.len(),
{
    if pool.len() > 0 {
        let init = pool.drop_last();
        lemma_survivors_distinct(init, cut);
        lemma_survivor_origin(init, cut);
        let s = survivors(pool, cut);
        let si = survivors(init, cut);
        assert forall|a: int, b: int| 0 <= a < b < s.len() implies s[a].id != s[b].id by {
            if b < si.len() {
                assert(s[a] == si[a] && s[b] == si[b]);
            } else {
                let ja = choose|j: int| 0 <= j < init.len() && #[trigger] si[a] == init[j] && !dropped_at(init, cut, j);
                assert(s[a] == si[a] && init[ja] == pool[ja]);
                assert(s[b] == pool.last());
            }
        }
    }
}

proof fn lemma_delete_ids(pool: Seq<Member>, cut: int)
    ensures
        forall|i: int| 0 <= i < delete_steps(pool, cut).len() ==> exists|j: int| 0 <= j < pool.len()
            && (#[trigger] delete_steps(pool, cut)[i] == OperationView::Delete { id: pool[j].id }),
    decreases pool.len(),
{
    if pool.len() > 0 {
        let init = pool.drop_last();
        lemma_delete_ids(init, cut);
        let d = delete_steps(pool, cut);
        let di = delete_steps(init, cut);
        assert forall|i: int| 0 <= i < d.len() implies exists|j: int| 0 <= j < pool.len()
            && (#[trigger] d[i] == OperationView::Delete { id: pool[j].id }) by {
            if i < di.len() {
                let j = choose|j: int| 0 <= j < init.len() && (#[trigger] di[i] == OperationView::Delete { id: init[j].id });
                assert(d[i] == di[i] && init[j] == pool[j]);
            } else {
                assert(d[i] == OperationView::Delete { id: pool[pool.len() - 1].id });
            }
        }
    }
}

/// Applying recovery's deletions leaves exactly its survivors.
proof fn lemma_apply_deletes(pool: Seq<Member>, cut: int, fresh: i32)
    requires
        ids_distinct(pool),
    ensures
        apply_steps(pool, delete_steps(pool, cut), fresh) == survivors(pool, cut),
    decreases pool.len(),
{
    if pool.len() == 0 {
        assert(apply_steps(pool, Seq::<OperationView>::empty(), fresh) == pool);
    } else {
        let init = pool.drop_last();
        let x = pool.last();
        assert(ids_distinct(init));
        lemma_apply_deletes(init, cut, fresh);
        lemma_delete_ids(init, cut);
        lemma_survivor_origin(init, cut);
        let di = delete_steps(init, cut);
        assert(deletes_other_than(di, x.id)) by {
            assert forall|i: int| 0 <= i < di.len() implies (#[trigger] di[i] is Delete && di[i]->Delete_id != x.id) by {
                let j = choose|j: int| 0 <= j < init.len() && (#[trigger] di[i] == OperationView::Delete { id: init[j].id });
                assert(init[j] == pool[j]);
            }
        }
        assert(init.push(x) =~= pool);
        lemma_delete_frame(init, x, di, fresh);
        if x.clients == 0 && pool.len() - 1 < cut {
            let si = survivors(init, cut);
            let op = OperationView::Delete { id: x.id };
            assert(delete_steps(pool, cut).drop_last() =~= di);
            assert forall|j: int| 0 <= j < si.len() implies si.push(x)[j].id != x.id by {
                let k = choose|k: int| 0 <= k < init.len() && #[trigger] si[j] == init[k] && !dropped_at(init, cut, k);
                assert(init[k] == pool[k]);
                assert(si.push(x)[j] == si[j]);
            }
            lemma_first_position(si.push(x), x.id, si.len() as int);
            assert(si.push(x).remove(si.len() as int) =~= si);
        }
    }
}

/// Start-up recovery leaves any pool that has a member, with distinct ids,
/// in the steady shape.
pub proof fn lemma_recovery_settles(aug: Augmentation, channels: Seq<ChannelEntry>, fresh: i32)
    requires
        pool_of(aug, channels).len() > 0,
        ids_distinct(pool_of(aug, channels)),
    ensures
        shape_of(apply_steps(pool_of(aug, channels), recovery_steps(aug, channels), fresh)) == PoolShape::Steady,
{
    let pool = pool_of(aug, channels);
    let cut = drop_cut(pool);
    let kept = survivors(pool, cut);
    let deletes = delete_steps(pool, cut);
    let renames = relabel_steps(aug.prefix, aug.identifier@, kept, kept.len() as int);
    let tail = recovery_tail(aug, pool);
    assert(recovery_steps(aug, channels) == deletes + renames + tail);
    lemma_apply_concat(pool, deletes + renames, tail, fresh);
    lemma_apply_concat(pool, deletes, renames, fresh);
    lemma_apply_deletes(pool, cut, fresh);
    lemma_relabel_renames(aug.prefix, aug.identifier@, kept, kept.len() as int);
    lemma_rename_keeps_occupancy(kept, renames, fresh);
    lemma_survivors_distinct(pool, cut);
    let relabelled = apply_steps(kept, renames, fresh);
    lemma_recovery_tail_settles(aug, pool, relabelled, fresh);
}

/// The last step of recovery, after deletions and relabelling, leaves the
/// pool steady.
proof fn lemma_recovery_tail_settles(aug: Augmentation, pool: Seq<Member>, relabelled: Seq<Member>, fresh: i32)
    requires
        pool.len() > 0,
        ids_distinct(pool),
        same_occupancy(survivors(pool, drop_cut(pool)), relabelled),
        ids_distinct(survivors(pool, drop_cut(pool))),
    ensures
        shape_of(apply_steps(relabelled, recovery_tail(aug, pool), fresh)) == PoolShape::Steady,
{
    let n = pool.len() as int;
    let e = empty_positions(pool);
    let k = e.len() as int;
    let cut = drop_cut(pool);
    let kept = survivors(pool, cut);
    let tail = recovery_tail(aug, pool);
    let result = apply_steps(relabelled, tail, fresh);
    lemma_empty_positions(pool);
    lemma_survivor_origin(pool, cut);
    lemma_survivor_present(pool, cut);
    assert(ids_distinct(relabelled));
    if k == 0 {
        lemma_recovery_full(aug, pool, relabelled, fresh);
    } else if k == n {
        lemma_all_empty_positions(pool);
        lemma_survivors_all_empty(pool, cut);
        assert(tail =~= Seq::<OperationView>::empty());
        assert(result == relabelled);
        assert(forall|i: int| 0 <= i < result.len() ==> #[trigger] result[i].clients == kept[i].clients);
        if n >= 2 {
            assert(kept.len() == 2);
        }
        lemma_steady_or_two(aug, result);
    } else {
        lemma_recovery_mixed(aug, pool, relabelled, fresh);
    }
}

proof fn lemma_recovery_full(aug: Augmentation, pool: Seq<Member>, relabelled: Seq<Member>, fresh: i32)
    requires
        pool.len() > 0,
        empty_positions(pool).len() == 0,
        same_occupancy(survivors(pool, drop_cut(pool)), relabelled),
        ids_distinct(relabelled),
    ensures
        shape_of(apply_steps(relabelled, recovery_tail(aug, pool), fresh)) == PoolShape::Steady,
{
    let n = pool.len() as int;
    let e = empty_positions(pool);
    let cut = drop_cut(pool);
    let kept = survivors(pool, cut);
    let tail = recovery_tail(aug, pool);
    lemma_empty_positions(pool);
    lemma_survivor_origin(pool, cut);
    assert(cut == 0);
    assert forall|i: int| 0 <= i < n implies pool[i].clients != 0 by {
        if pool[i].clients == 0 {
            let j = choose|j: int| 0 <= j < e.len() && e[j] == i;
        }
    }
    assert(kept.len() > 0 && kept.last() == pool.last());
    assert forall|i: int| 0 <= i < kept.len() implies kept[i].clients != 0 by {
        let j = choose|j: int| 0 <= j < pool.len() && #[trigger] kept[i] == pool[j] && !dropped_at(pool, cut, j);
    }
    let create = tail[0];
    let rest = tail.drop_first();
    assert(tail =~= seq![create] + rest);
    lemma_apply_concat(relabelled, seq![create], rest, fresh);
    lemma_apply_one(relabelled, create, fresh);
    lemma_position_distinct(relabelled, relabelled.len() - 1);
    lemma_order_target_push(property_views(aug.properties@), pool[n - 1].id);
    let grown = apply_steps(relabelled, seq![create], fresh);
    assert(grown =~= relabelled.push(Member {
        id: fresh,
        name: member_name(aug.prefix.last@, aug.identifier@, (n + 1) as nat),
        clients: 0,
    }));
    assert forall|i: int| 0 <= i < rest.len() implies #[trigger] rest[i] is Rename by {}
    lemma_rename_keeps_occupancy(grown, rest, fresh);
    let result = apply_steps(grown, rest, fresh);
    lemma_steady_or_two(aug, result);
}

/// With some but not all members empty, recovery keeps the last empty
/// member and every occupied one, and no other.
proof fn lemma_mixed_survivors(pool: Seq<Member>)
    requires
        pool.len() > 0,
        0 < empty_positions(pool).len() < pool.len(),
    ensures
        ({
            let e = empty_positions(pool);
            let el = e[e.len() - 1];
            let kept = survivors(pool, drop_cut(pool));
            &&& 0 <= el < pool.len()
            &&& pool[el].clients == 0
            &&& kept.len() > 0
            &&& kept.last() == pool.last()
            &&& el != pool.len() - 1 ==> pool.last().clients != 0
            &&& exists|q: int| 0 <= q < kept.len() && kept[q] == #[trigger] pool[el]
            &&& forall|i: int| 0 <= i < kept.len() && kept[i].id != pool[el].id ==> #[trigger] kept[i].clients != 0
        }),
{
    let n = pool.len() as int;
    let e = empty_positions(pool);
    let k = e.len() as int;
    let cut = drop_cut(pool);
    let kept = survivors(pool, cut);
    lemma_empty_positions(pool);
    lemma_survivor_origin(pool, cut);
    lemma_survivor_present(pool, cut);
    let el = e[k - 1];
    assert(cut == if k >= 2 { e[k - 2] + 1 } else { 0 });
    assert forall|j: int| 0 <= j < n && pool[j].clients == 0 && j != el implies j < cut by {
        let t = choose|t: int| 0 <= t < e.len() && e[t] == j;
        assert(t <= k - 2);
    }
    assert(el >= cut) by {
        if k >= 2 {
            assert(e[k - 2] < e[k - 1]);
        }
    }
    assert forall|j: int| el < j < n implies pool[j].clients != 0 by {
        if pool[j].clients == 0 {
            let t = choose|t: int| 0 <= t < e.len() && e[t] == j;
        }
    }
    assert(!dropped_at(pool, cut, n - 1));
    assert(!dropped_at(pool, cut, el));
    assert forall|i: int| 0 <= i < kept.len() && kept[i].id != pool[el].id implies #[trigger] kept[i].clients != 0 by {
        let j = choose|j: int| 0 <= j < pool.len() && #[trigger] kept[i] == pool[j] && !dropped_at(pool, cut, j);
    }
}

proof fn lemma_recovery_mixed(aug: Augmentation, pool: Seq<Member>, relabelled: Seq<Member>, fresh: i32)
    requires
        pool.len() > 0,
        0 < empty_positions(pool).len() < pool.len(),
        same_occupancy(survivors(pool, drop_cut(pool)), relabelled),
        ids_distinct(relabelled),
    ensures
        shape_of(apply_steps(relabelled, recovery_tail(aug, pool), fresh)) == PoolShape::Steady,
{
    let n = pool.len() as int;
    let e = empty_positions(pool);
    let k = e.len() as int;
    let kept = survivors(pool, drop_cut(pool));
    let tail = recovery_tail(aug, pool);
    lemma_mixed_survivors(pool);
    let el = e[k - 1];
    let m = kept.len() as int;
    let q = choose|i: int| 0 <= i < kept.len() && kept[i] == #[trigger] pool[el];
    let result = apply_steps(relabelled, tail, fresh);
    if el == n - 1 {
        assert(tail =~= Seq::<OperationView>::empty());
        assert(result == relabelled);
        assert(q == m - 1);
        assert forall|i: int| 0 <= i < m - 1 implies result[i].clients != 0 by {
            assert(kept[i].id != kept[m - 1].id);
        }
    } else {
        let mv = OperationView::MoveOccupants { from: pool[n - 1].id, to: pool[el].id };
        assert(tail =~= seq![mv]);
        lemma_apply_one(relabelled, mv, fresh);
        lemma_position_distinct(relabelled, m - 1);
        assert(q != m - 1);
        assert forall|i: int| 0 <= i < m - 1 implies result[i].clients != 0 by {
            if i != q {
                assert(kept[i].id != pool[el].id);
            }
        }
    }
    lemma_steady_or_two(aug, result);
}

/// A pool whose last member is the only empty one, or which has two members
/// and both empty, is steady.
proof fn lemma_steady_or_two(aug: Augmentation, pool: Seq<Member>)
    requires
        ({
            ||| (pool.len() > 0 && pool.last().clients == 0
                && forall|i: int| 0 <= i < pool.len() - 1 ==> pool[i].clients != 0)
            ||| (pool.len() == 2 && pool[0].clients == 0 && pool[1].clients == 0)
        }),
    ensures
        shape_of(pool) == PoolShape::Steady,
{
    if pool.len() == 2 && pool[0].clients == 0 && pool[1].clients == 0 {
        lemma_all_empty_count(pool);
    } else {
        lemma_steady_plans_nothing(aug, pool);
    }
}

proof fn lemma_all_empty_count(pool: Seq<Member>)
    requires
        forall|i: int| 0 <= i < pool.len() ==> pool[i].clients == 0,
    ensures
        empty_positions(pool).len() == pool.len(),
    decreases pool.len(),
{
    if pool.len() > 0 {
        lemma_all_empty_count(pool.drop_last());
    }
}

/// When every member is empty, the empty positions are all positions.
proof fn lemma_all_empty_positions(pool: Seq<Member>)
    requires
        empty_positions(pool).len() == pool.len(),
    ensures
        forall|t: int| 0 <= t < pool.len() ==> empty_positions(pool)[t] == t,
        forall|i: int| 0 <= i < pool.len() ==> pool[i].clients == 0,
{
    let e = empty_positions(pool);
    lemma_empty_positions(pool);
    assert forall|t: int| 0 <= t < pool.len() implies e[t] == t by {
        lemma_increasing_at_least(e, t);
        lemma_increasing_at_most(e, t, pool.len() as int);
    }
    assert forall|i: int| 0 <= i < pool.len() implies pool[i].clients == 0 by {
        assert(e[i] == i);
    }
}

proof fn lemma_increasing_at_least(e: Seq<int>, t: int)
    requires
        0 <= t < e.len(),
        forall|j: int| 0 <= j < e.len() ==> 0 <= #[trigger] e[j],
        forall|j: int, l: int| 0 <= j < l < e.len() ==> e[j] < e[l],
    ensures
        e[t] >= t,
    decreases t,
{
    if t > 0 {
        lemma_increasing_at_least(e, t - 1);
    }
}

proof fn lemma_increasing_at_most(e: Seq<int>, t: int, bound: int)
    requires
        0 <= t < e.len(),
        e.len() == bound,
        forall|j: int| 0 <= j < e.len() ==> #[trigger] e[j] < bound,
        forall|j: int, l: int| 0 <= j < l < e.len() ==> e[j] < e[l],
    ensures
        e[t] <= t,
    decreases e.len() - t,
{
    if t < e.len() - 1 {
        lemma_increasing_at_most(e, t + 1, bound);
    }
}

/// With every member empty, recovery keeps the members from `cut` on.
proof fn lemma_survivors_all_empty(pool: Seq<Member>, cut: int)
    requires
        cut >= 0,
        forall|i: int| 0 <= i < pool.len() ==> pool[i].clients == 0,
    ensures
        survivors(pool, cut) == pool.subrange(if cut < pool.len() { cut } else { pool.len() as int }, pool.len() as int),
    decreases pool.len(),
{
    if pool.len() > 0 {
        let init = pool.drop_last();
        lemma_survivors_all_empty(init, cut);
        let n = pool.len() as int;
        if n - 1 >= cut {
            assert(init.subrange(cut, n - 1).push(pool.last()) =~= pool.subrange(cut, n));
        } else {
            assert(init.subrange(n - 1, n - 1) =~= pool.subrange(n, n));
        }
    }
}

} // verus!
