use vstd::prelude::*;
use crate::augmentation::{Augmentation, AugmentationPrefix, ChannelProperty, PropertyView, copy_permissions, copy_properties, permission_views, property_views};
use crate::naming::{label_at, label_for, member_name, name_with};
use crate::plan::{Operation, OperationView, emit, emit_rename, operation_views, rename_step};
use crate::pool::{ChannelEntry, Member, PoolShape, member_views, augmentation_instances, empty_instances, empty_positions, lemma_empty_positions, pool_of, shape_of};

verus! {

/// Creation of a member called `name`, seeded from the template and sorted
/// after channel `after`.
pub open spec fn create_after(aug: Augmentation, name: Seq<char>, after: i32) -> OperationView {
    OperationView::Create {
        name,
        properties: property_views(aug.properties@).push(PropertyView::Order(after)),
        permissions: permission_views(aug.permissions@),
    }
}

/// A pool without an empty member grows by one trailing member; the former
/// last member takes the middle prefix.
pub open spec fn extend_steps(aug: Augmentation, pool: Seq<Member>) -> Seq<OperationView> {
    let n = pool.len();
    seq![create_after(aug, member_name(aug.prefix.last@, aug.identifier@, (n + 1) as nat), pool[n - 1].id)]
        + rename_step(pool[n - 1], member_name(aug.prefix.middle@, aug.identifier@, n as nat))
}

/// Renames of the first `count` of `members` to their labels by position.
pub open spec fn relabel_steps(prefix: AugmentationPrefix, identifier: Seq<char>, members: Seq<Member>, count: int) -> Seq<OperationView>
    decreases count,
{
    if count <= 0 {
        seq![]
    } else {
        relabel_steps(prefix, identifier, members, count - 1)
            + rename_step(members[count - 1], label_at(prefix, identifier, count - 1, members.len() as int))
    }
}

/// A pool with two or more empty members loses its first empty member. If
/// its last member is occupied, those occupants move into the last empty
/// member that stays. Every member left is then labelled by its new position.
pub open spec fn contract_steps(aug: Augmentation, pool: Seq<Member>) -> Seq<OperationView> {
    let empties = empty_positions(pool);
    let n = pool.len();
    let gone = empties[0];
    let kept = pool.remove(gone);
    seq![OperationView::Delete { id: pool[gone].id }]
        + (if pool[n - 1].clients == 0 {
            seq![]
        } else {
            seq![OperationView::MoveOccupants { from: pool[n - 1].id, to: pool[empties[empties.len() - 1]].id }]
        })
        + relabel_steps(aug.prefix, aug.identifier@, kept, kept.len() as int)
}

/// What one pass over a pool does, by the pool's shape.
pub open spec fn pool_steps(aug: Augmentation, pool: Seq<Member>) -> Seq<OperationView> {
    match shape_of(pool) {
        PoolShape::Starved => extend_steps(aug, pool),
        PoolShape::MisplacedEmpty => seq![
            OperationView::MoveOccupants { from: pool.last().id, to: pool[empty_positions(pool)[0]].id },
        ],
        PoolShape::ExcessEmpty => contract_steps(aug, pool),
        _ => seq![],
    }
}

/// What one pass does for `aug` over the live listing `channels`.
pub open spec fn reconcile_steps(aug: Augmentation, channels: Seq<ChannelEntry>) -> Seq<OperationView> {
    pool_steps(aug, pool_of(aug, channels))
}

pub proof fn lemma_pool_len(aug: Augmentation, channels: Seq<ChannelEntry>)
    ensures
        pool_of(aug, channels).len() <= channels.len(),
    decreases channels.len(),
{
    if channels.len() > 0 {
        lemma_pool_len(aug, channels.drop_last());
    }
}

/// Appends the creation of a member called `name`, seeded from the template
/// and sorted after channel `after`.
fn emit_create_after(ops: &mut Vec<Operation>, aug: &Augmentation, name: String, after: i32)
    ensures
        operation_views(final(ops)@) == operation_views(old(ops)@).push(create_after(*aug, name@, after)),
{
    let mut properties = copy_properties(&aug.properties);
    properties.push(ChannelProperty::Order(after));
    assert(property_views(properties@) =~= property_views(aug.properties@).push(PropertyView::Order(after)));
    let permissions = copy_permissions(&aug.permissions);
    emit(ops, Operation::Create { name, properties, permissions });
}

/// Appends renames of every one of `members` to its label by position.
pub(crate) fn emit_relabel(ops: &mut Vec<Operation>, prefix: &AugmentationPrefix, identifier: &str, members: &Vec<ChannelEntry>)
    ensures
        operation_views(final(ops)@) == operation_views(old(ops)@)
            + relabel_steps(*prefix, identifier@, member_views(members@), members@.len() as int),
{
    let total = members.len();
    let ghost all = member_views(members@);
    for i in 0..total
        invariant
            total == members@.len(),
            all == member_views(members@),
            operation_views(ops@) == operation_views(old(ops)@) + relabel_steps(*prefix, identifier@, all, i as int),
    {
        let label = label_for(i, total, prefix, identifier);
        emit_rename(ops, &members[i], label);
        assert(all[i as int] == members@[i as int]@);
        assert(operation_views(ops@) =~= operation_views(old(ops)@) + relabel_steps(*prefix, identifier@, all, i + 1));
    }
}

/// The plan of one pass over `pool`: nothing for a steady or vanished pool,
/// otherwise the repair its shape calls for.
pub fn plan_pool(aug: &Augmentation, pool: Vec<ChannelEntry>) -> (r: Vec<Operation>)
    requires
        pool@.len() < usize::MAX,
    ensures
        operation_views(r@) == pool_steps(*aug, member_views(pool@)),
{
    let mut ops: Vec<Operation> = Vec::new();
    let n = pool.len();
    let empties = empty_instances(&pool);
    let k = empties.len();
    let ghost all = member_views(pool@);
    proof {
        lemma_empty_positions(all);
        assert(forall|i: int| 0 <= i < n ==> all[i] == #[trigger] pool@[i]@);
    }
    if n == 0 || (k == 1 && pool[n - 1].total_clients == 0) || (k == 2 && n == 2) {
        return ops;
    }
    if k == 0 {
        let name = name_with(aug.prefix.last.as_str(), aug.identifier.as_str(), n + 1);
        emit_create_after(&mut ops, aug, name, pool[n - 1].id);
        let middle = name_with(aug.prefix.middle.as_str(), aug.identifier.as_str(), n);
        emit_rename(&mut ops, &pool[n - 1], middle);
        assert(operation_views(ops@) =~= pool_steps(*aug, all));
    } else if k == 1 {
        emit(&mut ops, Operation::MoveOccupants { from: pool[n - 1].id, to: pool[empties[0]].id });
        assert(operation_views(ops@) =~= pool_steps(*aug, all));
    } else {
        let gone = empties[0];
        let last_empty = empties[k - 1];
        emit(&mut ops, Operation::Delete { id: pool[gone].id });
        if pool[n - 1].total_clients != 0 {
            emit(&mut ops, Operation::MoveOccupants { from: pool[n - 1].id, to: pool[last_empty].id });
        }
        let mut kept = pool;
        kept.remove(gone);
        assert(member_views(kept@) =~= all.remove(gone as int));
        emit_relabel(&mut ops, &aug.prefix, aug.identifier.as_str(), &kept);
        assert(operation_views(ops@) =~= pool_steps(*aug, all));
    }
    ops
}

/// One pass of the reconciler for `aug` over the live listing `channels`.
pub fn reconcile(aug: &Augmentation, channels: &Vec<ChannelEntry>) -> (r: Vec<Operation>)
    requires
        channels@.len() < usize::MAX,
    ensures
        operation_views(r@) == reconcile_steps(*aug, channels@),
{
    let pool = augmentation_instances(aug, channels);
    proof {
        lemma_pool_len(*aug, channels@);
    }
    plan_pool(aug, pool)
}

/// Creation of a member called `name`, seeded from the template alone.
pub open spec fn create_plain(aug: Augmentation, name: Seq<char>) -> OperationView {
    OperationView::Create {
        name,
        properties: property_views(aug.properties@),
        permissions: permission_views(aug.permissions@),
    }
}

/// How many empty members recovery removes: all but the last one, or all but
/// the last two when no member has occupants.
pub open spec fn dropped_count(pool: Seq<Member>) -> int {
    let k = empty_positions(pool).len() as int;
    let keep = if k == pool.len() { 2int } else { 1int };
    if k > keep { k - keep } else { 0 }
}

/// The position just past the last member that recovery removes.
pub open spec fn drop_cut(pool: Seq<Member>) -> int {
    let d = dropped_count(pool);
    if d == 0 { 0 } else { empty_positions(pool)[d - 1] + 1 }
}

/// Deletions of the empty members before position `cut`.
pub open spec fn delete_steps(pool: Seq<Member>, cut: int) -> Seq<OperationView>
    decreases pool.len(),
{
    if pool.len() == 0 {
        seq![]
    } else {
        let rest = delete_steps(pool.drop_last(), cut);
        if pool.last().clients == 0 && pool.len() - 1 < cut {
            rest.push(OperationView::Delete { id: pool.last().id })
        } else {
            rest
        }
    }
}

/// The members left after deleting the empty ones before position `cut`.
pub open spec fn survivors(pool: Seq<Member>, cut: int) -> Seq<Member>
    decreases pool.len(),
{
    if pool.len() == 0 {
        seq![]
    } else {
        let rest = survivors(pool.drop_last(), cut);
        if pool.last().clients == 0 && pool.len() - 1 < cut {
            rest
        } else {
            rest.push(pool.last())
        }
    }
}

/// What recovery does after relabelling: with an empty member left, the
/// occupants of the last member move into the last empty one where that is
/// another member; with none, the pool grows by one as in a pass.
pub open spec fn recovery_tail(aug: Augmentation, pool: Seq<Member>) -> Seq<OperationView> {
    let empties = empty_positions(pool);
    let n = pool.len();
    let k = empties.len();
    if k >= 1 {
        if empties[k - 1] != n - 1 {
            seq![OperationView::MoveOccupants { from: pool[n - 1].id, to: pool[empties[k - 1]].id }]
        } else {
            seq![]
        }
    } else {
        let middle = member_name(aug.prefix.middle@, aug.identifier@, n as nat);
        seq![create_after(aug, member_name(aug.prefix.last@, aug.identifier@, (n + 1) as nat), pool[n - 1].id)]
            + (if label_at(aug.prefix, aug.identifier@, n - 1, n as int) == middle {
                seq![]
            } else {
                seq![OperationView::Rename { id: pool[n - 1].id, name: middle }]
            })
    }
}

/// What start-up recovery does for `aug` over the live listing `channels`.
pub open spec fn recovery_steps(aug: Augmentation, channels: Seq<ChannelEntry>) -> Seq<OperationView> {
    let pool = pool_of(aug, channels);
    if pool.len() == 0 {
        seq![
            create_plain(aug, label_at(aug.prefix, aug.identifier@, 0, 2)),
            create_plain(aug, label_at(aug.prefix, aug.identifier@, 1, 2)),
        ]
    } else {
        let kept = survivors(pool, drop_cut(pool));
        delete_steps(pool, drop_cut(pool)) + relabel_steps(aug.prefix, aug.identifier@, kept, kept.len() as int) + recovery_tail(aug, pool)
    }
}

fn emit_create_plain(ops: &mut Vec<Operation>, aug: &Augmentation, name: String)
    ensures
        operation_views(final(ops)@) == operation_views(old(ops)@).push(create_plain(*aug, name@)),
{
    let properties = copy_properties(&aug.properties);
    let permissions = copy_permissions(&aug.permissions);
    emit(ops, Operation::Create { name, properties, permissions });
}

/// Start-up recovery for `aug` over the live listing `channels`: brings a
/// pool of any shape into its resting shape.
pub fn recover(aug: &Augmentation, channels: &Vec<ChannelEntry>) -> (r: Vec<Operation>)
    requires
        channels@.len() < usize::MAX,
    ensures
        operation_views(r@) == recovery_steps(*aug, channels@),
{
    let mut ops: Vec<Operation> = Vec::new();
    let pool = augmentation_instances(aug, channels);
    let ghost all = member_views(pool@);
    proof {
        lemma_pool_len(*aug, channels@);
        lemma_empty_positions(all);
        assert(forall|i: int| 0 <= i < pool@.len() ==> all[i] == #[trigger] pool@[i]@);
    }
    let n = pool.len();
    if n == 0 {
        emit_create_plain(&mut ops, aug, label_for(0, 2, &aug.prefix, aug.identifier.as_str()));
        emit_create_plain(&mut ops, aug, label_for(1, 2, &aug.prefix, aug.identifier.as_str()));
        assert(operation_views(ops@) =~= recovery_steps(*aug, channels@));
        return ops;
    }
    let empties = empty_instances(&pool);
    let k = empties.len();
    let keep: usize = if k == n { 2 } else { 1 };
    let dropped: usize = if k > keep { k - keep } else { 0 };
    let cut: usize = if dropped == 0 { 0 } else { empties[dropped - 1] + 1 };
    assert(cut == drop_cut(all));
    let mut kept: Vec<ChannelEntry> = Vec::new();
    for i in 0..n
        invariant
            n == pool@.len(),
            all == member_views(pool@),
            operation_views(ops@) == delete_steps(all.subrange(0, i as int), cut as int),
            member_views(kept@) == survivors(all.subrange(0, i as int), cut as int),
    {
        assert(all.subrange(0, i + 1).drop_last() =~= all.subrange(0, i as int));
        assert(all[i as int] == pool@[i as int]@);
        if pool[i].total_clients == 0 && i < cut {
            emit(&mut ops, Operation::Delete { id: pool[i].id });
        } else {
            let ghost before = member_views(kept@);
            kept.push(pool[i].copy());
            assert(member_views(kept@) =~= before.push(all[i as int]));
        }
    }
    assert(all.subrange(0, n as int) =~= all);
    emit_relabel(&mut ops, &aug.prefix, aug.identifier.as_str(), &kept);
    let ghost head = operation_views(ops@);
    if k >= 1 {
        let last_empty = empties[k - 1];
        if last_empty != n - 1 {
            emit(&mut ops, Operation::MoveOccupants { from: pool[n - 1].id, to: pool[last_empty].id });
        }
    } else {
        let name = name_with(aug.prefix.last.as_str(), aug.identifier.as_str(), n + 1);
        emit_create_after(&mut ops, aug, name, pool[n - 1].id);
        let current = label_for(n - 1, n, &aug.prefix, aug.identifier.as_str());
        let middle = name_with(aug.prefix.middle.as_str(), aug.identifier.as_str(), n);
        if current != middle {
            emit(&mut ops, Operation::Rename { id: pool[n - 1].id, name: middle });
        }
    }
    assert(operation_views(ops@) =~= head + recovery_tail(*aug, all));
    assert(operation_views(ops@) =~= recovery_steps(*aug, channels@));
    ops
}

} // verus!
