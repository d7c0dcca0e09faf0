use vstd::prelude::*;
use vstd::string::StringExecFns;
use crate::augmentation::{Augmentation, AugmentationPrefix, ChannelProperty, Permission, PermissionView, PropertyView,
    copy_permissions, permission_views, property_views};
use crate::config::{find_augmentation, lemma_position_of, position_of};
use crate::errors::Error;
use crate::naming::{member_name, name_with, same_text};
use crate::plan::{Operation, OperationView, emit, emit_rename, operation_views, rename_step};
use crate::pool::{ChannelEntry, Member, augmentation_instances, lemma_pool_owned, member_views, pool_of};
use crate::reconcile::{emit_relabel, relabel_steps};

verus! {

pub open spec fn modify_power() -> Seq<char> {
    "i_channel_needed_modify_power"@
}

pub open spec fn permission_modify_power() -> Seq<char> {
    "i_channel_needed_permission_modify_power"@
}

/// The power a member's thresholds are raised to while it is managed.
pub const GUARD_POWER: i32 = 100;

/// The threshold a retired channel falls back to when none was recorded.
pub const PLAIN_POWER: i32 = 75;

/// The two threshold grants that guard a channel against direct edits.
pub open spec fn guard_views(modify: i32, permission_modify: i32) -> Seq<PermissionView> {
    seq![
        PermissionView { name: modify_power(), value: modify },
        PermissionView { name: permission_modify_power(), value: permission_modify },
    ]
}

pub fn guard_grants(modify: i32, permission_modify: i32) -> (r: Vec<Permission>)
    ensures
        permission_views(r@) == guard_views(modify, permission_modify),
{
    let mut r: Vec<Permission> = Vec::new();
    r.push(Permission { name: String::from_str("i_channel_needed_modify_power"), value: modify });
    r.push(Permission { name: String::from_str("i_channel_needed_permission_modify_power"), value: permission_modify });
    assert(permission_views(r@) =~= guard_views(modify, permission_modify));
    r
}

/// Attributes that belong to a channel's identity or structure, not to a
/// template: its name, order, default flag and password.
pub open spec fn is_template_property(p: ChannelProperty) -> bool {
    !(p is Name || p is Order || p is FlagDefault || p is Password)
}

/// The attributes of `props` that a template keeps, in order.
pub open spec fn template_properties(props: Seq<ChannelProperty>) -> Seq<ChannelProperty>
    decreases props.len(),
{
    if props.len() == 0 {
        seq![]
    } else {
        let rest = template_properties(props.drop_last());
        if is_template_property(props.last()) {
            rest.push(props.last())
        } else {
            rest
        }
    }
}

pub fn template_of(props: &Vec<ChannelProperty>) -> (r: Vec<ChannelProperty>)
    ensures
        r@ == template_properties(props@),
{
    let mut r: Vec<ChannelProperty> = Vec::new();
    for i in 0..props.len()
        invariant
            r@ == template_properties(props@.subrange(0, i as int)),
    {
        assert(props@.subrange(0, i + 1).drop_last() =~= props@.subrange(0, i as int));
        let keep = match &props[i] {
            ChannelProperty::Name(_) | ChannelProperty::Order(_) | ChannelProperty::FlagDefault(_)
            | ChannelProperty::Password(_) => false,
            _ => true,
        };
        if keep {
            r.push(props[i].copy());
        }
    }
    assert(props@.subrange(0, props.len() as int) =~= props@);
    r
}

/// The position of the first channel called `name`, if any.
pub open spec fn first_named(channels: Seq<ChannelEntry>, name: Seq<char>) -> Option<int>
    decreases channels.len(),
{
    if channels.len() == 0 {
        None
    } else {
        match first_named(channels.drop_last(), name) {
            Some(i) => Some(i),
            None => if channels.last().name@ == name { Some(channels.len() - 1) } else { None },
        }
    }
}

proof fn lemma_first_named(channels: Seq<ChannelEntry>, name: Seq<char>)
    ensures
        first_named(channels, name) matches Some(i) ==> 0 <= i < channels.len() && channels[i].name@ == name
            && forall|j: int| 0 <= j < i ==> channels[j].name@ != name,
        first_named(channels, name) is None ==> forall|j: int| 0 <= j < channels.len() ==> channels[j].name@ != name,
    decreases channels.len(),
{
    if channels.len() > 0 {
        lemma_first_named(channels.drop_last(), name);
        assert forall|j: int| 0 <= j < channels.len() - 1 implies channels.drop_last()[j] == channels[j] by {}
    }
}

/// The channel that onboarding `identifier` starts from: fails with
/// `NotFound` when the identifier is already registered or when no channel is
/// called exactly `identifier`; otherwise the position of the first that is.
pub fn onboard_target(augs: &Vec<Augmentation>, identifier: &str, channels: &Vec<ChannelEntry>) -> (r: Result<usize, Error>)
    ensures
        position_of(augs@, identifier@) is Some ==> r is Err && r->Err_0 is NotFound,
        position_of(augs@, identifier@) is None ==> match first_named(channels@, identifier@) {
            Some(i) => r == Ok::<usize, Error>(i as usize),
            None => r is Err && r->Err_0 is NotFound,
        },
{
    if find_augmentation(augs, identifier).is_some() {
        return Err(Error::NotFound);
    }
    let mut i: usize = 0;
    while i < channels.len()
        invariant
            i <= channels@.len(),
            position_of(augs@, identifier@) is None,
            first_named(channels@.subrange(0, i as int), identifier@) is None,
        decreases channels@.len() - i,
    {
        assert(channels@.subrange(0, i + 1).drop_last() =~= channels@.subrange(0, i as int));
        if same_text(channels[i].name.as_str(), identifier) {
            proof {
                lemma_first_named(channels@, identifier@);
                lemma_first_named(channels@.subrange(0, i as int), identifier@);
                assert forall|j: int| 0 <= j < i implies channels@[j].name@ != identifier@ by {
                    assert(channels@.subrange(0, i as int)[j] == channels@[j]);
                }
            }
            return Ok(i);
        }
        i = i + 1;
    }
    assert(channels@.subrange(0, channels@.len() as int) =~= channels@);
    Err(Error::NotFound)
}

/// The augmentation that onboarding `channel` under `identifier` and `prefix`
/// records: the channel's grants followed by the two raised thresholds, and
/// its template attributes.
pub open spec fn onboarded(
    identifier: Seq<char>,
    prefix: AugmentationPrefix,
    channel: ChannelEntry,
    granted: Seq<Permission>,
    info: Seq<ChannelProperty>,
) -> (Seq<char>, i32, AugmentationPrefix, Seq<PermissionView>, Seq<PropertyView>) {
    (
        identifier,
        channel.parent_id,
        prefix,
        permission_views(granted) + guard_views(GUARD_POWER, GUARD_POWER),
        property_views(template_properties(info)),
    )
}

/// The calls that onboard `channel`: it takes the first label, its thresholds
/// are raised, and a second member is created after it from the template.
pub open spec fn onboard_steps(
    identifier: Seq<char>,
    prefix: AugmentationPrefix,
    channel: ChannelEntry,
    granted: Seq<Permission>,
    info: Seq<ChannelProperty>,
) -> Seq<OperationView> {
    rename_step(channel@, member_name(prefix.first@, identifier, 1))
        + seq![
        OperationView::Grant { id: channel.id, permissions: guard_views(GUARD_POWER, GUARD_POWER) },
        OperationView::Create {
            name: member_name(prefix.last@, identifier, 2),
            properties: property_views(template_properties(info)).push(PropertyView::Order(channel.id)),
            permissions: permission_views(granted) + guard_views(GUARD_POWER, GUARD_POWER),
        },
    ]
}

/// Plans onboarding of `channel` (found by `onboard_target`) under
/// `identifier` and `prefix`, from its current grants and attributes; returns
/// the calls and the augmentation to register once they succeeded.
pub fn plan_onboard(
    identifier: &str,
    prefix: AugmentationPrefix,
    channel: &ChannelEntry,
    granted: &Vec<Permission>,
    info: &Vec<ChannelProperty>,
) -> (r: (Vec<Operation>, Augmentation))
    ensures
        operation_views(r.0@) == onboard_steps(identifier@, prefix, *channel, granted@, info@),
        (r.1.identifier@, r.1.parent, r.1.prefix, permission_views(r.1.permissions@), property_views(r.1.properties@))
            == onboarded(identifier@, prefix, *channel, granted@, info@),
{
    let mut permissions = copy_permissions(granted);
    let mut guard = guard_grants(GUARD_POWER, GUARD_POWER);
    let ghost guard_view = permission_views(guard@);
    permissions.append(&mut guard);
    assert(permission_views(permissions@) =~= permission_views(granted@) + guard_view);
    let properties = template_of(info);

    let mut ops: Vec<Operation> = Vec::new();
    let first = name_with(prefix.first.as_str(), identifier, 1);
    emit_rename(&mut ops, channel, first);
    emit(&mut ops, Operation::Grant { id: channel.id, permissions: guard_grants(GUARD_POWER, GUARD_POWER) });
    let mut seeded = template_of(info);
    seeded.push(ChannelProperty::Order(channel.id));
    assert(property_views(seeded@) =~= property_views(template_properties(info@)).push(PropertyView::Order(channel.id)));
    let second = name_with(prefix.last.as_str(), identifier, 2);
    emit(&mut ops, Operation::Create { name: second, properties: seeded, permissions: copy_permissions(&permissions) });
    assert(operation_views(ops@) =~= onboard_steps(identifier@, prefix, *channel, granted@, info@));

    let aug = Augmentation {
        identifier: String::from_str(identifier),
        parent: channel.parent_id,
        prefix,
        permissions,
        properties,
    };
    (ops, aug)
}

/// The value of the first grant called `name` in `grants`, if any.
pub open spec fn first_grant(grants: Seq<PermissionView>, name: Seq<char>) -> Option<i32>
    decreases grants.len(),
{
    if grants.len() == 0 {
        None
    } else {
        match first_grant(grants.drop_last(), name) {
            Some(v) => Some(v),
            None => if grants.last().name == name { Some(grants.last().value) } else { None },
        }
    }
}

/// The threshold a channel had before onboarding, as its template records
/// it: the first grant called `name` among all but the two raised grants that
/// onboarding appended, or `PLAIN_POWER` when there is none.
pub open spec fn recorded_threshold(template: Seq<PermissionView>, name: Seq<char>) -> i32 {
    let own = if template.len() >= 2 { template.subrange(0, template.len() - 2) } else { seq![] };
    match first_grant(own, name) {
        Some(v) => v,
        None => PLAIN_POWER,
    }
}

fn find_threshold(template: &Vec<Permission>, name: &str) -> (r: i32)
    ensures
        r == recorded_threshold(permission_views(template@), name@),
{
    let ghost all = permission_views(template@);
    let own_len: usize = if template.len() >= 2 { template.len() - 2 } else { 0 };
    let ghost own = if all.len() >= 2 { all.subrange(0, all.len() - 2) } else { seq![] };
    assert(own.len() == own_len);
    let mut i: usize = 0;
    while i < own_len
        invariant
            own_len <= template@.len(),
            own.len() == own_len,
            all == permission_views(template@),
            own == (if all.len() >= 2 { all.subrange(0, all.len() - 2) } else { seq![] }),
            forall|j: int| 0 <= j < own_len ==> own[j] == all[j],
            i <= own_len,
            first_grant(own.subrange(0, i as int), name@) is None,
        decreases own_len - i,
    {
        assert(own.subrange(0, i + 1).drop_last() =~= own.subrange(0, i as int));
        if same_text(template[i].name.as_str(), name) {
            proof {
                assert(all[i as int] == template@[i as int]@);
                assert(own[i as int] == all[i as int]);
                lemma_first_grant_prefix(own, name@, i as int);
            }
            return template[i].value;
        }
        i = i + 1;
    }
    assert(own.subrange(0, own_len as int) =~= own);
    PLAIN_POWER
}

/// A first match in a prefix is the first match of the whole.
proof fn lemma_first_grant_prefix(grants: Seq<PermissionView>, name: Seq<char>, i: int)
    requires
        0 <= i < grants.len(),
        first_grant(grants.subrange(0, i), name) is None,
        grants[i].name == name,
    ensures
        first_grant(grants, name) == Some(grants[i].value),
    decreases grants.len(),
{
    if i < grants.len() - 1 {
        assert(grants.drop_last().subrange(0, i) =~= grants.subrange(0, i));
        lemma_first_grant_prefix(grants.drop_last(), name, i);
    } else {
        assert(grants.drop_last() =~= grants.subrange(0, i));
    }
}

/// Moves of the occupants of members `1..count` into the first member.
pub open spec fn gather_steps(pool: Seq<Member>, count: int) -> Seq<OperationView>
    decreases count,
{
    if count <= 1 {
        seq![]
    } else {
        gather_steps(pool, count - 1).push(OperationView::MoveOccupants { from: pool[count - 1].id, to: pool[0].id })
    }
}

/// Deletions of members `1..count`.
pub open spec fn delete_rest_steps(pool: Seq<Member>, count: int) -> Seq<OperationView>
    decreases count,
{
    if count <= 1 {
        seq![]
    } else {
        delete_rest_steps(pool, count - 1).push(OperationView::Delete { id: pool[count - 1].id })
    }
}

/// The calls that retire `aug`: every occupant gathers in the first member,
/// the other members go, and the first member takes back the bare identifier
/// and the thresholds recorded at onboarding. Nothing when no member is left.
pub open spec fn retire_steps(aug: Augmentation, channels: Seq<ChannelEntry>) -> Seq<OperationView> {
    let pool = pool_of(aug, channels);
    let n = pool.len() as int;
    let template = permission_views(aug.permissions@);
    if n == 0 {
        seq![]
    } else {
        gather_steps(pool, n) + delete_rest_steps(pool, n) + rename_step(pool[0], aug.identifier@)
            + seq![OperationView::Grant {
                id: pool[0].id,
                permissions: guard_views(
                    recorded_threshold(template, modify_power()),
                    recorded_threshold(template, permission_modify_power()),
                ),
            }]
    }
}

/// Plans retirement of `aug` (already taken out of the registry) over the
/// live listing `channels`.
pub fn plan_retire(aug: &Augmentation, channels: &Vec<ChannelEntry>) -> (r: Vec<Operation>)
    ensures
        operation_views(r@) == retire_steps(*aug, channels@),
{
    let mut ops: Vec<Operation> = Vec::new();
    let pool = augmentation_instances(aug, channels);
    let n = pool.len();
    let ghost all = member_views(pool@);
    if n == 0 {
        assert(operation_views(ops@) =~= retire_steps(*aug, channels@));
        return ops;
    }
    assert(forall|i: int| 0 <= i < n ==> all[i] == #[trigger] pool@[i]@);
    for i in 1..n
        invariant
            n == pool@.len(),
            all == member_views(pool@),
            forall|i: int| 0 <= i < n ==> all[i] == #[trigger] pool@[i]@,
            operation_views(ops@) == gather_steps(all, i as int),
    {
        emit(&mut ops, Operation::MoveOccupants { from: pool[i].id, to: pool[0].id });
    }
    let ghost gathered = operation_views(ops@);
    for i in 1..n
        invariant
            n == pool@.len(),
            all == member_views(pool@),
            forall|i: int| 0 <= i < n ==> all[i] == #[trigger] pool@[i]@,
            operation_views(ops@) == gathered + delete_rest_steps(all, i as int),
    {
        emit(&mut ops, Operation::Delete { id: pool[i].id });
        assert(operation_views(ops@) =~= gathered + delete_rest_steps(all, i + 1));
    }
    emit_rename(&mut ops, &pool[0], aug.identifier.clone());
    let modify = find_threshold(&aug.permissions, "i_channel_needed_modify_power");
    let permission_modify = find_threshold(&aug.permissions, "i_channel_needed_permission_modify_power");
    emit(&mut ops, Operation::Grant { id: pool[0].id, permissions: guard_grants(modify, permission_modify) });
    assert(operation_views(ops@) =~= retire_steps(*aug, channels@));
    ops
}

/// Plans relabelling of `aug`'s members under a new `prefix`, by position.
/// The caller then sets the prefix on the registered augmentation.
pub fn plan_reprefix(aug: &Augmentation, prefix: &AugmentationPrefix, channels: &Vec<ChannelEntry>) -> (r: Vec<Operation>)
    ensures
        operation_views(r@) == relabel_steps(*prefix, aug.identifier@, pool_of(*aug, channels@),
            pool_of(*aug, channels@).len() as int),
{
    let mut ops: Vec<Operation> = Vec::new();
    let pool = augmentation_instances(aug, channels);
    emit_relabel(&mut ops, prefix, aug.identifier.as_str(), &pool);
    assert(operation_views(ops@) =~= relabel_steps(*prefix, aug.identifier@, member_views(pool@), pool@.len() as int));
    ops
}

/// The value of the last grant called `name` in `grants`, if any.
pub open spec fn last_grant(grants: Seq<PermissionView>, name: Seq<char>) -> Option<i32>
    decreases grants.len(),
{
    if grants.len() == 0 {
        None
    } else if grants.last().name == name {
        Some(grants.last().value)
    } else {
        last_grant(grants.drop_last(), name)
    }
}

/// The name channel `id` carries after `ops` when it was called `name`.
pub open spec fn name_after(ops: Seq<OperationView>, id: i32, name: Seq<char>) -> Seq<char>
    decreases ops.len(),
{
    if ops.len() == 0 {
        name
    } else {
        match ops.last() {
            OperationView::Rename { id: target, name: renamed } if target == id => renamed,
            _ => name_after(ops.drop_last(), id, name),
        }
    }
}

/// The value of permission `perm` on channel `id` after `ops`, when it was `value`.
pub open spec fn grant_after(ops: Seq<OperationView>, id: i32, perm: Seq<char>, value: Option<i32>) -> Option<i32>
    decreases ops.len(),
{
    if ops.len() == 0 {
        value
    } else {
        match ops.last() {
            OperationView::Grant { id: target, permissions } if target == id && last_grant(permissions, perm) is Some
                => last_grant(permissions, perm),
            _ => grant_after(ops.drop_last(), id, perm, value),
        }
    }
}

/// What a channel's threshold `perm` was before onboarding, as far as its
/// grants show: the grant it had, or `PLAIN_POWER` when it had none.
pub open spec fn threshold_before(granted: Seq<Permission>, perm: Seq<char>) -> i32 {
    match first_grant(permission_views(granted), perm) {
        Some(v) => v,
        None => PLAIN_POWER,
    }
}

/// Onboarding a channel and later retiring the augmentation is a round trip:
/// the channel's name and both of its modification thresholds come back to
/// what they were, and the registry no longer holds the identifier. `later` is
/// the listing at retirement, in which the onboarded channel still leads the
/// pool; `aug` is the augmentation that onboarding recorded.
pub proof fn lemma_onboard_retire_round_trip(
    prefix: AugmentationPrefix,
    channel: ChannelEntry,
    granted: Seq<Permission>,
    info: Seq<ChannelProperty>,
    aug: Augmentation,
    later: Seq<ChannelEntry>,
    registry: Seq<Augmentation>,
)
    requires
        (aug.identifier@, aug.parent, aug.prefix, permission_views(aug.permissions@), property_views(aug.properties@))
            == onboarded(channel.name@, prefix, channel, granted, info),
        pool_of(aug, later).len() > 0,
        pool_of(aug, later)[0].id == channel.id,
        position_of(registry, channel.name@) is None,
    ensures
        ({
            let ops = onboard_steps(channel.name@, prefix, channel, granted, info) + retire_steps(aug, later);
            &&& name_after(ops, channel.id, channel.name@) == channel.name@
            &&& grant_after(ops, channel.id, modify_power(), None) == Some(threshold_before(granted, modify_power()))
            &&& grant_after(ops, channel.id, permission_modify_power(), None)
                == Some(threshold_before(granted, permission_modify_power()))
        }),
        position_of(registry.push(aug), channel.name@) == Some(registry.len() as int),
        registry.push(aug).remove(registry.len() as int) == registry,
{
    let identifier = channel.name@;
    let ops = onboard_steps(identifier, prefix, channel, granted, info) + retire_steps(aug, later);
    let pool = pool_of(aug, later);
    let template = permission_views(aug.permissions@);
    let own = permission_views(granted);
    lemma_pool_owned(aug, later);
    assert(aug.owns(pool[0].name));
    assert(pool[0].name.len() > identifier.len());
    assert(template.subrange(0, template.len() - 2) =~= own);
    proof_modify_names_differ();
    let restore = guard_views(
        recorded_threshold(template, modify_power()),
        recorded_threshold(template, permission_modify_power()),
    );
    assert(template == own + guard_views(GUARD_POWER, GUARD_POWER));
    assert(recorded_threshold(template, modify_power()) == threshold_before(granted, modify_power()));
    assert(recorded_threshold(template, permission_modify_power()) == threshold_before(granted, permission_modify_power()));
    assert(restore.last().name == permission_modify_power());
    assert(restore.drop_last() =~= seq![restore[0]]);
    assert(restore[0].name == modify_power());
    assert(last_grant(restore.drop_last(), modify_power()) == Some(restore[0].value));
    assert(last_grant(restore, modify_power()) == Some(threshold_before(granted, modify_power())));
    assert(last_grant(restore, permission_modify_power()) == Some(threshold_before(granted, permission_modify_power())));
    let rename = OperationView::Rename { id: pool[0].id, name: identifier };
    assert(ops.last() == OperationView::Grant { id: channel.id, permissions: restore });
    assert(ops.drop_last().last() == rename);
    assert(name_after(ops.drop_last(), channel.id, identifier) == identifier);
    assert(name_after(ops, channel.id, identifier) == identifier);
    assert(grant_after(ops, channel.id, modify_power(), None) == Some(threshold_before(granted, modify_power())));
    assert(grant_after(ops, channel.id, permission_modify_power(), None)
        == Some(threshold_before(granted, permission_modify_power())));
    assert(registry.push(aug).remove(registry.len() as int) =~= registry);
    lemma_position_of(registry, identifier);
    assert(registry.push(aug).drop_last() =~= registry);
}

proof fn proof_modify_names_differ()
    ensures
        modify_power() != permission_modify_power(),
{
    reveal_strlit("i_channel_needed_modify_power");
    reveal_strlit("i_channel_needed_permission_modify_power");
    assert(modify_power().len() != permission_modify_power().len());
}

} // verus!
