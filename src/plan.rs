use vstd::prelude::*;
use crate::augmentation::{ChannelProperty, Permission, PermissionView, PropertyView, permission_views, property_views};
use crate::pool::{ChannelEntry, Member};

verus! {

/// One call on the channel server, as the planners hand it out; they are
/// meant to be carried out in order.
pub enum Operation {
    /// Create a channel with these attributes, then grant it these permissions.
    Create { name: String, properties: Vec<ChannelProperty>, permissions: Vec<Permission> },
    Rename { id: i32, name: String },
    Delete { id: i32 },
    /// Move every occupant of channel `from` into channel `to`.
    MoveOccupants { from: i32, to: i32 },
    Grant { id: i32, permissions: Vec<Permission> },
}

pub enum OperationView {
    Create { name: Seq<char>, properties: Seq<PropertyView>, permissions: Seq<PermissionView> },
    Rename { id: i32, name: Seq<char> },
    Delete { id: i32 },
    MoveOccupants { from: i32, to: i32 },
    Grant { id: i32, permissions: Seq<PermissionView> },
}

impl View for Operation {
    type V = OperationView;

    open spec fn view(&self) -> OperationView {
        match self {
            Operation::Create { name, properties, permissions } => OperationView::Create {
                name: name@,
                properties: property_views(properties@),
                permissions: permission_views(permissions@),
            },
            Operation::Rename { id, name } => OperationView::Rename { id: *id, name: name@ },
            Operation::Delete { id } => OperationView::Delete { id: *id },
            Operation::MoveOccupants { from, to } => OperationView::MoveOccupants { from: *from, to: *to },
            Operation::Grant { id, permissions } => OperationView::Grant {
                id: *id,
                permissions: permission_views(permissions@),
            },
        }
    }
}

pub open spec fn operation_views(ops: Seq<Operation>) -> Seq<OperationView> {
    ops.map_values(|o: Operation| o@)
}

/// A rename of `member` to `name`, left out when it already has that name.
pub open spec fn rename_step(member: Member, name: Seq<char>) -> Seq<OperationView> {
    if member.name == name {
        seq![]
    } else {
        seq![OperationView::Rename { id: member.id, name }]
    }
}

pub fn emit(ops: &mut Vec<Operation>, op: Operation)
    ensures
        operation_views(final(ops)@) == operation_views(old(ops)@).push(op@),
{
    ops.push(op);
    assert(operation_views(ops@) =~= operation_views(old(ops)@).push(op@));
}

pub fn emit_rename(ops: &mut Vec<Operation>, member: &ChannelEntry, name: String)
    ensures
        operation_views(final(ops)@) == operation_views(old(ops)@) + rename_step(member@, name@),
{
    if member.name == name {
        assert(operation_views(ops@) =~= operation_views(old(ops)@) + rename_step(member@, name@));
    } else {
        let ghost n = name@;
        emit(ops, Operation::Rename { id: member.id, name });
        assert(operation_views(ops@) =~= operation_views(old(ops)@) + rename_step(member@, n));
    }
}

} // verus!
