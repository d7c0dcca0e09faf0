use sunbird::augmentation::{Augmentation, AugmentationPrefix, ChannelProperty, Permission};
use sunbird::plan::Operation;
use sunbird::pool::{augmentation_instances, classify, ChannelEntry, PoolShape};
use sunbird::reconcile::{plan_pool, reconcile};

fn augmentation(identifier: &str, first: &str, middle: &str, last: &str) -> Augmentation {
    Augmentation {
        identifier: identifier.to_string(),
        parent: 0,
        prefix: AugmentationPrefix { first: first.to_string(), middle: middle.to_string(), last: last.to_string() },
        permissions: vec![Permission { name: "i_channel_needed_join_power".to_string(), value: 10 }],
        properties: vec![ChannelProperty::Other("channel_topic".to_string(), "talk".to_string())],
    }
}

fn entry(id: i32, name: &str, clients: i32) -> ChannelEntry {
    ChannelEntry { id, name: name.to_string(), parent_id: 0, order: 0, total_clients: clients }
}

fn describe(ops: &[Operation]) -> Vec<String> {
    ops.iter()
        .map(|op| match op {
            Operation::Create { name, properties, permissions } => {
                let order = properties.iter().rev().find_map(|p| match p {
                    ChannelProperty::Order(o) => Some(*o),
                    _ => None,
                });
                format!("create {} after {:?} with {} properties, {} permissions", name, order, properties.len(), permissions.len())
            }
            Operation::Rename { id, name } => format!("rename {} to {}", id, name),
            Operation::Delete { id } => format!("delete {}", id),
            Operation::MoveOccupants { from, to } => format!("move {} to {}", from, to),
            Operation::Grant { id, permissions } => format!("grant {} {}", id, permissions.len()),
        })
        .collect()
}

#[test]
fn steady_pool_needs_nothing() {
    let a = augmentation("A1", "", "", "");
    let channels = vec![entry(1, "A1 I", 2), entry(2, "A1 II", 0)];
    assert!(reconcile(&a, &channels).is_empty());
    let two_empty = vec![entry(1, "A1 I", 0), entry(2, "A1 II", 0)];
    assert!(reconcile(&a, &two_empty).is_empty());
    assert_eq!(classify(&augmentation_instances(&a, &two_empty)), PoolShape::Steady);
}

#[test]
fn vanished_pool_is_left_alone() {
    let a = augmentation("A1", "", "", "");
    let channels = vec![entry(1, "Lobby", 3)];
    assert!(reconcile(&a, &channels).is_empty());
    assert_eq!(classify(&augmentation_instances(&a, &channels)), PoolShape::Vanished);
}

#[test]
fn occupant_entering_last_member_grows_the_pool() {
    let a = augmentation("A1", "", "~", "");
    let channels = vec![entry(1, "A1 I", 2), entry(2, "A1 II", 1)];
    assert_eq!(classify(&augmentation_instances(&a, &channels)), PoolShape::Starved);
    let ops = reconcile(&a, &channels);
    assert_eq!(describe(&ops), vec![
        "create A1 III after Some(2) with 2 properties, 1 permissions".to_string(),
        "rename 2 to ~A1 II".to_string(),
    ]);
    let after = vec![entry(1, "A1 I", 2), entry(2, "~A1 II", 1), entry(3, "A1 III", 0)];
    assert!(reconcile(&a, &after).is_empty());
}

#[test]
fn grown_member_keeps_name_when_middle_prefix_is_empty() {
    let a = augmentation("A1", "", "", "");
    let channels = vec![entry(1, "A1 I", 2), entry(2, "A1 II", 1)];
    assert_eq!(describe(&reconcile(&a, &channels)), vec![
        "create A1 III after Some(2) with 2 properties, 1 permissions".to_string(),
    ]);
}

#[test]
fn excess_empty_pool_contracts_to_two() {
    let a = augmentation("A1", "", "", "");
    let channels = vec![entry(1, "A1 I", 0), entry(2, "A1 II", 0), entry(3, "A1 III", 3)];
    assert_eq!(classify(&augmentation_instances(&a, &channels)), PoolShape::ExcessEmpty);
    let ops = reconcile(&a, &channels);
    assert_eq!(describe(&ops), vec![
        "delete 1".to_string(),
        "move 3 to 2".to_string(),
        "rename 2 to A1 I".to_string(),
        "rename 3 to A1 II".to_string(),
    ]);
    let after = vec![entry(2, "A1 I", 3), entry(3, "A1 II", 0)];
    assert!(reconcile(&a, &after).is_empty());
}

#[test]
fn excess_empty_with_empty_last_member() {
    let a = augmentation("A1", "F ", "M ", "L ");
    let channels = vec![
        entry(1, "F A1 I", 4),
        entry(2, "M A1 II", 0),
        entry(3, "M A1 III", 1),
        entry(4, "L A1 IV", 0),
    ];
    let ops = reconcile(&a, &channels);
    assert_eq!(describe(&ops), vec![
        "delete 2".to_string(),
        "rename 3 to M A1 II".to_string(),
        "rename 4 to L A1 III".to_string(),
    ]);
}

#[test]
fn three_empty_members_take_two_passes() {
    let a = augmentation("A1", "", "", "");
    let channels = vec![entry(1, "A1 I", 0), entry(2, "A1 II", 0), entry(3, "A1 III", 0), entry(4, "A1 IV", 5)];
    let ops = reconcile(&a, &channels);
    assert_eq!(describe(&ops), vec![
        "delete 1".to_string(),
        "move 4 to 3".to_string(),
        "rename 2 to A1 I".to_string(),
        "rename 3 to A1 II".to_string(),
        "rename 4 to A1 III".to_string(),
    ]);
    let second = vec![entry(2, "A1 I", 0), entry(3, "A1 II", 5), entry(4, "A1 III", 0)];
    assert_eq!(describe(&reconcile(&a, &second)), vec![
        "delete 2".to_string(),
        "rename 3 to A1 I".to_string(),
        "rename 4 to A1 II".to_string(),
    ]);
    let third = vec![entry(3, "A1 I", 5), entry(4, "A1 II", 0)];
    assert!(reconcile(&a, &third).is_empty());
}

#[test]
fn misplaced_empty_member_takes_the_last_members_occupants() {
    let a = augmentation("A1", "", "", "");
    let channels = vec![entry(1, "A1 I", 0), entry(2, "A1 II", 2)];
    assert_eq!(classify(&augmentation_instances(&a, &channels)), PoolShape::MisplacedEmpty);
    assert_eq!(describe(&reconcile(&a, &channels)), vec!["move 2 to 1".to_string()]);
    let after = vec![entry(1, "A1 I", 2), entry(2, "A1 II", 0)];
    assert!(reconcile(&a, &after).is_empty());
}

#[test]
fn other_channels_are_ignored() {
    let a = augmentation("A1", "", "", "");
    let channels = vec![
        entry(9, "Lobby", 4),
        entry(1, "A1 I", 2),
        entry(8, "B1 I", 0),
        entry(2, "A1 II", 1),
        entry(7, "A1 II copy", 0),
    ];
    let pool = augmentation_instances(&a, &channels);
    assert_eq!(pool.iter().map(|c| c.id).collect::<Vec<_>>(), vec![1, 2]);
    assert_eq!(describe(&plan_pool(&a, pool)), vec![
        "create A1 III after Some(2) with 2 properties, 1 permissions".to_string(),
    ]);
}

#[test]
fn starved_single_member_grows() {
    let a = augmentation("A1", "F ", "M ", "L ");
    let channels = vec![entry(5, "F A1 I", 1)];
    assert_eq!(describe(&reconcile(&a, &channels)), vec![
        "create L A1 II after Some(5) with 2 properties, 1 permissions".to_string(),
        "rename 5 to M A1 I".to_string(),
    ]);
}
