use sunbird::augmentation::{Augmentation, AugmentationPrefix, ChannelProperty};
use sunbird::plan::Operation;
use sunbird::pool::ChannelEntry;
use sunbird::reconcile::{reconcile, recover};

fn augmentation(first: &str, middle: &str, last: &str) -> Augmentation {
    Augmentation {
        identifier: "A1".to_string(),
        parent: 0,
        prefix: AugmentationPrefix { first: first.to_string(), middle: middle.to_string(), last: last.to_string() },
        permissions: vec![],
        properties: vec![ChannelProperty::IconId(42)],
    }
}

fn entry(id: i32, name: &str, clients: i32) -> ChannelEntry {
    ChannelEntry { id, name: name.to_string(), parent_id: 0, order: 0, total_clients: clients }
}

fn describe(ops: &[Operation]) -> Vec<String> {
    ops.iter()
        .map(|op| match op {
            Operation::Create { name, properties, .. } => {
                let order = properties.iter().rev().find_map(|p| match p {
                    ChannelProperty::Order(o) => Some(*o),
                    _ => None,
                });
                format!("create {} after {:?}", name, order)
            }
            Operation::Rename { id, name } => format!("rename {} to {}", id, name),
            Operation::Delete { id } => format!("delete {}", id),
            Operation::MoveOccupants { from, to } => format!("move {} to {}", from, to),
            Operation::Grant { id, .. } => format!("grant {}", id),
        })
        .collect()
}

#[test]
fn recovery_from_nothing_creates_two_members() {
    let a = augmentation("F ", "M ", "L ");
    let ops = recover(&a, &vec![entry(1, "Lobby", 0)]);
    assert_eq!(describe(&ops), vec!["create F A1 I after None".to_string(), "create L A1 II after None".to_string()]);
    match &ops[0] {
        Operation::Create { properties, .. } => assert!(matches!(properties[..], [ChannelProperty::IconId(42)])),
        _ => panic!("expected a creation"),
    }
}

#[test]
fn recovery_of_an_all_empty_pool_keeps_two() {
    let a = augmentation("", "", "");
    let channels = vec![entry(1, "A1 I", 0), entry(2, "A1 II", 0), entry(3, "A1 III", 0), entry(4, "A1 IV", 0)];
    let ops = recover(&a, &channels);
    assert_eq!(describe(&ops), vec![
        "delete 1".to_string(),
        "delete 2".to_string(),
        "rename 3 to A1 I".to_string(),
        "rename 4 to A1 II".to_string(),
    ]);
}

#[test]
fn recovery_relabels_and_moves_occupants_to_the_end() {
    let a = augmentation("", "", "");
    let channels = vec![entry(1, "A1 I", 1), entry(2, "A1 III", 0), entry(3, "A1 IV", 2)];
    assert_eq!(describe(&recover(&a, &channels)), vec![
        "rename 2 to A1 II".to_string(),
        "rename 3 to A1 III".to_string(),
        "move 3 to 2".to_string(),
    ]);
}

#[test]
fn recovery_keeps_only_the_last_empty_member() {
    let a = augmentation("F ", "M ", "L ");
    let channels = vec![
        entry(1, "M A1 II", 0),
        entry(2, "F A1 I", 3),
        entry(3, "M A1 V", 0),
        entry(4, "L A1 IX", 0),
    ];
    assert_eq!(describe(&recover(&a, &channels)), vec![
        "delete 1".to_string(),
        "delete 3".to_string(),
        "rename 4 to L A1 II".to_string(),
    ]);
}

#[test]
fn recovery_of_a_full_pool_appends_a_member() {
    let a = augmentation("F ", "M ", "L ");
    let channels = vec![entry(1, "F A1 I", 1), entry(2, "L A1 II", 2)];
    assert_eq!(describe(&recover(&a, &channels)), vec![
        "create L A1 III after Some(2)".to_string(),
        "rename 2 to M A1 II".to_string(),
    ]);
}

#[test]
fn recovered_pool_is_steady() {
    let a = augmentation("", "", "");
    let after = vec![entry(2, "A1 I", 3), entry(4, "A1 II", 0)];
    assert!(recover(&a, &after).is_empty());
    assert!(reconcile(&a, &after).is_empty());
}
