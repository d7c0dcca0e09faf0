use sunbird::augmentation::{Augmentation, AugmentationPrefix};
use sunbird::drift::{chain_similar, is_numbered, potential_augmentations};
use sunbird::pool::ChannelEntry;

fn entry(id: i32, name: &str) -> ChannelEntry {
    ChannelEntry { id, name: name.to_string(), parent_id: 0, order: 0, total_clients: 0 }
}

fn similarity(channels: &[ChannelEntry]) -> Vec<Vec<bool>> {
    channels
        .iter()
        .map(|a| channels.iter().map(|b| strsim::jaro(&a.name, &b.name) > 0.8).collect())
        .collect()
}

fn augmentation(identifier: &str) -> Augmentation {
    Augmentation {
        identifier: identifier.to_string(),
        parent: 0,
        prefix: AugmentationPrefix { first: String::new(), middle: String::new(), last: String::new() },
        permissions: vec![],
        properties: vec![],
    }
}

#[test]
fn foo_pool_without_augmentation_warns_once() {
    let channels = vec![entry(1, "Foo I"), entry(2, "Foo II"), entry(3, "Bar I")];
    let groups = potential_augmentations(&channels, &similarity(&channels), &vec![]);
    assert_eq!(groups, vec![vec![0usize, 1]]);
}

#[test]
fn single_channel_groups_do_not_warn() {
    let channels = vec![entry(3, "Bar I")];
    assert!(potential_augmentations(&channels, &similarity(&channels), &vec![]).is_empty());
}

#[test]
fn registered_pool_does_not_warn() {
    let channels = vec![entry(1, "Foo I"), entry(2, "Foo II"), entry(3, "Bar I")];
    let groups = potential_augmentations(&channels, &similarity(&channels), &vec![augmentation("Foo")]);
    assert!(groups.is_empty());
}

#[test]
fn chaining_compares_with_the_latest_member_only() {
    let channels = vec![entry(1, "a I"), entry(2, "b I"), entry(3, "c I"), entry(4, "Lobby")];
    let mut similar = vec![vec![false; 4]; 4];
    similar[0][1] = true;
    similar[1][2] = true;
    let groups = chain_similar(&channels, &similar);
    assert_eq!(groups, vec![vec![0usize, 1, 2]]);
    similar[1][2] = false;
    similar[0][2] = true;
    assert_eq!(chain_similar(&channels, &similar), vec![vec![0usize, 1], vec![2]]);
}

#[test]
fn numbered_names() {
    assert!(is_numbered("Foo II"));
    assert!(is_numbered("X"));
    assert!(is_numbered("Room-IV"));
    assert!(!is_numbered("Lobby"));
    assert!(!is_numbered(""));
    assert!(!is_numbered("Foo\nII"));
    assert!(!is_numbered("Foo ii"));
}
