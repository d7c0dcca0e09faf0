use sunbird::augmentation::{Augmentation, AugmentationPrefix};
use sunbird::helper::{Channel, Client};
use sunbird::tree::{mark_augmented, name_less, set_indent_levels, sort_clients, update_can_talk};

fn channel(id: i32, name: &str, parent_id: i32) -> Channel {
    Channel {
        id,
        name: name.to_string(),
        parent_id,
        talk_power: 0,
        is_augmented: false,
        augmentation_id: None,
        highlight_color: None,
        indent_level: -1,
    }
}

fn client(id: i32, name: &str, talk_power: i32) -> Client {
    Client {
        id,
        name: name.to_string(),
        channel: 1,
        is_query: false,
        talk_power,
        can_talk: false,
        badges: vec![],
        country: None,
    }
}

#[test]
fn indent_levels_follow_parents() {
    let mut channels = vec![channel(1, "Lobby", 0), channel(2, "Games", 0), channel(3, "Chess", 2), channel(4, "Blitz", 3), channel(5, "Lost", 99)];
    set_indent_levels(&mut channels);
    assert_eq!(channels.iter().map(|c| c.indent_level).collect::<Vec<_>>(), vec![0, 0, 1, 2, 1]);
    assert_eq!(channels[3].name, "Blitz");
}

#[test]
fn augmented_channels_are_marked() {
    let aug = Augmentation {
        identifier: "Talk".to_string(),
        parent: 0,
        prefix: AugmentationPrefix { first: String::new(), middle: String::new(), last: String::new() },
        permissions: vec![],
        properties: vec![],
    };
    let mut channels = vec![channel(1, "Talk I", 0), channel(2, "Lobby", 0), channel(3, "Talk II", 0)];
    mark_augmented(&mut channels, &aug, &"hsl(1, 50%, 70%)".to_string());
    assert!(channels[0].is_augmented && channels[2].is_augmented && !channels[1].is_augmented);
    assert_eq!(channels[0].augmentation_id.as_deref(), Some("Talk"));
    assert_eq!(channels[2].highlight_color.as_deref(), Some("hsl(1, 50%, 70%)"));
    assert_eq!(channels[1].augmentation_id, None);
}

#[test]
fn talk_power_decides_who_may_talk() {
    let mut clients = vec![client(1, "a", 10), client(2, "b", 5), client(3, "c", 20)];
    clients[1].can_talk = true;
    update_can_talk(&mut clients, 10);
    assert_eq!(clients.iter().map(|c| c.can_talk).collect::<Vec<_>>(), vec![true, true, true]);
    let mut others = vec![client(4, "d", 9)];
    update_can_talk(&mut others, 10);
    assert!(!others[0].can_talk);
}

#[test]
fn clients_sort_by_power_then_name() {
    let sorted = sort_clients(vec![
        client(1, "bob", 10),
        client(2, "alice", 10),
        client(3, "zed", 50),
        client(4, "Alice", 10),
        client(5, "alice", 10),
        client(6, "eve", 0),
    ]);
    assert_eq!(sorted.iter().map(|c| c.id).collect::<Vec<_>>(), vec![3, 4, 2, 5, 1, 6]);
    assert!(sort_clients(vec![]).is_empty());
}

#[test]
fn names_compare_by_character() {
    assert!(name_less("Alice", "alice"));
    assert!(name_less("ab", "abc"));
    assert!(!name_less("abc", "ab"));
    assert!(!name_less("same", "same"));
    assert!(name_less("z", "é"));
}
