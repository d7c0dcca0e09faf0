use sunbird::augmentation::{Augmentation, AugmentationPrefix, ChannelProperty, Permission};
use sunbird::config::{find_augmentation, Config, ExternalConfig, InternalConfig};
use sunbird::errors::Error;
use sunbird::lifecycle::{onboard_target, plan_onboard, plan_reprefix, plan_retire, template_of};
use sunbird::plan::Operation;
use sunbird::pool::ChannelEntry;

fn prefix(first: &str, middle: &str, last: &str) -> AugmentationPrefix {
    AugmentationPrefix { first: first.to_string(), middle: middle.to_string(), last: last.to_string() }
}

fn entry(id: i32, name: &str, clients: i32) -> ChannelEntry {
    ChannelEntry { id, name: name.to_string(), parent_id: 7, order: 0, total_clients: clients }
}

fn grants(ps: &[Permission]) -> Vec<(String, i32)> {
    ps.iter().map(|p| (p.name.clone(), p.value)).collect()
}

fn empty_config() -> Config {
    Config {
        internal: InternalConfig { augmentations: vec![], last_badge_update: 0, afk_channel: None },
        external: ExternalConfig::default(),
    }
}

fn channel_info() -> Vec<ChannelProperty> {
    vec![
        ChannelProperty::Name("Talk".to_string()),
        ChannelProperty::Other("channel_topic".to_string(), "chat".to_string()),
        ChannelProperty::Order(3),
        ChannelProperty::FlagDefault(false),
        ChannelProperty::Password("secret".to_string()),
        ChannelProperty::IconId(99),
    ]
}

#[test]
fn default_external_config() {
    let c = ExternalConfig::default();
    assert_eq!(c.host, "127.0.0.1");
    assert_eq!(c.port, 10022);
    assert_eq!(c.user, "serveradmin");
    assert_eq!(c.pass, "password");
    assert_eq!(c.vsid, 1);
    assert_eq!(c.bind_addr, "0.0.0.0");
    assert_eq!(c.bind_port, 8000);
}

#[test]
fn template_drops_identity_attributes() {
    let t = template_of(&channel_info());
    assert_eq!(t.len(), 2);
    assert!(matches!(&t[0], ChannelProperty::Other(k, v) if k == "channel_topic" && v == "chat"));
    assert!(matches!(t[1], ChannelProperty::IconId(99)));
}

#[test]
fn onboard_target_needs_an_unregistered_existing_channel() {
    let channels = vec![entry(1, "Lobby", 0), entry(2, "Talk", 1), entry(3, "Talk", 0)];
    assert!(matches!(onboard_target(&vec![], "Talk", &channels), Ok(1)));
    assert!(matches!(onboard_target(&vec![], "Music", &channels), Err(Error::NotFound)));
    let (_, registered) = plan_onboard("Talk", prefix("", "", ""), &channels[1], &vec![], &vec![]);
    assert!(matches!(onboard_target(&vec![registered], "Talk", &channels), Err(Error::NotFound)));
}

#[test]
fn onboarding_plans_rename_guard_and_second_member() {
    let channel = entry(2, "Talk", 1);
    let granted = vec![Permission { name: "i_channel_needed_modify_power".to_string(), value: 50 }];
    let (ops, aug) = plan_onboard("Talk", prefix("▶ ", "• ", "◀ "), &channel, &granted, &channel_info());
    assert_eq!(ops.len(), 3);
    assert!(matches!(&ops[0], Operation::Rename { id: 2, name } if name == "▶ Talk I"));
    match &ops[1] {
        Operation::Grant { id, permissions } => {
            assert_eq!(*id, 2);
            assert_eq!(grants(permissions), vec![
                ("i_channel_needed_modify_power".to_string(), 100),
                ("i_channel_needed_permission_modify_power".to_string(), 100),
            ]);
        }
        _ => panic!("expected a grant"),
    }
    match &ops[2] {
        Operation::Create { name, properties, permissions } => {
            assert_eq!(name, "◀ Talk II");
            assert_eq!(properties.len(), 3);
            assert!(matches!(properties[2], ChannelProperty::Order(2)));
            assert_eq!(permissions.len(), 3);
        }
        _ => panic!("expected a creation"),
    }
    assert_eq!(aug.identifier, "Talk");
    assert_eq!(aug.parent, 7);
    assert_eq!(grants(&aug.permissions), vec![
        ("i_channel_needed_modify_power".to_string(), 50),
        ("i_channel_needed_modify_power".to_string(), 100),
        ("i_channel_needed_permission_modify_power".to_string(), 100),
    ]);
    assert_eq!(aug.properties.len(), 2);
    assert!(aug.is_instance("▶ Talk I") && aug.is_instance("◀ Talk II"));
}

#[test]
fn onboard_then_retire_restores_name_and_thresholds() {
    let channel = entry(2, "Talk", 1);
    let granted = vec![
        Permission { name: "i_channel_needed_modify_power".to_string(), value: 50 },
        Permission { name: "i_channel_needed_permission_modify_power".to_string(), value: 60 },
    ];
    let (_, aug) = plan_onboard("Talk", prefix("", "", ""), &channel, &granted, &channel_info());
    let mut config = empty_config();
    config.add_augmentation(aug);
    assert!(find_augmentation(&config.internal.augmentations, "Talk").is_some());
    let aug = match config.remove_augmentation("Talk") {
        Ok(a) => a,
        Err(_) => panic!("registered augmentation"),
    };
    assert!(find_augmentation(&config.internal.augmentations, "Talk").is_none());
    let later = vec![entry(2, "Talk I", 1), entry(5, "Talk II", 2), entry(6, "Talk III", 0)];
    let ops = plan_retire(&aug, &later);
    assert_eq!(ops.len(), 6);
    assert!(matches!(ops[0], Operation::MoveOccupants { from: 5, to: 2 }));
    assert!(matches!(ops[1], Operation::MoveOccupants { from: 6, to: 2 }));
    assert!(matches!(ops[2], Operation::Delete { id: 5 }));
    assert!(matches!(ops[3], Operation::Delete { id: 6 }));
    assert!(matches!(&ops[4], Operation::Rename { id: 2, name } if name == "Talk"));
    match &ops[5] {
        Operation::Grant { id, permissions } => {
            assert_eq!(*id, 2);
            assert_eq!(grants(permissions), vec![
                ("i_channel_needed_modify_power".to_string(), 50),
                ("i_channel_needed_permission_modify_power".to_string(), 60),
            ]);
        }
        _ => panic!("expected a grant"),
    }
}

#[test]
fn retire_falls_back_to_plain_threshold() {
    let (_, aug) = plan_onboard("Talk", prefix("", "", ""), &entry(2, "Talk", 0), &vec![], &vec![]);
    let ops = plan_retire(&aug, &vec![entry(2, "Talk I", 0), entry(3, "Talk II", 0)]);
    match ops.last() {
        Some(Operation::Grant { permissions, .. }) => assert_eq!(grants(permissions), vec![
            ("i_channel_needed_modify_power".to_string(), 75),
            ("i_channel_needed_permission_modify_power".to_string(), 75),
        ]),
        _ => panic!("expected a grant"),
    }
}

#[test]
fn retire_of_a_vanished_pool_does_nothing() {
    let (_, aug) = plan_onboard("Talk", prefix("", "", ""), &entry(2, "Talk", 0), &vec![], &vec![]);
    assert!(plan_retire(&aug, &vec![entry(2, "Talk", 0)]).is_empty());
}

#[test]
fn removing_an_unknown_augmentation_fails() {
    let mut config = empty_config();
    assert!(matches!(config.remove_augmentation("Talk"), Err(Error::NotFound)));
}

#[test]
fn reprefix_relabels_every_member() {
    let (_, mut aug) = plan_onboard("Talk", prefix("A ", "B ", "C "), &entry(2, "Talk", 0), &vec![], &vec![]);
    let channels = vec![entry(2, "A Talk I", 1), entry(4, "B Talk II", 1), entry(5, "C Talk III", 0), entry(6, "Lobby", 0)];
    let p = prefix("X ", "Y ", "Z ");
    let ops = plan_reprefix(&aug, &p, &channels);
    assert_eq!(ops.len(), 3);
    assert!(matches!(&ops[0], Operation::Rename { id: 2, name } if name == "X Talk I"));
    assert!(matches!(&ops[1], Operation::Rename { id: 4, name } if name == "Y Talk II"));
    assert!(matches!(&ops[2], Operation::Rename { id: 5, name } if name == "Z Talk III"));
    aug.set_prefix(p);
    assert!(aug.is_instance("Y Talk II"));
}
