use blood_money::topology::{process_connected_realms, RealmInfo};

fn realm(slug: &str, connected: &[&str]) -> RealmInfo {
    RealmInfo {
        name: String::from(slug),
        slug: String::from(slug),
        connected_realms: connected.iter().map(|s| String::from(*s)).collect(),
    }
}

#[test]
fn grouping_merges_connected_realms() {
    let realms = vec![
        realm("alpha", &["alpha", "beta"]),
        realm("beta", &["alpha", "beta"]),
        realm("gamma", &["gamma"]),
    ];
    let groups = process_connected_realms(&realms);
    assert_eq!(
        groups,
        vec![
            vec![String::from("alpha"), String::from("beta")],
            vec![String::from("gamma")],
        ]
    );
}

#[test]
fn grouping_is_idempotent() {
    let realms = vec![
        realm("alpha", &["alpha", "beta"]),
        realm("beta", &["alpha", "beta"]),
        realm("gamma", &["gamma"]),
    ];
    let once = process_connected_realms(&realms);
    let twice = process_connected_realms(&realms);
    assert_eq!(once, twice);
    // Feeding the groups back in as realm lists changes nothing either.
    let as_realms: Vec<RealmInfo> = once
        .iter()
        .map(|g| RealmInfo {
            name: g[0].clone(),
            slug: g[0].clone(),
            connected_realms: g.clone(),
        })
        .collect();
    let again = process_connected_realms(&as_realms);
    assert_eq!(once, again);
}

#[test]
fn grouping_ignores_input_order() {
    let forward = vec![
        realm("alpha", &["alpha", "beta"]),
        realm("beta", &["alpha", "beta"]),
        realm("gamma", &["gamma"]),
    ];
    let backward = vec![
        realm("gamma", &["gamma"]),
        realm("beta", &["alpha", "beta"]),
        realm("alpha", &["alpha", "beta"]),
    ];
    assert_eq!(
        process_connected_realms(&forward),
        process_connected_realms(&backward)
    );
}

#[test]
fn singleton_realm_is_its_own_group() {
    let realms = vec![realm("solo", &["solo"])];
    let groups = process_connected_realms(&realms);
    assert_eq!(groups, vec![vec![String::from("solo")]]);
}

#[test]
fn groups_are_sorted_by_lead_realm() {
    let realms = vec![
        realm("zuluhed", &["zuluhed"]),
        realm("arthas", &["arthas"]),
        realm("magtheridon", &["magtheridon"]),
    ];
    let groups = process_connected_realms(&realms);
    assert_eq!(
        groups,
        vec![
            vec![String::from("arthas")],
            vec![String::from("magtheridon")],
            vec![String::from("zuluhed")],
        ]
    );
}

#[test]
fn no_realms_give_no_groups() {
    let realms: Vec<RealmInfo> = Vec::new();
    assert!(process_connected_realms(&realms).is_empty());
}
