use genealogy_core::plugins::{
    capability_matches, plugins_to_run, supports, PluginCapability, PluginMetadata,
};

fn plugin(name: &str, capabilities: Vec<PluginCapability>) -> PluginMetadata {
    PluginMetadata {
        name: name.to_string(),
        version: "1.0".to_string(),
        author: None,
        description: None,
        capabilities,
    }
}

fn export(label: &str) -> PluginCapability {
    PluginCapability::Export(label.to_string())
}

#[test]
fn capabilities_match_by_kind_and_label() {
    assert!(capability_matches(&PluginCapability::PersonInsights, &PluginCapability::PersonInsights));
    assert!(capability_matches(&PluginCapability::FamilyInsights, &PluginCapability::FamilyInsights));
    assert!(!capability_matches(&PluginCapability::PersonInsights, &PluginCapability::FamilyInsights));
    assert!(capability_matches(&export("gedcom"), &export("gedcom")));
    assert!(!capability_matches(&export("gedcom"), &export("json")));
    assert!(!capability_matches(&export("gedcom"), &PluginCapability::PersonInsights));
}

#[test]
fn a_plugin_supports_what_it_lists() {
    let listed = vec![PluginCapability::PersonInsights, export("gedcom")];
    assert!(supports(&listed, &PluginCapability::PersonInsights));
    assert!(supports(&listed, &export("gedcom")));
    assert!(!supports(&listed, &export("csv")));
    assert!(!supports(&listed, &PluginCapability::FamilyInsights));
    assert!(!supports(&vec![], &PluginCapability::PersonInsights));
}

#[test]
fn the_plugins_to_run_are_chosen_in_the_order_of_registration() {
    let registered = vec![
        plugin("a", vec![PluginCapability::PersonInsights]),
        plugin("b", vec![export("gedcom")]),
        plugin("c", vec![PluginCapability::FamilyInsights, PluginCapability::PersonInsights]),
        plugin("d", vec![]),
    ];
    assert_eq!(plugins_to_run(&registered, &PluginCapability::PersonInsights), vec![0, 2]);
    assert_eq!(plugins_to_run(&registered, &export("gedcom")), vec![1]);
    assert_eq!(plugins_to_run(&registered, &export("csv")), Vec::<usize>::new());
    assert_eq!(plugins_to_run(&vec![], &PluginCapability::PersonInsights), Vec::<usize>::new());
}
