use rebi::action::ActionType;
use rebi::config::{KeydConfig, Layer};
use rebi::devices::parse_devices;
use rebi::edit::{search_matches, LayerRename};
use rebi::names::{button_name, first_free_name, key_combination, MouseButton};
use rebi::profile::{
    check_profile_rename, rename_selected, DeviceConfigItem, DeviceRename, ProfileEditor,
    ProfileRename,
};

#[test]
fn first_free_names() {
    let taken = vec!["key_1".to_string(), "key_2".to_string(), "key_4".to_string()];
    assert_eq!(first_free_name("key_", &taken), "key_3");
    assert_eq!(first_free_name("device_", &Vec::new()), "device_1");
    let many: Vec<String> = (1..=12).map(|i| format!("x{}", i)).collect();
    assert_eq!(first_free_name("x", &many), "x13");
}

#[test]
fn key_combinations_and_buttons() {
    assert_eq!(key_combination(true, false, false, true, "s"), "C-S-s");
    assert_eq!(key_combination(false, true, true, false, "tab"), "M-A-tab");
    assert_eq!(key_combination(false, false, false, false, "a"), "a");
    assert_eq!(button_name(MouseButton::Left), "leftmouse");
    assert_eq!(button_name(MouseButton::Back), "mouse1");
    assert_eq!(button_name(MouseButton::Forward), "mouse2");
    assert_eq!(button_name(MouseButton::Other(17)), "mouse17");
}

#[test]
fn toggle_modifiers() {
    let mut l = Layer::named("nav".to_string());
    l.toggle_modifier('C', true);
    l.toggle_modifier('C', true);
    l.toggle_modifier('S', true);
    assert_eq!(l.modifiers, vec!['C', 'S']);
    l.toggle_modifier('C', false);
    assert_eq!(l.modifiers, vec!['S']);
}

#[test]
fn add_rebind_and_retype_mappings() {
    let mut l = Layer::named("main".to_string());
    assert_eq!(l.add_mapping(), "key_1");
    assert_eq!(l.add_mapping(), "key_2");
    assert_eq!(l.mappings.get("key_1"), Some(&"void".to_string()));
    l.rebind_key("key_1", "capslock".to_string());
    assert_eq!(l.mappings.get("key_1"), None);
    assert_eq!(l.mappings.get("capslock"), Some(&"void".to_string()));
    l.set_action_type("capslock", ActionType::Overload);
    assert_eq!(l.mappings.get("capslock"), Some(&"overload(void, void)".to_string()));
    l.set_action_arg("capslock", 1, "esc");
    assert_eq!(l.mappings.get("capslock"), Some(&"overload(void, esc)".to_string()));
    l.rebind_key("missing", "x".to_string());
    assert_eq!(l.mappings.len(), 2);
    assert_eq!(l.keys(), vec!["capslock".to_string(), "key_2".to_string()]);
}

#[test]
fn id_list_edits() {
    let mut c = KeydConfig::from_str("");
    c.add_device_id("046d:c52b".to_string());
    assert_eq!(c.ids, vec!["046d:c52b".to_string()]);
    c.add_device_id("046d:c52b".to_string());
    c.add_device_id("1234:5678".to_string());
    assert_eq!(c.ids, vec!["046d:c52b".to_string(), "1234:5678".to_string()]);
    c.change_id(1, "aaaa:bbbb".to_string());
    c.change_id(9, "ignored".to_string());
    assert_eq!(c.ids[1], "aaaa:bbbb");
    c.delete_id(0);
    assert_eq!(c.ids, vec!["aaaa:bbbb".to_string()]);
    c.delete_id(0);
    assert_eq!(c.ids, vec!["*".to_string()]);
    c.add_id();
    assert_eq!(c.ids, vec!["*".to_string(), String::new()]);
}

#[test]
fn layer_naming_and_renaming() {
    let mut c = KeydConfig::from_str("[main]\n");
    assert_eq!(c.new_layer(), "New layer 1");
    assert_eq!(c.new_layer(), "New layer 2");
    assert_eq!(c.rename_layer("New layer 1", " a:b "), LayerRename::InvalidName);
    assert_eq!(c.rename_layer("New layer 1", "   "), LayerRename::Unchanged);
    assert_eq!(c.rename_layer("New layer 1", "New layer 2"), LayerRename::AlreadyExists);
    assert_eq!(c.rename_layer("nope", "other"), LayerRename::NotFound);
    assert_eq!(c.rename_layer("New layer 1", "  nav  "), LayerRename::Renamed);
    assert_eq!(c.layers[1].name, "nav");
}

#[test]
fn shown_layers_and_search() {
    let c = KeydConfig::from_str("[main]\n[Zeta]\n[alpha]\n[Nav]\n");
    assert_eq!(c.shown_layer_names(""), vec!["main", "Nav", "Zeta", "alpha"]);
    assert_eq!(c.shown_layer_names("A"), vec!["main", "Nav", "Zeta", "alpha"]);
    assert_eq!(c.shown_layer_names("NAV"), vec!["main", "Nav"]);
    assert!(search_matches("Main Profile", "PROF"));
    assert!(!search_matches("Main Profile", "xyz"));
    assert!(search_matches("anything", ""));
}

#[test]
fn device_list_parsing() {
    let content = "I: Bus=0003 Vendor=046d Product=c52b Version=0111\nN: Name=\"Logitech USB Receiver\"\nP: Phys=usb\n\nI: Bus=0011 Vendor=0001 Product=0001 Version=ab41\nN: Name=\"Generic USB Keyboard\"\n\nI: Bus=0003 Vendor=046d Product=c52b Version=0111\nN: Name=\"Logitech USB Receiver\"\n\nI: Bus=0019 Vendor=0000 Product=0000\nN: Name=\"Power Button\"\n\nI: Bus=0019 Vendor=0000 Product=0001\n";
    let d = parse_devices(content);
    let got: Vec<(String, String)> = d.into_iter().map(|x| (x.name, x.id)).collect();
    assert_eq!(
        got,
        vec![
            ("Generic USB Keyboard".to_string(), "0001:0001".to_string()),
            ("Logitech USB Receiver".to_string(), "046d:c52b".to_string()),
            ("Power Button".to_string(), "0000:0000".to_string()),
            ("Unknown Device".to_string(), "0000:0001".to_string()),
        ]
    );
}

fn item(name: &str) -> DeviceConfigItem {
    DeviceConfigItem { name: name.to_string(), config: KeydConfig::from_str("") }
}

#[test]
fn profile_editor_flow() {
    let mut e = ProfileEditor::open(vec![item("laptop"), item("default")]);
    assert_eq!(e.device_configs[0].name, "default");
    assert_eq!(e.active_device_config.as_deref(), Some("default"));
    assert_eq!(e.active_layer.as_deref(), Some("main"));
    assert_eq!(e.new_device_config(), "device_1");
    assert_eq!(e.active_device_config.as_deref(), Some("device_1"));
    let names: Vec<&str> = e.device_configs.iter().map(|d| d.name.as_str()).collect();
    assert_eq!(names, vec!["default", "device_1", "laptop"]);
    let (file, text) = e.save_target().expect("selected");
    assert_eq!(file, "device_1.conf");
    assert_eq!(text, "[ids]\n*\n\n[main]\n\n");
    match e.check_device_config_rename("device_1", " laptop ") {
        DeviceRename::AlreadyExists(n) => assert_eq!(n, "laptop"),
        _ => panic!("expected a clash"),
    }
    match e.check_device_config_rename("device_1", "desk") {
        DeviceRename::Proceed(n) => e.apply_device_config_rename("device_1", n),
        _ => panic!("expected to proceed"),
    }
    assert_eq!(e.active_device_config.as_deref(), Some("desk"));
    let names: Vec<&str> = e.device_configs.iter().map(|d| d.name.as_str()).collect();
    assert_eq!(names, vec!["default", "desk", "laptop"]);
    {
        let c = e.active_config_mut().expect("selected");
        c.add_layer("nav".to_string());
    }
    e.select_layer("nav".to_string());
    e.layer_renamed("nav", "move".to_string());
    assert_eq!(e.active_layer.as_deref(), Some("move"));
    e.layer_deleted("move");
    assert_eq!(e.active_layer.as_deref(), Some("main"));
    e.delete_device_config("desk");
    assert_eq!(e.active_device_config.as_deref(), Some("default"));
    e.delete_device_config("default");
    e.delete_device_config("laptop");
    assert_eq!(e.active_device_config, None);
    assert_eq!(e.active_layer, None);
    assert!(e.save_target().is_none());
}

#[test]
fn device_list_drops_every_repeat() {
    let content = "I: Bus=0003 Vendor=a Product=b\nN: Name=\"Pad\"\n\nI: Bus=0003 Vendor=c Product=d\nN: Name=\"Pad\"\n\nI: Bus=0003 Vendor=a Product=b\nN: Name=\"Pad\"\n";
    let d = parse_devices(content);
    let got: Vec<(String, String)> = d.into_iter().map(|x| (x.name, x.id)).collect();
    assert_eq!(
        got,
        vec![("Pad".to_string(), "a:b".to_string()), ("Pad".to_string(), "c:d".to_string())]
    );
}

#[test]
fn profile_rename_decisions() {
    assert!(matches!(check_profile_rename("Work", "  "), ProfileRename::Unchanged));
    assert!(matches!(check_profile_rename("Work", " Work "), ProfileRename::Unchanged));
    match check_profile_rename("Work", "  Gaming ") {
        ProfileRename::Proceed(n) => assert_eq!(n, "Gaming"),
        ProfileRename::Unchanged => panic!("expected a rename"),
    }
}

#[test]
fn selection_follows_profile_rename() {
    let sel = vec!["a".to_string(), "old".to_string(), "b".to_string()];
    assert_eq!(rename_selected(sel, "old", "new".to_string()), vec!["a", "b", "new"]);
    let sel = vec!["a".to_string(), "b".to_string()];
    assert_eq!(rename_selected(sel, "old", "new".to_string()), vec!["a", "b"]);
    let sel = vec!["old".to_string(), "new".to_string()];
    assert_eq!(rename_selected(sel, "old", "new".to_string()), vec!["new"]);
}

#[test]
fn selection_stays_on_existing_config() {
    let mut e = ProfileEditor::open(vec![item("b"), item("a")]);
    assert_eq!(e.active_device_config.as_deref(), Some("a"));
    e.delete_device_config("a");
    assert_eq!(e.active_device_config.as_deref(), Some("b"));
    e.apply_device_config_rename("b", "c".to_string());
    assert_eq!(e.active_device_config.as_deref(), Some("c"));
    assert_eq!(e.device_configs[0].name, "c");
    e.delete_device_config("c");
    assert_eq!(e.active_device_config, None);
}

#[test]
fn closing_keeps_layer_selection() {
    let mut e = ProfileEditor::open(vec![item("a")]);
    e.select_layer("nav".to_string());
    e.close();
    assert!(e.device_configs.is_empty());
    assert_eq!(e.active_device_config, None);
    assert_eq!(e.active_layer.as_deref(), Some("nav"));
}
