use rebi::config::{KeydConfig, Layer};
use rebi::mappings::Mappings;

fn mapping_pairs(layer: &Layer) -> Vec<(String, String)> {
    let mut v = Vec::new();
    for i in 0..layer.mappings.len() {
        v.push((layer.mappings.key_at(i).clone(), layer.mappings.value_at(i).clone()));
    }
    v
}

#[test]
fn parse_basic_config() {
    let text = "[ids]\n*\n\n[main]\ncapslock = overload(control, esc)\nesc = capslock\n";
    let c = KeydConfig::from_str(text);
    assert_eq!(c.ids, vec!["*".to_string()]);
    assert_eq!(c.layers.len(), 1);
    assert_eq!(c.layers[0].name, "main");
    assert!(c.layers[0].modifiers.is_empty());
    assert_eq!(
        mapping_pairs(&c.layers[0]),
        vec![
            ("capslock".to_string(), "overload(control, esc)".to_string()),
            ("esc".to_string(), "capslock".to_string()),
        ]
    );
}

#[test]
fn parse_defaults_ids_and_main() {
    let c = KeydConfig::from_str("");
    assert_eq!(c.ids, vec!["*".to_string()]);
    assert_eq!(c.layers.len(), 1);
    assert_eq!(c.layers[0].name, "main");
    assert_eq!(c.layers[0].mappings.len(), 0);
}

#[test]
fn parse_moves_main_to_front() {
    let text = "[nav:S-C]\nh = left\n[main]\na = b\n";
    let c = KeydConfig::from_str(text);
    assert_eq!(c.layers.len(), 2);
    assert_eq!(c.layers[0].name, "main");
    assert_eq!(c.layers[1].name, "nav");
    assert_eq!(c.layers[1].modifiers, vec!['C', 'S']);
    assert_eq!(mapping_pairs(&c.layers[1]), vec![("h".to_string(), "left".to_string())]);
}

#[test]
fn parse_skips_comments_blank_and_orphan_lines() {
    let text = "orphan = 1\n# comment\n\n  [ids]  \n  k:0001  \n# c\n[main]\n  x   =   y  \nnoequals\n";
    let c = KeydConfig::from_str(text);
    assert_eq!(c.ids, vec!["k:0001".to_string()]);
    assert_eq!(c.layers.len(), 1);
    assert_eq!(mapping_pairs(&c.layers[0]), vec![("x".to_string(), "y".to_string())]);
}

#[test]
fn parse_later_binding_wins_and_value_keeps_equals() {
    let text = "[main]\na = 1\nb = x=y\na = 2\n";
    let c = KeydConfig::from_str(text);
    assert_eq!(
        mapping_pairs(&c.layers[0]),
        vec![("a".to_string(), "2".to_string()), ("b".to_string(), "x=y".to_string())]
    );
}

#[test]
fn parse_modifier_heads_and_order() {
    let c = KeydConfig::from_str("[main]\n[l:Gx-Shift--A-control-X]\n");
    assert_eq!(c.layers[1].name, "l");
    // First letters G, S, A, c, X sorted by C M A S G, others last.
    assert_eq!(c.layers[1].modifiers, vec!['A', 'S', 'G', 'c', 'X']);
}

#[test]
fn parse_crlf_lines() {
    let c = KeydConfig::from_str("[ids]\r\nabcd:1234\r\n\r\n[main]\r\na = b\r\n");
    assert_eq!(c.ids, vec!["abcd:1234".to_string()]);
    assert_eq!(mapping_pairs(&c.layers[0]), vec![("a".to_string(), "b".to_string())]);
}

#[test]
fn parse_duplicate_main_keeps_first_in_front() {
    let c = KeydConfig::from_str("[x]\n[main]\na = 1\n[main]\nb = 2\n");
    assert_eq!(c.layers.len(), 3);
    assert_eq!(c.layers[0].name, "main");
    assert_eq!(mapping_pairs(&c.layers[0]), vec![("a".to_string(), "1".to_string())]);
    assert_eq!(c.layers[1].name, "x");
    assert_eq!(c.layers[2].name, "main");
}

#[test]
fn render_config_text() {
    let mut c = KeydConfig::new();
    c.ids.push("*".to_string());
    let mut main = Layer::named("main".to_string());
    main.mappings.insert("z".to_string(), "a".to_string());
    main.mappings.insert("b".to_string(), "layer(nav)".to_string());
    c.layers.push(main);
    let mut nav = Layer::named("nav".to_string());
    nav.modifiers = vec!['S', 'C'];
    nav.mappings.insert("h".to_string(), "left".to_string());
    c.layers.push(nav);
    assert_eq!(
        c.to_string(),
        "[ids]\n*\n\n[main]\nb = layer(nav)\nz = a\n\n[nav:C-S]\nh = left\n\n"
    );
}

#[test]
fn render_then_parse_roundtrip() {
    let text = "[ids]\n046d:c52b\n1234:abcd\n\n[main]\ncapslock = overload(control, esc)\n\n[nav:C-A]\nh = left\nl = right\n\n";
    let c = KeydConfig::from_str(text);
    assert_eq!(c.to_string(), text);
    let again = KeydConfig::from_str(&c.to_string());
    assert_eq!(again.to_string(), text);
}

#[test]
fn default_device_text_parses_to_fresh_config() {
    let c = KeydConfig::from_str("[ids]\n*\n\n[main]\n");
    let f = rebi::profile::fresh_device_config();
    assert_eq!(c.to_string(), f.to_string());
    assert_eq!(f.to_string(), "[ids]\n*\n\n[main]\n\n");
}

#[test]
fn sort_modifiers_order_and_stability() {
    let mut m = vec!['G', 'x', 'S', 'C', 'y', 'M', 'A', 'C'];
    KeydConfig::sort_modifiers(&mut m);
    assert_eq!(m, vec!['C', 'C', 'M', 'A', 'S', 'G', 'x', 'y']);
    let mut again = m.clone();
    KeydConfig::sort_modifiers(&mut again);
    assert_eq!(again, m);
}

#[test]
fn add_and_remove_layers() {
    let mut c = KeydConfig::from_str("[main]\n");
    c.add_layer("nav".to_string());
    c.add_layer("nav".to_string());
    assert_eq!(c.layers.len(), 2);
    c.remove_layer("main");
    assert_eq!(c.layers.len(), 2);
    c.remove_layer("nav");
    assert_eq!(c.layers.len(), 1);
    assert_eq!(c.layers[0].name, "main");
}

#[test]
fn get_layer_mut_edits_in_place() {
    let mut c = KeydConfig::from_str("[main]\n[nav]\n");
    {
        let l = c.get_layer_mut("nav").expect("nav exists");
        l.mappings.insert("a".to_string(), "b".to_string());
    }
    assert!(c.get_layer_mut("missing").is_none());
    assert_eq!(c.to_string(), "[ids]\n*\n\n[main]\n\n[nav]\na = b\n\n");
}

#[test]
fn mappings_table_operations() {
    let mut m = Mappings::new();
    assert!(m.is_empty());
    assert_eq!(m.insert("b".to_string(), "1".to_string()), None);
    assert_eq!(m.insert("a".to_string(), "2".to_string()), None);
    assert_eq!(m.insert("b".to_string(), "3".to_string()), Some("1".to_string()));
    assert_eq!(m.len(), 2);
    assert_eq!(m.key_at(0), "a");
    assert_eq!(m.get("b"), Some(&"3".to_string()));
    assert!(m.contains_key("a"));
    assert_eq!(m.remove("a"), Some("2".to_string()));
    assert_eq!(m.remove("a"), None);
    assert_eq!(m.get("a"), None);
    let d = m.duplicate();
    assert_eq!(d.len(), 1);
    assert_eq!(d.value_at(0), "3");
}

#[test]
fn crlf_and_comment_lines_read_the_same() {
    let text = "[ids]\nk1\n\n[main]\na = b\n[nav:S-C]\nx = y\n";
    let crlf = text.replace('\n', "\r\n");
    let extra = "# top\n[ids]\n\n   # note\nk1\n\n[main]\n\na = b\n  \n[nav:S-C]\n# inside\nx = y\n";
    let base = KeydConfig::from_str(text).to_string();
    assert_eq!(KeydConfig::from_str(&crlf).to_string(), base);
    assert_eq!(KeydConfig::from_str(extra).to_string(), base);
    let c = KeydConfig::from_str(&crlf);
    assert_eq!(c.ids, vec!["k1".to_string()]);
    assert_eq!(c.layers[1].name, "nav");
    assert_eq!(c.layers[1].modifiers, vec!['C', 'S']);
}

#[test]
fn written_text_ignores_insertion_and_modifier_order() {
    let mut a = KeydConfig::new();
    a.ids.push("*".to_string());
    let mut la = Layer::named("main".to_string());
    la.mappings.insert("b".to_string(), "2".to_string());
    la.mappings.insert("a".to_string(), "1".to_string());
    la.modifiers = vec!['S', 'C'];
    a.layers.push(la);
    let mut b = KeydConfig::new();
    b.ids.push("*".to_string());
    let mut lb = Layer::named("main".to_string());
    lb.mappings.insert("a".to_string(), "1".to_string());
    lb.mappings.insert("b".to_string(), "2".to_string());
    lb.modifiers = vec!['C', 'S'];
    b.layers.push(lb);
    assert_eq!(a.to_string(), b.to_string());
    assert_eq!(a.to_string(), "[ids]\n*\n\n[main:C-S]\na = 1\nb = 2\n\n");
}
