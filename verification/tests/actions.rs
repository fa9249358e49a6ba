use rebi::action::{
    args_in_order_check, change_action_arg, change_action_type, detect_action_type, raw_args,
    split_args, split_fits, kind_change_fits, arg_change_fits, ActionType, ArgType,
};

#[test]
fn split_args_top_level_commas() {
    assert_eq!(split_args("a, b ,c"), vec!["a", "b", "c"]);
    assert_eq!(split_args("x, macro(a, b), y"), vec!["x", "macro(a, b)", "y"]);
    assert_eq!(split_args(""), Vec::<String>::new());
    assert_eq!(split_args("a,"), vec!["a"]);
    assert_eq!(split_args("a, "), vec!["a", ""]);
    assert_eq!(split_args(",a"), vec!["", "a"]);
}

#[test]
fn schemas_and_prefixes() {
    assert_eq!(ActionType::Simple.args_schema(), vec![ArgType::Key]);
    assert_eq!(
        ActionType::OverloadT.args_schema(),
        vec![ArgType::Layer, ArgType::Key, ArgType::Timeout]
    );
    assert_eq!(
        ActionType::Timeout.args_schema(),
        vec![ArgType::Key, ArgType::Timeout, ArgType::Key]
    );
    assert_eq!(ActionType::Simple.prefix(), None);
    assert_eq!(ActionType::OverloadT.prefix(), Some("overloadt"));
    assert_eq!(ActionType::Command.prefix(), Some("command"));
    assert_eq!(ActionType::OverloadT.label(), "OverloadT");
    assert_eq!(ActionType::Swap.label(), "Swap");
}

#[test]
fn detect_kinds() {
    assert_eq!(detect_action_type("overloadt(nav, a, 200)"), ActionType::OverloadT);
    assert_eq!(detect_action_type("overload(nav, a)"), ActionType::Overload);
    assert_eq!(detect_action_type("layer(nav)"), ActionType::Layer);
    assert_eq!(detect_action_type("macro(hello)"), ActionType::Macro);
    assert_eq!(detect_action_type("swap(x)"), ActionType::Swap);
    assert_eq!(detect_action_type("command(ls)"), ActionType::Command);
    assert_eq!(detect_action_type("timeout(a, 1, b)"), ActionType::Timeout);
    assert_eq!(detect_action_type("esc"), ActionType::Simple);
    assert_eq!(detect_action_type("layer"), ActionType::Simple);
}

#[test]
fn raw_args_extraction() {
    assert_eq!(raw_args("overload(nav, esc)"), "nav, esc");
    assert_eq!(raw_args("macro(a (b) c"), "a (b");
    assert_eq!(raw_args("esc"), "esc");
    assert!(args_in_order_check("a(b)"));
    assert!(!args_in_order_check(")("));
    assert!(args_in_order_check("no parens"));
}

#[test]
fn change_type_keeps_and_fills_args() {
    assert_eq!(change_action_type("esc", ActionType::Overload), "overload(esc, void)");
    assert_eq!(
        change_action_type("overload(nav, esc)", ActionType::OverloadT),
        "overloadt(nav, esc, 200)"
    );
    assert_eq!(change_action_type("overload(nav, esc)", ActionType::Simple), "nav");
    assert_eq!(change_action_type("layer(", ActionType::Layer), "layer(main)");
    assert_eq!(change_action_type("", ActionType::Macro), "macro(type_here)");
    assert_eq!(change_action_type("x", ActionType::Timeout), "timeout(x, 200, void)");
}

#[test]
fn change_arg_rewrites_list() {
    assert_eq!(change_action_arg("overload(nav, esc)", 1, "a"), "overload(nav, a)");
    assert_eq!(change_action_arg("overload(nav)", 2, "x"), "overload(nav, , x)");
    assert_eq!(change_action_arg("esc", 0, "tab"), "tab");
    assert_eq!(change_action_arg("esc", 1, "tab"), "esc");
    assert_eq!(change_action_arg("layer(nav", 0, "main"), "layer(main");
}

#[test]
fn changed_kind_is_detected() {
    for a in [
        ActionType::Layer,
        ActionType::Overload,
        ActionType::OverloadT,
        ActionType::Timeout,
        ActionType::Macro,
        ActionType::Swap,
        ActionType::Command,
    ] {
        let v = change_action_type("overloadt(x, y)", a);
        assert_eq!(detect_action_type(&v), a);
    }
}

#[test]
fn set_argument_reads_back() {
    let v = change_action_arg("timeout(a, 100, b)", 1, "250");
    assert_eq!(v, "timeout(a, 250, b)");
    assert_eq!(split_args(&raw_args(&v)), vec!["a", "250", "b"]);
    let w = change_action_arg("layer(nav", 2, "x");
    assert_eq!(split_args(&raw_args(&w)), vec!["nav", "", "x"]);
}

#[test]
fn balanced_arguments_split_back() {
    let args = vec!["macro(a, b)".to_string(), "x".to_string(), "f(g(h), i)".to_string()];
    assert_eq!(split_args(&args.join(", ")), args);
    let one = vec!["timeout(a, 200, b)".to_string()];
    assert_eq!(split_args(&one.join(", ")), one);
}

#[test]
fn depth_checks() {
    assert!(split_fits("a, (b, c)"));
    assert!(split_fits(""));
    assert!(kind_change_fits("overload(nav, esc)"));
    assert!(!kind_change_fits(")x("));
    assert!(arg_change_fits("timeout(a, 200, b)"));
    assert!(arg_change_fits("plain"));
    assert!(!arg_change_fits(")a(b"));
}
