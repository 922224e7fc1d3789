use route_proxy::model::{
    add_rule, blank_rule, model_set, new_model, new_row_ids, remove_rule, rules_of, stacked_height,
    Host, Rule,
};

fn rule(addr: &str) -> Rule {
    Rule {
        matcher: Host { addr: addr.to_string(), path_prefix: "/".to_string() },
        forward: Host { addr: String::new(), path_prefix: String::new() },
    }
}

#[test]
fn ids_are_fresh_and_stable() {
    let mut ids = new_row_ids();
    let mut m = new_model();
    assert_eq!(m.len(), 0);
    let a = add_rule(&mut m, &mut ids, rule("a")).unwrap();
    let b = add_rule(&mut m, &mut ids, rule("b")).unwrap();
    let c = add_rule(&mut m, &mut ids, rule("c")).unwrap();
    assert_eq!((a, b, c), (1, 2, 3));
    let removed = remove_rule(&mut m, b).unwrap();
    assert_eq!(removed.id, 2);
    assert_eq!(removed.rule.matcher.addr, "b");
    assert_eq!(m.len(), 2);
    assert_eq!((m.id_at(0), m.id_at(1)), (1, 3));
    assert!(remove_rule(&mut m, b).is_none());
    assert_eq!(m.len(), 2);
    let d = add_rule(&mut m, &mut ids, rule("d")).unwrap();
    assert_eq!(d, 4);
    let addrs: Vec<String> = rules_of(&m).into_iter().map(|r| r.matcher.addr).collect();
    assert_eq!(addrs, vec!["a", "c", "d"]);
    assert!(ids.can_draw());
}

#[test]
fn ids_never_repeat_across_tables() {
    let mut ids = new_row_ids();
    let mut first = new_model();
    let mut second = new_model();
    let a = add_rule(&mut first, &mut ids, rule("a")).unwrap();
    let b = add_rule(&mut second, &mut ids, rule("b")).unwrap();
    let c = add_rule(&mut first, &mut ids, rule("c")).unwrap();
    assert!(a >= 1 && b > a && c > b);
    // a second source would hand out ids the table already holds: refused
    let mut other = new_row_ids();
    assert!(add_rule(&mut first, &mut other, rule("x")).is_none());
    assert_eq!(first.len(), 2);
    let d = add_rule(&mut first, &mut ids, rule("d")).unwrap();
    assert!(d > c);
}

#[test]
fn model_set_edits_one_field_by_id() {
    let mut ids = new_row_ids();
    let mut m = new_model();
    let a = add_rule(&mut m, &mut ids, rule("a")).unwrap();
    let b = add_rule(&mut m, &mut ids, rule("b")).unwrap();
    model_set(&mut m, b, 0, "example.com");
    model_set(&mut m, b, 1, "/api");
    model_set(&mut m, b, 2, "127.0.0.1:8686");
    model_set(&mut m, b, 7, "/v2");
    model_set(&mut m, 99, 0, "ignored");
    let rules = rules_of(&m);
    assert_eq!(rules[0].matcher.addr, "a");
    assert_eq!(rules[1].matcher.addr, "example.com");
    assert_eq!(rules[1].matcher.path_prefix, "/api");
    assert_eq!(rules[1].forward.addr, "127.0.0.1:8686");
    assert_eq!(rules[1].forward.path_prefix, "/v2");
    assert_eq!(m.id_at(0), a);
}

#[test]
fn remove_after_add_restores_rules() {
    let mut ids = new_row_ids();
    let mut m = new_model();
    add_rule(&mut m, &mut ids, rule("a")).unwrap();
    let before: Vec<String> = rules_of(&m).into_iter().map(|r| r.matcher.addr).collect();
    let id = add_rule(&mut m, &mut ids, rule("x")).unwrap();
    remove_rule(&mut m, id);
    let after: Vec<String> = rules_of(&m).into_iter().map(|r| r.matcher.addr).collect();
    assert_eq!(before, after);
}

#[test]
fn new_rows_start_blank() {
    let r = blank_rule();
    assert_eq!(r.matcher.addr, "");
    assert_eq!(r.matcher.path_prefix, "/");
    assert_eq!(r.forward.addr, "");
    assert_eq!(r.forward.path_prefix, "");
}

#[test]
fn rows_stack_downwards() {
    assert_eq!(stacked_height(0, 36, 4), 0);
    assert_eq!(stacked_height(3, 36, 4), 120);
}
