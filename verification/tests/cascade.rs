use toy_browser::css::{Color, Declaration, Rule, Selector, SimpleSelector, StyleSheet, Unit, Value};
use toy_browser::dom::{elem, text, AttrMap, ElementData, Node};
use toy_browser::style::{
    match_rule, match_simple_selector, matching_rules, specified_values, style_tree,
    Display, StyleNode,
};
use toy_browser::style::PropertyMap;

fn simple(tag: Option<&str>, id: Option<&str>, classes: &[&str]) -> SimpleSelector {
    SimpleSelector {
        tag_name: tag.map(|s| s.to_string()),
        id: id.map(|s| s.to_string()),
        class: classes.iter().map(|s| s.to_string()).collect(),
    }
}

fn selector(tag: Option<&str>, id: Option<&str>, classes: &[&str]) -> Selector {
    Selector::Simple(simple(tag, id, classes))
}

fn keyword(s: &str) -> Value {
    Value::Keyword(s.to_string())
}

fn px(n: i64) -> Value {
    Value::Length(n, Unit::Px)
}

fn rule(selectors: Vec<Selector>, declarations: &[(&str, Value)]) -> Rule {
    Rule {
        selectors,
        declarations: declarations
            .iter()
            .map(|(name, value)| Declaration { name: name.to_string(), value: value.clone() })
            .collect(),
    }
}

fn element(tag: &str, attrs: &[(&str, &str)]) -> ElementData {
    let mut map = AttrMap::new();
    for (k, v) in attrs {
        map.insert(k.to_string(), v.to_string());
    }
    ElementData { tag_name: tag.to_string(), attributes: map }
}

fn node(tag: &str, attrs: &[(&str, &str)], children: Vec<Node>) -> Node {
    let mut map = AttrMap::new();
    for (k, v) in attrs {
        map.insert(k.to_string(), v.to_string());
    }
    elem(tag.to_string(), map, children)
}

#[test]
fn a_selector_without_constraints_matches_everything() {
    let universal = simple(None, None, &[]);
    assert!(match_simple_selector(&element("div", &[]), &universal));
    assert!(match_simple_selector(&element("p", &[("id", "a"), ("class", "b")]), &universal));
}

#[test]
fn a_selector_matches_by_tag_id_and_classes() {
    let e = element("div", &[("id", "main"), ("class", "note big")]);
    assert!(match_simple_selector(&e, &simple(Some("div"), None, &[])));
    assert!(match_simple_selector(&e, &simple(None, Some("main"), &[])));
    assert!(match_simple_selector(&e, &simple(None, None, &["note"])));
    assert!(match_simple_selector(&e, &simple(None, None, &["big", "note"])));
    assert!(match_simple_selector(&e, &simple(Some("div"), Some("main"), &["note", "big"])));
}

#[test]
fn one_mismatch_rejects_the_selector() {
    let e = element("div", &[("id", "main"), ("class", "note big")]);
    assert!(!match_simple_selector(&e, &simple(Some("p"), Some("main"), &["note"])));
    assert!(!match_simple_selector(&e, &simple(Some("div"), Some("other"), &["note"])));
    assert!(!match_simple_selector(&e, &simple(Some("div"), Some("main"), &["note", "small"])));
    assert!(!match_simple_selector(&element("div", &[]), &simple(None, Some("main"), &[])));
    assert!(!match_simple_selector(&element("div", &[]), &simple(None, None, &["note"])));
    assert!(!toy_browser::style::matches(&e, &selector(Some("span"), None, &[])));
    assert!(toy_browser::style::matches(&e, &selector(Some("div"), None, &[])));
}

#[test]
fn a_class_must_be_a_whole_piece_of_the_attribute() {
    let e = element("div", &[("class", "notebook")]);
    assert!(!match_simple_selector(&e, &simple(None, None, &["note"])));
    assert!(match_simple_selector(&e, &simple(None, None, &["notebook"])));
}

#[test]
fn a_rule_applies_with_its_heaviest_matching_selector() {
    let e = element("div", &[("class", "note")]);
    let r = rule(
        vec![selector(Some("div"), None, &[]), selector(None, Some("x"), &[]), selector(None, None, &["note"])],
        &[],
    );
    let (weight, matched) = match_rule(&e, &r).expect("the rule applies");
    assert_eq!(weight, (0, 1, 0));
    assert!(std::ptr::eq(matched, &r));
    let none = rule(vec![selector(Some("p"), None, &[]), selector(None, Some("x"), &[])], &[]);
    assert!(match_rule(&e, &none).is_none());
    assert!(match_rule(&e, &rule(vec![], &[])).is_none());
}

#[test]
fn matching_rules_come_in_the_order_of_the_stylesheet() {
    let e = element("div", &[("id", "x")]);
    let sheet = StyleSheet {
        rules: vec![
            rule(vec![selector(None, Some("x"), &[])], &[]),
            rule(vec![selector(Some("p"), None, &[])], &[]),
            rule(vec![selector(Some("div"), None, &[])], &[]),
        ],
    };
    let found = matching_rules(&e, &sheet);
    assert_eq!(found.len(), 2);
    assert_eq!(found[0].0, (1, 0, 0));
    assert!(std::ptr::eq(found[0].1, &sheet.rules[0]));
    assert_eq!(found[1].0, (0, 0, 1));
    assert!(std::ptr::eq(found[1].1, &sheet.rules[2]));
}

#[test]
fn of_two_rules_of_equal_weight_the_later_wins() {
    let e = element("div", &[("class", "a b")]);
    let sheet = StyleSheet {
        rules: vec![
            rule(vec![selector(None, None, &["a"])], &[("width", px(10)), ("height", px(1))]),
            rule(vec![selector(None, None, &["b"])], &[("width", px(20))]),
        ],
    };
    let values = specified_values(&e, &sheet);
    assert_eq!(values.get("width"), Some(&px(20)));
    assert_eq!(values.get("height"), Some(&px(1)));
    assert_eq!(values.len(), 2);
}

#[test]
fn the_heavier_rule_wins_wherever_it_stands() {
    let e = element("div", &[("id", "x"), ("class", "a")]);
    let first = StyleSheet {
        rules: vec![
            rule(vec![selector(None, Some("x"), &[])], &[("width", px(1))]),
            rule(vec![selector(None, None, &["a"])], &[("width", px(2))]),
            rule(vec![selector(Some("div"), None, &[])], &[("width", px(3))]),
        ],
    };
    assert_eq!(specified_values(&e, &first).get("width"), Some(&px(1)));
    let last = StyleSheet {
        rules: vec![
            rule(vec![selector(Some("div"), None, &[])], &[("width", px(3))]),
            rule(vec![selector(None, None, &["a"])], &[("width", px(2))]),
            rule(vec![selector(None, Some("x"), &[])], &[("width", px(1))]),
        ],
    };
    assert_eq!(specified_values(&e, &last).get("width"), Some(&px(1)));
}

#[test]
fn within_a_rule_the_later_declaration_wins() {
    let e = element("div", &[]);
    let sheet = StyleSheet {
        rules: vec![rule(
            vec![selector(Some("div"), None, &[])],
            &[("width", px(1)), ("width", px(2))],
        )],
    };
    assert_eq!(specified_values(&e, &sheet).get("width"), Some(&px(2)));
}

#[test]
fn rules_that_do_not_apply_set_nothing() {
    let e = element("div", &[]);
    let sheet = StyleSheet {
        rules: vec![rule(vec![selector(Some("p"), None, &[])], &[("width", px(1))])],
    };
    let values = specified_values(&e, &sheet);
    assert_eq!(values.len(), 0);
    assert_eq!(values.get("width"), None);
    assert_eq!(specified_values(&e, &StyleSheet { rules: vec![] }).len(), 0);
}

#[test]
fn a_rule_counts_with_the_weight_of_its_heaviest_selector() {
    let e = element("div", &[("id", "x")]);
    let sheet = StyleSheet {
        rules: vec![
            rule(
                vec![selector(Some("div"), None, &[]), selector(None, Some("x"), &[])],
                &[("width", px(1))],
            ),
            rule(vec![selector(Some("div"), None, &["missing"]), selector(Some("div"), None, &[])], &[("width", px(2))]),
        ],
    };
    assert_eq!(specified_values(&e, &sheet).get("width"), Some(&px(1)));
}

#[test]
fn the_style_tree_mirrors_the_document() {
    let root = node(
        "div",
        &[("id", "x")],
        vec![
            node("p", &[("class", "c")], vec![text("t".to_string())]),
            text("tail".to_string()),
            node("span", &[], vec![]),
        ],
    );
    let sheet = StyleSheet {
        rules: vec![
            rule(vec![selector(None, Some("x"), &[])], &[("display", keyword("block"))]),
            rule(vec![selector(None, None, &["c"])], &[("display", keyword("none"))]),
        ],
    };
    let styled = style_tree(&root, &sheet);
    assert!(std::ptr::eq(styled.node, &root));
    assert_eq!(styled.children.len(), 3);
    assert!(std::ptr::eq(styled.children[0].node, &root.children[0]));
    assert!(std::ptr::eq(styled.children[1].node, &root.children[1]));
    assert!(std::ptr::eq(styled.children[2].node, &root.children[2]));
    assert_eq!(styled.display(), Display::Block);
    assert_eq!(styled.children[0].display(), Display::Hidden);
    assert_eq!(styled.children[0].children.len(), 1);
    assert_eq!(styled.children[0].children[0].specified_values.len(), 0);
    assert_eq!(styled.children[1].specified_values.len(), 0);
    assert_eq!(styled.children[1].display(), Display::Inline);
    assert_eq!(styled.children[2].specified_values.len(), 0);
}

fn styled<'a>(root: &'a Node, values: &[(&str, Value)]) -> StyleNode<'a> {
    let mut map = PropertyMap::new();
    for (k, v) in values {
        map.insert(k.to_string(), v.clone());
    }
    StyleNode { node: root, specified_values: map, children: vec![] }
}

#[test]
fn display_follows_the_display_property() {
    let root = text("".to_string());
    assert_eq!(styled(&root, &[("display", keyword("block"))]).display(), Display::Block);
    assert_eq!(styled(&root, &[("display", keyword("none"))]).display(), Display::Hidden);
    assert_eq!(styled(&root, &[("display", keyword("inline"))]).display(), Display::Inline);
    assert_eq!(styled(&root, &[("display", keyword("flex"))]).display(), Display::Inline);
    assert_eq!(styled(&root, &[("display", px(3))]).display(), Display::Inline);
    assert_eq!(styled(&root, &[]).display(), Display::Inline);
}

#[test]
fn lookup_falls_back_to_the_second_name_and_then_to_the_default() {
    let root = text("".to_string());
    let zero = px(0);
    let both = styled(&root, &[("margin-left", px(1)), ("margin", px(2))]);
    assert_eq!(both.lookup("margin-left", "margin", &zero), px(1));
    let short = styled(&root, &[("margin", px(2))]);
    assert_eq!(short.lookup("margin-left", "margin", &zero), px(2));
    let none = styled(&root, &[("padding", px(2))]);
    assert_eq!(none.lookup("margin-left", "margin", &zero), px(0));
    assert_eq!(both.value("margin"), Some(px(2)));
    assert_eq!(both.value("padding"), None);
    let colour = styled(&root, &[("color", Value::ColorValue(Color { r: 1, g: 2, b: 3, a: 255 }))]);
    assert_eq!(colour.value("color"), Some(Value::ColorValue(Color { r: 1, g: 2, b: 3, a: 255 })));
}
