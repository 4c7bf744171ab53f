use toy_browser::dom::{elem, text, AttrMap, ElementData, NodeType};
use toy_browser::string_map::StringMap;

fn element(attrs: &[(&str, &str)]) -> ElementData {
    let mut map = AttrMap::new();
    for (k, v) in attrs {
        map.insert(k.to_string(), v.to_string());
    }
    ElementData { tag_name: "div".to_string(), attributes: map }
}

#[test]
fn a_text_node_has_no_children() {
    let node = text("hello".to_string());
    assert!(node.children.is_empty());
    match node.node_type {
        NodeType::Text(data) => assert_eq!(data, "hello"),
        _ => panic!("a text node was expected"),
    }
}

#[test]
fn an_element_keeps_name_attributes_and_children() {
    let mut attrs = AttrMap::new();
    attrs.insert("id".to_string(), "x".to_string());
    let node = elem("p".to_string(), attrs, vec![text("a".to_string()), text("b".to_string())]);
    assert_eq!(node.children.len(), 2);
    match node.node_type {
        NodeType::Element(data) => {
            assert_eq!(data.tag_name, "p");
            assert_eq!(data.id(), Some(&"x".to_string()));
        }
        _ => panic!("an element was expected"),
    }
}

#[test]
fn the_id_is_the_id_attribute() {
    assert_eq!(element(&[("id", "main")]).id(), Some(&"main".to_string()));
    assert_eq!(element(&[("class", "main")]).id(), None);
    assert_eq!(element(&[]).id(), None);
}

#[test]
fn classes_are_cut_at_spaces() {
    assert_eq!(element(&[("class", "a b c")]).classes(), vec!["a", "b", "c"]);
    assert_eq!(element(&[("class", "note")]).classes(), vec!["note"]);
    assert_eq!(element(&[("id", "x")]).classes(), Vec::<String>::new());
}

#[test]
fn empty_pieces_between_spaces_are_kept() {
    assert_eq!(element(&[("class", "a  b")]).classes(), vec!["a", "", "b"]);
    assert_eq!(element(&[("class", "")]).classes(), vec![""]);
    assert_eq!(element(&[("class", " a ")]).classes(), vec!["", "a", ""]);
}

#[test]
fn a_map_keeps_the_last_value_of_a_key() {
    let mut map: StringMap<i64> = StringMap::new();
    assert_eq!(map.len(), 0);
    assert_eq!(map.get("a"), None);
    map.insert("a".to_string(), 1);
    map.insert("b".to_string(), 2);
    map.insert("a".to_string(), 3);
    assert_eq!(map.len(), 2);
    assert_eq!(map.get("a"), Some(&3));
    assert_eq!(map.get("b"), Some(&2));
    assert_eq!(map.get("c"), None);
    assert_eq!(map.get(""), None);
}
