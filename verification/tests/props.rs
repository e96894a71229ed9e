use dbus::arg::{PropMap, RefArg, Variant};
use wsbrd_cli::directory::{is_border_router, is_parent};
use wsbrd_cli::props::{node_record, Properties};
use wsbrd_cli::status::topology_lines;

fn entry<T: RefArg + 'static>(value: T) -> Variant<Box<dyn RefArg + 'static>> {
    Variant(Box::new(value))
}

fn node(id: &[u8], parent: Option<&[u8]>, br: Option<bool>) -> (Vec<u8>, Properties) {
    let mut map = PropMap::new();
    if let Some(p) = parent {
        map.insert("parent".to_string(), entry(p.to_vec()));
    }
    if let Some(b) = br {
        map.insert("is_border_router".to_string(), entry(b));
    }
    (id.to_vec(), Properties { map })
}

#[test]
fn record_takes_parent_and_flag_from_the_dictionary() {
    let (id, props) = node(&[1, 2], Some(&[9, 8, 7]), Some(true));
    let rec = node_record(&id, &props);
    assert_eq!(rec.id, vec![1, 2]);
    assert_eq!(rec.parent, Some(vec![9, 8, 7]));
    assert_eq!(rec.is_border_router, Some(true));
    assert!(is_parent(&rec, &[9, 8, 7]));
    assert!(!is_parent(&rec, &[1, 2]));
    assert!(is_border_router(&rec));
}

#[test]
fn record_of_empty_dictionary_claims_nothing() {
    let (id, props) = node(&[5], None, None);
    let rec = node_record(&id, &props);
    assert_eq!(rec.id, vec![5]);
    assert_eq!(rec.parent, None);
    assert_eq!(rec.is_border_router, None);
    assert!(!is_parent(&rec, &[5]));
    assert!(!is_border_router(&rec));
}

#[test]
fn record_keeps_a_false_flag() {
    let (id, props) = node(&[5], None, Some(false));
    let rec = node_record(&id, &props);
    assert_eq!(rec.is_border_router, Some(false));
    assert!(!is_border_router(&rec));
}

#[test]
fn attribute_of_another_type_claims_nothing() {
    let mut map = PropMap::new();
    map.insert("parent".to_string(), entry("0a:01".to_string()));
    map.insert("is_border_router".to_string(), entry(1u8));
    let rec = node_record(&[3], &Properties { map });
    assert_eq!(rec.parent, None);
    assert_eq!(rec.is_border_router, None);
}

#[test]
fn attributes_under_other_names_are_ignored() {
    let mut map = PropMap::new();
    map.insert("Parent".to_string(), entry(vec![1u8]));
    map.insert("parents".to_string(), entry(vec![2u8]));
    map.insert("border_router".to_string(), entry(true));
    map.insert("is_authenticated".to_string(), entry(true));
    let rec = node_record(&[3], &Properties { map });
    assert_eq!(rec.parent, None);
    assert_eq!(rec.is_border_router, None);
}

#[test]
fn parent_and_flag_are_not_mixed_up() {
    let mut map = PropMap::new();
    map.insert("parent".to_string(), entry(true));
    map.insert("is_border_router".to_string(), entry(vec![1u8]));
    let rec = node_record(&[3], &Properties { map });
    assert_eq!(rec.parent, None);
    assert_eq!(rec.is_border_router, None);
}

#[test]
fn tree_from_dictionaries() {
    let r = [0x00, 0x01];
    let a = [0x0a, 0x01];
    let b = [0x0b, 0x01];
    let c = [0x0c, 0x01];
    let nodes = vec![
        node(&c, Some(&a), None),
        node(&b, Some(&r), None),
        node(&r, None, Some(true)),
        node(&a, Some(&r), Some(false)),
    ];
    let records: Vec<_> = nodes.iter().map(|(id, props)| node_record(id, props)).collect();
    assert_eq!(
        topology_lines(&records).unwrap(),
        vec!["00:01", "  |- 0a:01", "  |    `- 0c:01", "  `- 0b:01"]
    );
}
