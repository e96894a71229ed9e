use wsbrd_cli::children::{path_contains, sorted_children};
use wsbrd_cli::directory::{find_border_router, is_border_router, is_parent, NodeRecord, RootError};

fn node(id: &[u8], parent: Option<&[u8]>, br: Option<bool>) -> NodeRecord {
    NodeRecord { id: id.to_vec(), parent: parent.map(|p| p.to_vec()), is_border_router: br }
}

#[test]
fn is_parent_matches_declared_parent() {
    let n = node(&[1], Some(&[9, 9]), None);
    assert!(is_parent(&n, &[9, 9]));
    assert!(!is_parent(&n, &[9]));
    assert!(!is_parent(&n, &[9, 9, 0]));
    assert!(!is_parent(&n, &[1]));
}

#[test]
fn is_parent_without_parent_is_false() {
    let n = node(&[1], None, Some(true));
    assert!(!is_parent(&n, &[1]));
    assert!(!is_parent(&n, &[]));
}

#[test]
fn is_parent_empty_parent_matches_empty_target() {
    let n = node(&[1], Some(&[]), None);
    assert!(is_parent(&n, &[]));
    assert!(!is_parent(&n, &[0]));
}

#[test]
fn is_border_router_needs_flag_present_and_true() {
    assert!(is_border_router(&node(&[1], None, Some(true))));
    assert!(!is_border_router(&node(&[1], None, Some(false))));
    assert!(!is_border_router(&node(&[1], None, None)));
}

#[test]
fn find_border_router_finds_the_only_one() {
    let links = vec![
        node(&[1], Some(&[3]), None),
        node(&[2], Some(&[3]), Some(false)),
        node(&[3], None, Some(true)),
        node(&[4], Some(&[1]), None),
    ];
    assert_eq!(find_border_router(&links), Ok(2));
}

#[test]
fn find_border_router_missing() {
    let links = vec![node(&[1], None, None), node(&[2], Some(&[1]), Some(false))];
    assert_eq!(find_border_router(&links), Err(RootError::Missing));
    assert_eq!(find_border_router(&[]), Err(RootError::Missing));
}

#[test]
fn find_border_router_ambiguous() {
    let links = vec![
        node(&[1], None, Some(true)),
        node(&[2], Some(&[1]), None),
        node(&[3], None, Some(true)),
    ];
    assert_eq!(find_border_router(&links), Err(RootError::Ambiguous));
}

#[test]
fn children_come_out_sorted() {
    let links = vec![
        node(&[0xaa], None, Some(true)),
        node(&[0x02], Some(&[0xaa]), None),
        node(&[0x10], Some(&[0xaa]), None),
        node(&[0x01], Some(&[0xaa]), None),
        node(&[0x05], Some(&[0x01]), None),
    ];
    assert_eq!(sorted_children(&links, &[0xaa]), vec![vec![0x01], vec![0x02], vec![0x10]]);
    assert_eq!(sorted_children(&links, &[0x01]), vec![vec![0x05]]);
    assert_eq!(sorted_children(&links, &[0x05]), Vec::<Vec<u8>>::new());
    assert_eq!(sorted_children(&links, &[0x77]), Vec::<Vec<u8>>::new());
}

#[test]
fn children_order_ignores_discovery_order() {
    let ids: [u8; 3] = [0x02, 0x10, 0x01];
    let orders: [[usize; 3]; 6] =
        [[0, 1, 2], [0, 2, 1], [1, 0, 2], [1, 2, 0], [2, 0, 1], [2, 1, 0]];
    for order in orders.iter() {
        let mut links = Vec::new();
        for &k in order.iter() {
            links.push(node(&[ids[k]], Some(&[0xaa]), None));
        }
        assert_eq!(sorted_children(&links, &[0xaa]), vec![vec![0x01], vec![0x02], vec![0x10]]);
    }
}

#[test]
fn children_keep_duplicated_identifiers() {
    let links = vec![
        node(&[0x02], Some(&[0xaa]), None),
        node(&[0x01], Some(&[0xaa]), None),
        node(&[0x02], Some(&[0xaa]), None),
    ];
    assert_eq!(sorted_children(&links, &[0xaa]), vec![vec![0x01], vec![0x02], vec![0x02]]);
}

#[test]
fn path_contains_looks_at_every_entry() {
    let path = vec![vec![1u8, 2], vec![3u8], vec![]];
    assert!(path_contains(&path, &[1, 2]));
    assert!(path_contains(&path, &[3]));
    assert!(path_contains(&path, &[]));
    assert!(!path_contains(&path, &[1]));
    assert!(!path_contains(&path, &[2, 1]));
    assert!(!path_contains(&[], &[1]));
}
