use wsbrd_cli::directory::{NodeRecord, RootError};
use wsbrd_cli::status::topology_lines;
use wsbrd_cli::tree::print_rpl_tree;

const R: [u8; 2] = [0x00, 0x01];
const A: [u8; 2] = [0x0a, 0x01];
const B: [u8; 2] = [0x0b, 0x01];
const C: [u8; 2] = [0x0c, 0x01];

fn rec(id: &[u8], parent: Option<&[u8]>, br: Option<bool>) -> NodeRecord {
    NodeRecord { id: id.to_vec(), parent: parent.map(|p| p.to_vec()), is_border_router: br }
}

#[test]
fn small_tree_is_drawn() {
    let links = vec![
        rec(&R, None, Some(true)),
        rec(&A, Some(&R), None),
        rec(&B, Some(&R), None),
        rec(&C, Some(&A), None),
    ];
    let lines = print_rpl_tree(&links, &[], &R, "  ");
    assert_eq!(lines, vec!["  |- 0a:01", "  |    `- 0c:01", "  `- 0b:01"]);
    let report = topology_lines(&links).unwrap();
    assert_eq!(report, vec!["00:01", "  |- 0a:01", "  |    `- 0c:01", "  `- 0b:01"]);
}

#[test]
fn cycle_below_root_is_cut() {
    let links = vec![
        rec(&R, None, Some(true)),
        rec(&A, Some(&R), None),
        rec(&B, Some(&A), None),
        rec(&A, Some(&B), None),
    ];
    let lines = print_rpl_tree(&links, &[], &R, "  ");
    assert_eq!(lines, vec!["  `- 0a:01", "       `- 0b:01", "            `- 0a:01 (loop!)"]);
}

#[test]
fn overwritten_parent_detaches_the_cycle_from_the_root() {
    let links = vec![rec(&R, None, Some(true)), rec(&A, Some(&B), None), rec(&B, Some(&A), None)];
    assert_eq!(print_rpl_tree(&links, &[], &R, "  "), Vec::<String>::new());
    assert_eq!(topology_lines(&links).unwrap(), vec!["00:01"]);
}

#[test]
fn two_cycle_is_marked_and_not_entered() {
    let links = vec![rec(&A, Some(&B), None), rec(&B, Some(&A), None)];
    let from_b = print_rpl_tree(&links, &[], &B, "");
    assert_eq!(from_b, vec!["`- 0a:01", "     `- 0b:01 (loop!)"]);
    let from_a = print_rpl_tree(&links, &[], &A, "");
    assert_eq!(from_a, vec!["`- 0b:01", "     `- 0a:01 (loop!)"]);
}

#[test]
fn child_on_the_given_path_is_marked() {
    let links = vec![rec(&A, Some(&B), None), rec(&B, Some(&A), None)];
    let lines = print_rpl_tree(&links, &[B.to_vec()], &A, "> ");
    assert_eq!(lines, vec!["> `- 0b:01 (loop!)"]);
}

#[test]
fn self_parent_is_a_loop_of_one() {
    let links = vec![rec(&A, Some(&A), Some(true))];
    assert_eq!(print_rpl_tree(&links, &[], &A, "  "), vec!["  `- 0a:01 (loop!)"]);
    assert_eq!(topology_lines(&links).unwrap(), vec!["0a:01", "  `- 0a:01 (loop!)"]);
}

#[test]
fn self_parent_below_root() {
    let links = vec![
        rec(&R, None, Some(true)),
        rec(&A, Some(&A), None),
        rec(&B, Some(&R), None),
    ];
    assert_eq!(print_rpl_tree(&links, &[], &R, "  "), vec!["  `- 0b:01"]);
    assert_eq!(print_rpl_tree(&links, &[], &A, "  "), vec!["  `- 0a:01 (loop!)"]);
}

#[test]
fn leaf_has_no_lines() {
    let links = vec![
        rec(&R, None, Some(true)),
        rec(&A, Some(&R), None),
        rec(&B, Some(&R), None),
        rec(&C, Some(&A), None),
    ];
    assert_eq!(print_rpl_tree(&links, &[], &C, "  "), Vec::<String>::new());
    assert_eq!(print_rpl_tree(&links, &[], &B, "  "), Vec::<String>::new());
    assert_eq!(print_rpl_tree(&[], &[], &R, "  "), Vec::<String>::new());
}

#[test]
fn children_are_listed_in_identifier_order() {
    let links = vec![
        rec(&[0xff], None, Some(true)),
        rec(&[0x02], Some(&[0xff]), None),
        rec(&[0x10], Some(&[0xff]), None),
        rec(&[0x01], Some(&[0xff]), None),
    ];
    assert_eq!(print_rpl_tree(&links, &[], &[0xff], ""), vec!["|- 01", "|- 02", "`- 10"]);
}

#[test]
fn output_does_not_depend_on_record_order() {
    let a = vec![
        rec(&R, None, Some(true)),
        rec(&A, Some(&R), None),
        rec(&B, Some(&R), None),
        rec(&C, Some(&A), None),
    ];
    let b = vec![
        rec(&C, Some(&A), None),
        rec(&B, Some(&R), None),
        rec(&R, None, Some(true)),
        rec(&A, Some(&R), None),
    ];
    assert_eq!(print_rpl_tree(&a, &[], &R, "  "), print_rpl_tree(&b, &[], &R, "  "));
    assert_eq!(topology_lines(&a), topology_lines(&b));
}

#[test]
fn repeated_rendering_is_identical() {
    let links = vec![
        rec(&R, None, Some(true)),
        rec(&B, Some(&R), None),
        rec(&A, Some(&R), None),
        rec(&C, Some(&B), None),
        rec(&B, Some(&C), None),
    ];
    let first = print_rpl_tree(&links, &[], &R, "  ");
    for _ in 0..5 {
        assert_eq!(print_rpl_tree(&links, &[], &R, "  "), first);
    }
}

#[test]
fn guide_bars_follow_the_open_branches() {
    let d = [0x0d, 0x01];
    let e = [0x0e, 0x01];
    let links = vec![
        rec(&R, None, Some(true)),
        rec(&A, Some(&R), None),
        rec(&B, Some(&R), None),
        rec(&C, Some(&A), None),
        rec(&d, Some(&A), None),
        rec(&e, Some(&C), None),
    ];
    let lines = print_rpl_tree(&links, &[], &R, "  ");
    assert_eq!(
        lines,
        vec![
            "  |- 0a:01",
            "  |    |- 0c:01",
            "  |    |    `- 0e:01",
            "  |    `- 0d:01",
            "  `- 0b:01",
        ]
    );
}

#[test]
fn parent_that_is_not_in_the_directory_hides_the_node() {
    let links = vec![
        rec(&R, None, Some(true)),
        rec(&A, Some(&[0x77, 0x77]), None),
        rec(&B, Some(&R), None),
    ];
    assert_eq!(print_rpl_tree(&links, &[], &R, "  "), vec!["  `- 0b:01"]);
}

#[test]
fn root_need_not_be_a_record() {
    let links = vec![rec(&A, Some(&R), None), rec(&B, Some(&A), None)];
    assert_eq!(print_rpl_tree(&links, &[], &R, ""), vec!["`- 0a:01", "     `- 0b:01"]);
}

#[test]
fn long_chain_ends() {
    let mut links = Vec::new();
    let n: u8 = 40;
    for i in 0..n {
        links.push(rec(&[i], Some(&[(i + 1) % n]), None));
    }
    let lines = print_rpl_tree(&links, &[], &[0], "");
    assert_eq!(lines.len(), n as usize);
    assert_eq!(lines[0], "`- 27");
    assert!(lines[(n - 1) as usize].ends_with("`- 00 (loop!)"));
    for l in &lines[..(n - 1) as usize] {
        assert!(!l.ends_with("(loop!)"));
    }
}

#[test]
fn topology_needs_exactly_one_border_router() {
    let none = vec![rec(&A, None, None), rec(&B, Some(&A), Some(false))];
    assert_eq!(topology_lines(&none), Err(RootError::Missing));
    let two = vec![rec(&A, None, Some(true)), rec(&B, Some(&A), Some(true))];
    assert_eq!(topology_lines(&two), Err(RootError::Ambiguous));
    assert_eq!(topology_lines(&[]), Err(RootError::Missing));
}
