use microscpi::command::Command;
use microscpi::registration::CommandSet;
use microscpi::tree::{Error, Node, Tree};

fn root_node() -> Node {
    Node { children: vec![("LEAF".to_string(), 1)], command: None, query: None }
}

fn leaf_node() -> Node {
    Node { children: vec![], command: Some(1), query: None }
}

#[test]
fn test_child_found() {
    assert_eq!(root_node().child("LEAF"), Some(1));
}

#[test]
fn test_child_not_found() {
    assert_eq!(root_node().child("NON_EXISTENT"), None);
}

#[test]
fn test_child_case_insensitive() {
    assert_eq!(root_node().child("leaf"), Some(1));
    assert_eq!(root_node().child("Leaf"), Some(1));
    assert_eq!(root_node().child("lEaF"), Some(1));
}

#[test]
fn test_node_equality() {
    assert_eq!(&leaf_node(), &leaf_node());
    assert_ne!(&root_node(), &leaf_node());
}

#[test]
fn the_first_of_two_matching_children_counts() {
    let node = Node {
        children: vec![("Leaf".to_string(), 4), ("LEAF".to_string(), 5)],
        command: None,
        query: None,
    };
    assert_eq!(node.child("LEAF"), Some(4));
    assert_eq!(node.child("LEA"), None);
    assert_eq!(node.child("LEAFS"), None);
}

#[test]
fn a_new_tree_is_a_lone_root() {
    let tree = Tree::new();
    assert_eq!(tree.root(), 0);
    assert_eq!(tree.len(), 1);
    assert_eq!(tree.node(0), Some(&Node { children: vec![], command: None, query: None }));
    assert_eq!(tree.node(1), None);
    assert_eq!(tree.child(0, "SYST"), None);
    assert_eq!(tree.handler_of(0, false), None);
}

fn resolve(tree: &Tree, path: &[&str]) -> Option<usize> {
    let mut node = tree.root();
    for segment in path {
        node = tree.child(node, segment)?;
    }
    Some(node)
}

#[test]
fn every_spelling_resolves_to_the_handler_of_the_long_form() {
    let mut tree = Tree::new();
    let command = Command::try_from("[SYSTem]:TeST:A?").unwrap();
    assert_eq!(tree.insert(&command, 7, 2), Ok(()));
    let long = resolve(&tree, &["SYSTEM", "TEST", "A"]).unwrap();
    assert_eq!(tree.handler_of(long, true), Some(7));
    assert_eq!(tree.arity_of(long, true), Some(2));
    assert_eq!(tree.handler_of(long, false), None);
    for path in command.paths() {
        let segments: Vec<&str> = path.iter().map(|s| s.as_str()).collect();
        let node = resolve(&tree, &segments).unwrap();
        assert_eq!(tree.handler_of(node, true), Some(7));
        let lower: Vec<String> = path.iter().map(|s| s.to_lowercase()).collect();
        let segments: Vec<&str> = lower.iter().map(|s| s.as_str()).collect();
        let node = resolve(&tree, &segments).unwrap();
        assert_eq!(tree.handler_of(node, true), Some(7));
    }
    assert_eq!(resolve(&tree, &["TST", "A"]).map(|n| tree.handler_of(n, true)), Some(Some(7)));
    assert_eq!(resolve(&tree, &["SYS", "TEST", "A"]), None);
}

#[test]
fn a_command_and_a_query_share_a_node() {
    let mut tree = Tree::new();
    assert_eq!(tree.insert(&Command::try_from("SYSTem:TeST:A").unwrap(), 1, 0), Ok(()));
    assert_eq!(tree.insert(&Command::try_from("SYSTem:TeST:A?").unwrap(), 2, 0), Ok(()));
    let node = resolve(&tree, &["SYST", "TST", "A"]).unwrap();
    assert_eq!(tree.handler_of(node, false), Some(1));
    assert_eq!(tree.handler_of(node, true), Some(2));
}

#[test]
fn a_second_command_under_a_path_is_refused() {
    let mut tree = Tree::new();
    assert_eq!(tree.insert(&Command::try_from("[STATus]:TIMe").unwrap(), 1, 0), Ok(()));
    assert_eq!(
        tree.insert(&Command::try_from("TIMe").unwrap(), 2, 0),
        Err(Error::CommandExists { path: "STATUS:TIME".to_string() })
    );
    assert_eq!(tree.insert(&Command::try_from("[STATus]:TIMe?").unwrap(), 3, 0), Ok(()));
    assert_eq!(
        tree.insert(&Command::try_from("STATus:TIMe?").unwrap(), 4, 0),
        Err(Error::QueryExists { path: "STATUS:TIME?".to_string() })
    );
    // What was registered stays as it was.
    let node = resolve(&tree, &["TIM"]).unwrap();
    assert_eq!(tree.handler_of(node, false), Some(1));
    assert_eq!(tree.handler_of(node, true), Some(3));
}

#[test]
fn a_failed_registration_names_what_is_defined() {
    assert_eq!(
        Error::CommandExists { path: "STATUS:TIME".to_string() }.message(),
        "Command STATUS:TIME is already defined"
    );
    assert_eq!(
        Error::QueryExists { path: "*IDN?".to_string() }.message(),
        "Query *IDN? is already defined"
    );
}

#[test]
fn a_command_set_numbers_its_handlers() {
    let mut set = CommandSet::new();
    assert_eq!(set.push(Command::try_from("*IDN?").unwrap(), 0), 0);
    assert_eq!(set.push(Command::try_from("MATH:MULTiply?").unwrap(), 2), 1);
    assert_eq!(set.len(), 2);
    assert_eq!(set.get(1).map(|d| (d.id, d.arity)), Some((1, 2)));
    assert!(set.get(2).is_none());
    let tree = set.build_tree().unwrap();
    let node = resolve(&tree, &["math", "mult"]).unwrap();
    assert_eq!(tree.handler_of(node, true), Some(1));
    assert_eq!(tree.arity_of(node, true), Some(2));
    let node = resolve(&tree, &["*idn"]).unwrap();
    assert_eq!(tree.handler_of(node, true), Some(0));
}

#[test]
fn a_command_set_with_a_clash_builds_no_tree() {
    let mut set = CommandSet::new();
    set.push(Command::try_from("SYSTem:ERRor:[NEXT]?").unwrap(), 0);
    set.push(Command::try_from("SYSTem:ERRor?").unwrap(), 0);
    assert_eq!(
        set.build_tree().err(),
        Some(Error::QueryExists { path: "SYSTEM:ERROR:NEXT?".to_string() })
    );
}
