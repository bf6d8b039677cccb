//! Registry behavior: sorted canonical listings, idempotent insertion,
//! silent removal, lookups, and the listing round trip.

use eriksync::{Config, Node, Target};

#[test]
fn new_registry_is_empty() {
    let c = Config::new();
    assert_eq!(c.nodes().len(), 0);
    assert_eq!(c.targets().len(), 0);
    assert_eq!(c.node_names().len(), 0);
    assert_eq!(c.target_names().len(), 0);
}

#[test]
fn nodes_are_listed_sorted_by_name() {
    let mut c = Config::new();
    c.add_node(Node::new("zeta".to_string()));
    c.add_node(Node::new("alpha".to_string()));
    c.add_node(Node::new("mid".to_string()));
    let names = c.node_names();
    assert_eq!(names, vec!["alpha".to_string(), "mid".to_string(), "zeta".to_string()]);
    let nodes = c.nodes();
    assert_eq!(nodes.len(), 3);
    assert_eq!(nodes[0].name, "alpha");
    assert_eq!(nodes[1].name, "mid");
    assert_eq!(nodes[2].name, "zeta");
}

#[test]
fn targets_are_listed_sorted_by_name() {
    let mut c = Config::new();
    c.add_target(Target::new("docs".to_string(), "~/docs".to_string()));
    c.add_target(Target::new("code".to_string(), "~/code".to_string()));
    let names = c.target_names();
    assert_eq!(names, vec!["code".to_string(), "docs".to_string()]);
    let targets = c.targets();
    assert_eq!(targets[0].name, "code");
    assert_eq!(targets[0].path, "~/code");
    assert_eq!(targets[1].name, "docs");
    assert_eq!(targets[1].path, "~/docs");
}

#[test]
fn add_node_twice_is_idempotent() {
    let mut once = Config::new();
    once.add_node(Node::new("vm1".to_string()).description("a box".to_string()));
    let mut twice = Config::new();
    twice.add_node(Node::new("vm1".to_string()).description("a box".to_string()));
    twice.add_node(Node::new("vm1".to_string()).description("a box".to_string()));
    let a = once.nodes();
    let b = twice.nodes();
    assert_eq!(a.len(), 1);
    assert_eq!(b.len(), 1);
    assert_eq!(a[0].name, b[0].name);
    assert_eq!(a[0].description, b[0].description);
    assert_eq!(once.targets().len(), twice.targets().len());
}

#[test]
fn add_node_overwrites_by_name() {
    let mut c = Config::new();
    c.add_node(Node::new("vm1".to_string()).description("old".to_string()));
    c.add_node(Node::new("vm1".to_string()).description("new".to_string()));
    let nodes = c.nodes();
    assert_eq!(nodes.len(), 1);
    assert_eq!(nodes[0].description, "new");
}

#[test]
fn add_target_overwrites_by_name() {
    let mut c = Config::new();
    c.add_target(Target::new("docs".to_string(), "~/old".to_string()));
    c.add_target(Target::new("docs".to_string(), "~/new".to_string()));
    let targets = c.targets();
    assert_eq!(targets.len(), 1);
    assert_eq!(targets[0].path, "~/new");
}

#[test]
fn remove_node_removes_and_ignores_absent() {
    let mut c = Config::new();
    c.add_node(Node::new("a".to_string()));
    c.add_node(Node::new("b".to_string()));
    c.remove_node("ghost".to_string());
    assert_eq!(c.node_names(), vec!["a".to_string(), "b".to_string()]);
    c.remove_node("a".to_string());
    assert_eq!(c.node_names(), vec!["b".to_string()]);
}

#[test]
fn remove_target_removes_and_ignores_absent() {
    let mut c = Config::new();
    c.add_target(Target::new("docs".to_string(), "~/docs".to_string()));
    c.remove_target("ghost".to_string());
    assert_eq!(c.target_names(), vec!["docs".to_string()]);
    c.remove_target("docs".to_string());
    assert_eq!(c.target_names().len(), 0);
}

#[test]
fn get_and_contains_report_membership() {
    let mut c = Config::new();
    c.add_node(Node::new("vm1".to_string()).description("desc".to_string()));
    c.add_target(Target::new("docs".to_string(), "~/docs".to_string()));
    assert!(c.contains_node(&"vm1".to_string()));
    assert!(!c.contains_node(&"vm2".to_string()));
    assert!(c.contains_target(&"docs".to_string()));
    assert!(!c.contains_target(&"code".to_string()));
    let n = c.get_node(&"vm1".to_string()).expect("vm1 is registered");
    assert_eq!(n.name, "vm1");
    assert_eq!(n.description, "desc");
    assert!(c.get_node(&"vm2".to_string()).is_none());
    let t = c.get_target(&"docs".to_string()).expect("docs is registered");
    assert_eq!(t.path, "~/docs");
    assert!(c.get_target(&"code".to_string()).is_none());
}

#[test]
fn bulk_add_and_remove() {
    let mut c = Config::new();
    c.add_nodes(vec![
        Node::new("b".to_string()),
        Node::new("a".to_string()),
        Node::new("c".to_string()),
    ]);
    assert_eq!(c.node_names(), vec!["a".to_string(), "b".to_string(), "c".to_string()]);
    c.remove_nodes(vec!["a".to_string(), "c".to_string(), "ghost".to_string()]);
    assert_eq!(c.node_names(), vec!["b".to_string()]);
    c.add_targets(vec![
        Target::new("t2".to_string(), "/p2".to_string()),
        Target::new("t1".to_string(), "/p1".to_string()),
    ]);
    assert_eq!(c.target_names(), vec!["t1".to_string(), "t2".to_string()]);
    c.remove_targets(vec!["t1".to_string(), "t2".to_string()]);
    assert_eq!(c.target_names().len(), 0);
}

#[test]
fn bulk_add_last_record_wins() {
    let mut c = Config::new();
    c.add_nodes(vec![
        Node::new("vm1".to_string()).description("first".to_string()),
        Node::new("vm1".to_string()).description("second".to_string()),
    ]);
    let nodes = c.nodes();
    assert_eq!(nodes.len(), 1);
    assert_eq!(nodes[0].description, "second");
}

#[test]
fn listing_round_trip_rebuilds_registry() {
    let mut c = Config::new();
    c.add_node(Node::new("zeta".to_string()).description("z".to_string()));
    c.add_node(Node::new("alpha".to_string()));
    c.add_target(Target::new("docs".to_string(), "~/docs".to_string()));
    c.add_target(Target::new("code".to_string(), "~/code".to_string()));

    let rebuilt = Config::from_records(c.nodes(), c.targets());
    assert_eq!(rebuilt.node_names(), c.node_names());
    assert_eq!(rebuilt.target_names(), c.target_names());
    let a = c.nodes();
    let b = rebuilt.nodes();
    for i in 0..a.len() {
        assert_eq!(a[i].name, b[i].name);
        assert_eq!(a[i].description, b[i].description);
    }
    let ta = c.targets();
    let tb = rebuilt.targets();
    for i in 0..ta.len() {
        assert_eq!(ta[i].name, tb[i].name);
        assert_eq!(ta[i].path, tb[i].path);
    }
}

#[test]
fn records_are_equal_by_name_alone() {
    let a = Node::new("vm1".to_string()).description("one".to_string());
    let b = Node::new("vm1".to_string()).description("two".to_string());
    let c = Node::new("vm2".to_string()).description("one".to_string());
    assert!(a == b);
    assert!(a != c);
    let ta = Target::new("docs".to_string(), "/a".to_string());
    let tb = Target::new("docs".to_string(), "/b".to_string());
    let tc = Target::new("code".to_string(), "/a".to_string());
    assert!(ta == tb);
    assert!(ta != tc);
}

#[test]
fn listing_is_independent_of_insertion_order() {
    let mut a = Config::new();
    a.add_node(Node::new("n1".to_string()));
    a.add_node(Node::new("n2".to_string()));
    a.add_target(Target::new("t1".to_string(), "/p1".to_string()));
    a.add_target(Target::new("t2".to_string(), "/p2".to_string()));

    let mut b = Config::new();
    b.add_target(Target::new("t2".to_string(), "/p2".to_string()));
    b.add_node(Node::new("n2".to_string()));
    b.add_target(Target::new("t1".to_string(), "/p1".to_string()));
    b.add_node(Node::new("n1".to_string()));

    assert_eq!(a.node_names(), b.node_names());
    assert_eq!(a.target_names(), b.target_names());
    let ta = a.targets();
    let tb = b.targets();
    for i in 0..ta.len() {
        assert_eq!(ta[i].name, tb[i].name);
        assert_eq!(ta[i].path, tb[i].path);
    }
}
