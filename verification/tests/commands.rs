//! Command compilation: wildcard resolution, silent dropping of unknown
//! names, direction-dependent argument order, and the frozen flag set.

use eriksync::{Config, Direction, Node, Target, generate_commands, pull_command, push_command};

fn sample_registry() -> Config {
    let mut c = Config::new();
    c.add_node(Node::new("vm1".to_string()).description("a box".to_string()));
    c.add_target(Target::new("docs".to_string(), "~/docs".to_string()));
    c.add_target(Target::new("code".to_string(), "~/code".to_string()));
    c
}

#[test]
fn all_selector_compiles_every_target_in_sorted_order() {
    let c = sample_registry();
    let cmds = generate_commands(
        &c,
        &"vm1".to_string(),
        &vec!["all".to_string()],
        Direction::Push,
        "/home/bob",
    );
    assert_eq!(cmds.len(), 2);
    // `code` sorts before `docs`.
    assert_eq!(cmds[0].arguments[5], "vm1:~/code");
    assert_eq!(cmds[1].arguments[5], "vm1:~/docs");
}

#[test]
fn all_selector_is_case_insensitive() {
    let c = sample_registry();
    for token in ["ALL", "All", "aLl"] {
        let cmds = generate_commands(
            &c,
            &"vm1".to_string(),
            &vec![token.to_string()],
            Direction::Push,
            "/home/bob",
        );
        assert_eq!(cmds.len(), 2);
    }
}

#[test]
fn unknown_target_is_dropped_silently() {
    let c = sample_registry();
    let cmds = generate_commands(
        &c,
        &"vm1".to_string(),
        &vec!["docs".to_string(), "ghost".to_string()],
        Direction::Push,
        "/home/bob",
    );
    assert_eq!(cmds.len(), 1);
    assert_eq!(cmds[0].arguments[5], "vm1:~/docs");
}

#[test]
fn unknown_node_compiles_nothing() {
    let c = sample_registry();
    let cmds = generate_commands(
        &c,
        &"ghost".to_string(),
        &vec!["all".to_string()],
        Direction::Push,
        "/home/bob",
    );
    assert_eq!(cmds.len(), 0);
    let cmds = generate_commands(
        &c,
        &"ghost".to_string(),
        &vec!["docs".to_string(), "code".to_string()],
        Direction::Pull,
        "/home/bob",
    );
    assert_eq!(cmds.len(), 0);
}

#[test]
fn empty_selection_compiles_nothing() {
    let c = sample_registry();
    let cmds = generate_commands(
        &c,
        &"vm1".to_string(),
        &Vec::new(),
        Direction::Push,
        "/home/bob",
    );
    assert_eq!(cmds.len(), 0);
}

#[test]
fn explicit_selection_preserves_caller_order() {
    let c = sample_registry();
    let cmds = generate_commands(
        &c,
        &"vm1".to_string(),
        &vec!["docs".to_string(), "code".to_string()],
        Direction::Push,
        "/home/bob",
    );
    assert_eq!(cmds.len(), 2);
    assert_eq!(cmds[0].arguments[5], "vm1:~/docs");
    assert_eq!(cmds[1].arguments[5], "vm1:~/code");
}

#[test]
fn push_sends_local_to_remote() {
    let node = Node::new("vm1".to_string());
    let target = Target::new("docs".to_string(), "~/docs".to_string());
    let cmd = push_command(&node, &target, "/home/bob");
    assert_eq!(cmd.command, "rsync");
    assert_eq!(cmd.arguments.len(), 6);
    assert_eq!(cmd.arguments[4], "/home/bob/docs");
    assert_eq!(cmd.arguments[5], "vm1:~/docs");
}

#[test]
fn pull_reverses_source_and_destination() {
    let node = Node::new("vm1".to_string());
    let target = Target::new("docs".to_string(), "~/docs".to_string());
    let push = push_command(&node, &target, "/home/bob");
    let pull = pull_command(&node, &target, "/home/bob");
    assert_eq!(pull.command, "rsync");
    assert_eq!(pull.arguments[4], push.arguments[5]);
    assert_eq!(pull.arguments[5], push.arguments[4]);
    assert_eq!(pull.arguments[4], "vm1:~/docs");
    assert_eq!(pull.arguments[5], "/home/bob/docs");
}

#[test]
fn flag_set_is_frozen() {
    let node = Node::new("vm1".to_string());
    let target = Target::new("docs".to_string(), "/var/docs".to_string());
    let cmd = push_command(&node, &target, "/home/bob");
    assert_eq!(cmd.command, "rsync");
    assert_eq!(
        cmd.arguments,
        vec![
            "-avzHSP".to_string(),
            "--delete".to_string(),
            "-e".to_string(),
            "ssh".to_string(),
            "/var/docs".to_string(),
            "vm1:/var/docs".to_string(),
        ]
    );
}
