//! The command compiler: a synchronization request becomes an ordered list
//! of external-tool invocations.
//!
//! Compilation never fails: an unknown node or an empty selection compiles to
//! nothing, and selected names that match no target are dropped silently.
//! The flag set handed to the mirroring tool is a frozen contract, not
//! configurable.

use vstd::prelude::*;
use vstd::string::StringExecFns;
use crate::config::{Config, ConfigView};
use crate::keyed::{Keyed, has_key, entry_named, keys_of, sorted_by_key, lemma_key_position};
use crate::node::{Node, NodeView};
use crate::target::{Target, TargetView};
use crate::util::{
    expand_user, expand_user_spec, eq_ignore_ascii_case, eq_ignore_ascii_case_spec,
    lemma_deep_view_push,
};

verus! {

/// The mathematical content of an [`RsyncCommand`]: the executable and its
/// full argument vector, in order.
pub struct CommandView {
    pub command: Seq<char>,
    pub arguments: Seq<Seq<char>>,
}

/// An immutable description of one external invocation.
pub struct RsyncCommand {
    pub command: String,
    pub arguments: Vec<String>,
}

impl View for RsyncCommand {
    type V = CommandView;

    open spec fn view(&self) -> CommandView {
        CommandView { command: self.command@, arguments: self.arguments.deep_view() }
    }
}

impl DeepView for RsyncCommand {
    type V = CommandView;

    open spec fn deep_view(&self) -> CommandView {
        self@
    }
}

/// Mirroring direction: local to remote, or remote to local.
#[derive(Clone, Copy, PartialEq, Eq, Structural, Debug)]
pub enum Direction {
    Push,
    Pull,
}

/// The remote-side location string: `<node name>:<target path>`.
pub open spec fn remote_location(node: NodeView, target: TargetView) -> Seq<char> {
    node.name + seq![':'] + target.path
}

/// The local-side location string: the target's path with a leading `~`
/// expanded to the home directory.
pub open spec fn local_location(target: TargetView, home: Seq<char>) -> Seq<char> {
    expand_user_spec(target.path, home)
}

/// The fixed flag set handed to the mirroring tool: archive, verbose,
/// compress, hard links, sparse files, resumable progress, deletion of
/// extraneous destination files, and the ssh transport.
pub open spec fn rsync_flags() -> Seq<Seq<char>> {
    seq!["-avzHSP"@, "--delete"@, "-e"@, "ssh"@]
}

/// The single invocation mirroring `src` into `dest`.
pub open spec fn invocation(src: Seq<char>, dest: Seq<char>) -> CommandView {
    CommandView { command: "rsync"@, arguments: rsync_flags() + seq![src, dest] }
}

/// The invocation for one node, one target and a direction: a push sends the
/// local side to the remote side, a pull the reverse.
pub open spec fn command_for(
    node: NodeView,
    target: TargetView,
    direction: Direction,
    home: Seq<char>,
) -> CommandView {
    match direction {
        Direction::Push => invocation(
            local_location(target, home),
            remote_location(node, target),
        ),
        Direction::Pull => invocation(
            remote_location(node, target),
            local_location(target, home),
        ),
    }
}

/// Whether the first selector token asks for every target, ignoring ASCII
/// case.
pub open spec fn selects_all(selection: Seq<Seq<char>>) -> bool {
    selection.len() > 0 && eq_ignore_ascii_case_spec(selection[0], "all"@)
}

/// The effective name list of a selection: `all` resolves to every target
/// name in registry order; any other selection is taken verbatim, in the
/// caller's order.
pub open spec fn effective_names(targets: Seq<TargetView>, selection: Seq<Seq<char>>) -> Seq<
    Seq<char>,
> {
    if selects_all(selection) {
        keys_of(targets)
    } else {
        selection
    }
}

/// The invocations for a name list, in list order; a name that matches no
/// target contributes nothing.
pub open spec fn commands_for_names(
    targets: Seq<TargetView>,
    node: NodeView,
    names: Seq<Seq<char>>,
    direction: Direction,
    home: Seq<char>,
) -> Seq<CommandView>
    decreases names.len(),
{
    if names.len() == 0 {
        Seq::empty()
    } else {
        let init = commands_for_names(targets, node, names.drop_last(), direction, home);
        if has_key(targets, names.last()) {
            init.push(command_for(node, entry_named(targets, names.last()), direction, home))
        } else {
            init
        }
    }
}

/// What compiling a request yields: nothing for an unknown node or an empty
/// selection, otherwise one invocation per known selected target.
pub open spec fn compiled_commands(
    cfg: ConfigView,
    node_name: Seq<char>,
    selection: Seq<Seq<char>>,
    direction: Direction,
    home: Seq<char>,
) -> Seq<CommandView> {
    if !has_key(cfg.nodes, node_name) || selection.len() == 0 {
        Seq::empty()
    } else {
        commands_for_names(
            cfg.targets,
            entry_named(cfg.nodes, node_name),
            effective_names(cfg.targets, selection),
            direction,
            home,
        )
    }
}

/// Builds the invocation mirroring `src` into `dest`.
fn get_command(src: String, dest: String) -> (r: RsyncCommand)
    ensures
        r@ == invocation(src@, dest@),
{
    let command = String::from_str("rsync");
    let mut arguments: Vec<String> = Vec::new();
    arguments.push(String::from_str("-avzHSP"));
    arguments.push(String::from_str("--delete"));
    arguments.push(String::from_str("-e"));
    arguments.push(String::from_str("ssh"));
    arguments.push(src);
    arguments.push(dest);
    let r = RsyncCommand { command, arguments };
    proof {
        assert(r@.arguments =~= rsync_flags() + seq![src@, dest@]);
    }
    r
}

/// The local and remote location strings for one node and target.
fn get_target_pair(node: &Node, target: &Target, home: &str) -> (r: (String, String))
    ensures
        r.0@ == local_location(target@, home@),
        r.1@ == remote_location(node@, target@),
{
    let local = expand_user(target.path.as_str(), home);
    let mut remote = node.name.clone();
    remote.append(":");
    remote.append(target.path.as_str());
    proof {
        reveal_strlit(":");
        assert(":"@ =~= seq![':']);
    }
    (local, remote)
}

/// The invocation sending the target from the local host to the node.
pub fn push_command(node: &Node, target: &Target, home: &str) -> (r: RsyncCommand)
    ensures
        r@ == command_for(node@, target@, Direction::Push, home@),
{
    let (local_dir, remote_dir) = get_target_pair(node, target, home);
    get_command(local_dir, remote_dir)
}

/// The invocation fetching the target from the node to the local host.
pub fn pull_command(node: &Node, target: &Target, home: &str) -> (r: RsyncCommand)
    ensures
        r@ == command_for(node@, target@, Direction::Pull, home@),
{
    let (local_dir, remote_dir) = get_target_pair(node, target, home);
    get_command(remote_dir, local_dir)
}

/// Copies a selection list.
fn clone_names(v: &Vec<String>) -> (r: Vec<String>)
    ensures
        r.deep_view() == v.deep_view(),
{
    let mut r: Vec<String> = Vec::new();
    proof {
        assert(r.deep_view() =~= v.deep_view().take(0));
    }
    let mut i: usize = 0;
    while i < v.len()
        invariant
            i <= v.len(),
            v.len() == v.deep_view().len(),
            r.deep_view() == v.deep_view().take(i as int),
        decreases v.len() - i,
    {
        let item = v[i].clone();
        let ghost itemg = item;
        let ghost r0 = r;
        r.push(item);
        proof {
            lemma_deep_view_push(r0, r, itemg);
            assert(itemg@ == v.deep_view()[i as int]);
            assert(v.deep_view().take(i + 1) =~= v.deep_view().take(i as int).push(
                v.deep_view()[i as int],
            ));
        }
        i += 1;
    }
    proof {
        assert(v.deep_view().take(v.deep_view().len() as int) =~= v.deep_view());
    }
    r
}

/// Compiles a request: one invocation per known selected target of the named
/// node, in resolution order. An unknown node or an empty selection compiles
/// to nothing; selected names that match no target are dropped silently.
pub fn generate_commands(
    config: &Config,
    node_name: &String,
    target_list: &Vec<String>,
    direction: Direction,
    home: &str,
) -> (r: Vec<RsyncCommand>)
    ensures
        r.deep_view() == compiled_commands(
            config@,
            node_name@,
            target_list.deep_view(),
            direction,
            home@,
        ),
{
    let no_node = !config.contains_node(node_name);
    if no_node || target_list.len() == 0 {
        let r: Vec<RsyncCommand> = Vec::new();
        proof {
            assert(target_list.deep_view().len() == target_list@.len());
            assert(r.deep_view() =~= Seq::<CommandView>::empty());
        }
        return r;
    }
    proof {
        assert(target_list.deep_view()[0] == target_list@[0]@);
    }
    let names: Vec<String> = if eq_ignore_ascii_case(target_list[0].as_str(), "all") {
        config.target_names()
    } else {
        clone_names(target_list)
    };
    let ghost ns = names.deep_view();
    proof {
        assert(ns == effective_names(config@.targets, target_list.deep_view()));
    }
    let node = config.get_node(node_name).unwrap();
    let ghost nview = entry_named(config@.nodes, node_name@);
    let mut out: Vec<RsyncCommand> = Vec::new();
    proof {
        assert(out.deep_view() =~= Seq::<CommandView>::empty());
        assert(ns.take(0) =~= Seq::<Seq<char>>::empty());
    }
    let mut i: usize = 0;
    while i < names.len()
        invariant
            i <= names.len(),
            ns == names.deep_view(),
            names.len() == ns.len(),
            node@ == nview,
            out.deep_view() == commands_for_names(
                config@.targets,
                nview,
                ns.take(i as int),
                direction,
                home@,
            ),
        decreases names.len() - i,
    {
        proof {
            assert(ns.take(i + 1).drop_last() =~= ns.take(i as int));
            assert(ns.take(i + 1).last() == ns[i as int]);
            assert(names.deep_view()[i as int] == names@[i as int]@);
        }
        match config.get_target(&names[i]) {
            Some(t) => {
                let cmd = match direction {
                    Direction::Push => push_command(node, t, home),
                    Direction::Pull => pull_command(node, t, home),
                };
                let ghost cmdg = cmd;
                let ghost out0 = out;
                out.push(cmd);
                proof {
                    lemma_deep_view_push(out0, out, cmdg);
                }
            },
            None => {},
        }
        i += 1;
    }
    proof {
        assert(ns.take(ns.len() as int) =~= ns);
    }
    out
}

/// Compiling for a node absent from the registry yields no commands, whatever
/// the selection, the direction and the home directory.
pub proof fn lemma_unknown_node_compiles_nothing(
    cfg: ConfigView,
    node_name: Seq<char>,
    selection: Seq<Seq<char>>,
    direction: Direction,
    home: Seq<char>,
)
    requires
        !has_key(cfg.nodes, node_name),
    ensures
        compiled_commands(cfg, node_name, selection, direction, home) == Seq::<
            CommandView,
        >::empty(),
{
}

/// A selected name that matches no target is dropped silently: appending it
/// to a selection leaves the compiled commands unchanged.
pub proof fn lemma_unknown_target_dropped(
    targets: Seq<TargetView>,
    node: NodeView,
    names: Seq<Seq<char>>,
    name: Seq<char>,
    direction: Direction,
    home: Seq<char>,
)
    requires
        !has_key(targets, name),
    ensures
        commands_for_names(targets, node, names.push(name), direction, home)
            == commands_for_names(targets, node, names, direction, home),
{
    assert(names.push(name).drop_last() =~= names);
    assert(names.push(name).last() == name);
}

/// Helper for the `all` law: over a prefix of the registry's own name list,
/// compilation emits exactly one invocation per target, in registry order.
proof fn lemma_all_names_prefix(
    targets: Seq<TargetView>,
    node: NodeView,
    direction: Direction,
    home: Seq<char>,
    k: int,
)
    requires
        sorted_by_key(targets),
        0 <= k <= targets.len(),
    ensures
        commands_for_names(targets, node, keys_of(targets).take(k), direction, home).len() == k,
        forall|i: int|
            0 <= i < k ==> commands_for_names(targets, node, keys_of(targets).take(k), direction, home)[i]
                == command_for(node, targets[i], direction, home),
    decreases k,
{
    if k > 0 {
        lemma_all_names_prefix(targets, node, direction, home, k - 1);
        let pre = keys_of(targets).take(k);
        assert(pre.drop_last() =~= keys_of(targets).take(k - 1));
        assert(pre.last() == targets[k - 1].key());
        assert(has_key(targets, targets[k - 1].key()));
        lemma_key_position(targets, targets[k - 1].key());
        assert(entry_named(targets, targets[k - 1].key()) == targets[k - 1]);
    }
}

/// The `all` selector compiles one invocation per registered target, in
/// ascending name order.
pub proof fn lemma_all_selector(
    cfg: ConfigView,
    node_name: Seq<char>,
    selection: Seq<Seq<char>>,
    direction: Direction,
    home: Seq<char>,
)
    requires
        sorted_by_key(cfg.targets),
        has_key(cfg.nodes, node_name),
        selects_all(selection),
    ensures
        compiled_commands(cfg, node_name, selection, direction, home).len() == cfg.targets.len(),
        forall|i: int|
            0 <= i < cfg.targets.len() ==> compiled_commands(
                cfg,
                node_name,
                selection,
                direction,
                home,
            )[i] == command_for(
                entry_named(cfg.nodes, node_name),
                cfg.targets[i],
                direction,
                home,
            ),
{
    let node = entry_named(cfg.nodes, node_name);
    lemma_all_names_prefix(cfg.targets, node, direction, home, cfg.targets.len() as int);
    assert(keys_of(cfg.targets).take(cfg.targets.len() as int) =~= keys_of(cfg.targets));
}

/// Pull is push reversed: the same executable and flags, with the source and
/// destination arguments exchanged. For a push the source is the local side
/// and the destination the remote side.
pub proof fn lemma_pull_reverses_push(node: NodeView, target: TargetView, home: Seq<char>)
    ensures
        command_for(node, target, Direction::Push, home) == invocation(
            local_location(target, home),
            remote_location(node, target),
        ),
        command_for(node, target, Direction::Pull, home) == invocation(
            remote_location(node, target),
            local_location(target, home),
        ),
        command_for(node, target, Direction::Push, home).arguments[4] == command_for(
            node,
            target,
            Direction::Pull,
            home,
        ).arguments[5],
        command_for(node, target, Direction::Push, home).arguments[5] == command_for(
            node,
            target,
            Direction::Pull,
            home,
        ).arguments[4],
{
}

} // verus!
