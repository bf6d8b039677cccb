//! The configuration registry: an in-memory store of nodes and targets.
//!
//! Records are kept in vectors sorted strictly ascending by name, so every
//! enumeration is already the canonical listing and names are unique. Adding
//! overwrites by name (last write wins); removing an absent name is a silent
//! no-op. Reading and writing the persisted file is the caller's business:
//! the registry only offers the pure record operations, and
//! [`Config::from_records`] rebuilds a registry from the records of a file.

use vstd::prelude::*;
use vstd::pervasive::VecAdditionalExecFns;
use crate::keyed::{
    Keyed, sorted_by_key, has_key, entry_named, index_of_key, first_at_or_above, insert_entry,
    remove_entry, insert_all, remove_all, keys_of, lemma_boundary, lemma_key_position,
    lemma_insert_entry, lemma_remove_entry, lemma_sorted_entries_unique,
    lemma_insert_all_rebuilds, lemma_insert_entry_idempotent,
};
use crate::node::{Node, NodeView};
use crate::target::{Target, TargetView};
use crate::order::{seq_char_lt, str_lt};
use crate::util::{eq_ignore_ascii_case, eq_ignore_ascii_case_spec, lemma_deep_view_push};

verus! {

/// One of the three textual encodings of a persisted registry.
#[derive(Clone, Copy, PartialEq, Eq, Structural, Debug)]
pub enum ConfigFormat {
    Yaml,
    Json,
    Toml,
}

/// The format a token names, ignoring ASCII case; `yml` is shorthand for
/// `yaml`; any other token names no format.
pub open spec fn format_of_token(s: Seq<char>) -> Option<ConfigFormat> {
    if eq_ignore_ascii_case_spec(s, "json"@) {
        Some(ConfigFormat::Json)
    } else if eq_ignore_ascii_case_spec(s, "toml"@) {
        Some(ConfigFormat::Toml)
    } else if eq_ignore_ascii_case_spec(s, "yaml"@) || eq_ignore_ascii_case_spec(s, "yml"@) {
        Some(ConfigFormat::Yaml)
    } else {
        None
    }
}

impl ConfigFormat {
    /// Parses a format token, for example a file extension.
    pub fn from_str(s: &str) -> (r: Option<ConfigFormat>)
        ensures
            r == format_of_token(s@),
    {
        if eq_ignore_ascii_case(s, "json") {
            Some(ConfigFormat::Json)
        } else if eq_ignore_ascii_case(s, "toml") {
            Some(ConfigFormat::Toml)
        } else if eq_ignore_ascii_case(s, "yaml") {
            Some(ConfigFormat::Yaml)
        } else if eq_ignore_ascii_case(s, "yml") {
            Some(ConfigFormat::Yaml)
        } else {
            None
        }
    }
}

/// The mathematical content of a [`Config`]: its node and target listings,
/// each in ascending name order.
pub struct ConfigView {
    pub nodes: Seq<NodeView>,
    pub targets: Seq<TargetView>,
}

/// The registry.
pub struct Config {
    nodes: Vec<Node>,
    targets: Vec<Target>,
}

impl View for Config {
    type V = ConfigView;

    closed spec fn view(&self) -> ConfigView {
        ConfigView { nodes: self.nodes.deep_view(), targets: self.targets.deep_view() }
    }
}

impl Config {
    /// Both stores are kept strictly sorted by name at all times.
    #[verifier::type_invariant]
    pub open spec fn wf(self) -> bool {
        sorted_by_key(self@.nodes) && sorted_by_key(self@.targets)
    }

    /// Creates an empty registry.
    pub fn new() -> (r: Config)
        ensures
            r@.nodes == Seq::<NodeView>::empty(),
            r@.targets == Seq::<TargetView>::empty(),
    {
        let r = Config { nodes: Vec::new(), targets: Vec::new() };
        proof {
            assert(r@.nodes =~= Seq::<NodeView>::empty());
            assert(r@.targets =~= Seq::<TargetView>::empty());
        }
        r
    }

    /// Inserts the node, overwriting any node of the same name; targets are
    /// untouched. Always succeeds.
    pub fn add_node(&mut self, node: Node)
        ensures
            final(self)@.nodes == insert_entry(old(self)@.nodes, node@),
            final(self)@.targets == old(self)@.targets,
    {
        proof {
            use_type_invariant(&*self);
        }
        let ghost s0 = self@.nodes;
        proof {
            lemma_insert_entry(s0, node@);
        }
        let mut ns: Vec<Node> = Vec::new();
        std::mem::swap(&mut ns, &mut self.nodes);
        proof {
            assert(self@.nodes =~= Seq::<NodeView>::empty());
        }
        let p = node_position(&ns, &node.name);
        let ghost pp = p as int;
        if p < ns.len() && ns[p].name == node.name {
            proof {
                assert(s0[pp].key() == node@.key());
            }
            ns.set(p, node);
            proof {
                assert(ns.deep_view() =~= s0.update(pp, node@));
            }
        } else {
            proof {
                lemma_boundary(s0, node@.key());
                assert(insert_entry(s0, node@) == s0.insert(pp, node@));
                s0.insert_ensures(pp, node@);
            }
            ns.insert(p, node);
            proof {
                assert(ns.deep_view() =~= s0.insert(pp, node@));
            }
        }
        self.nodes = ns;
    }

    /// Inserts each node in turn; a later record wins over an earlier one of
    /// the same name.
    pub fn add_nodes(&mut self, nodes: Vec<Node>)
        ensures
            final(self)@.nodes == insert_all(old(self)@.nodes, nodes.deep_view()),
            final(self)@.targets == old(self)@.targets,
    {
        let ghost base = self@.nodes;
        let ghost baset = self@.targets;
        let ghost xs = nodes.deep_view();
        proof {
            assert(xs.take(0) =~= Seq::<NodeView>::empty());
        }
        let mut i: usize = 0;
        while i < nodes.len()
            invariant
                i <= nodes.len(),
                xs == nodes.deep_view(),
                xs.len() == nodes.len(),
                self@.nodes == insert_all(base, xs.take(i as int)),
                self@.targets == baset,
            decreases nodes.len() - i,
        {
            self.add_node(nodes[i].clone());
            proof {
                assert(xs.take(i + 1).drop_last() =~= xs.take(i as int));
                assert(xs.take(i + 1).last() == xs[i as int]);
            }
            i += 1;
        }
        proof {
            assert(xs.take(nodes.len() as int) =~= xs);
        }
    }

    /// Inserts the target, overwriting any target of the same name; nodes are
    /// untouched. Always succeeds.
    pub fn add_target(&mut self, target: Target)
        ensures
            final(self)@.targets == insert_entry(old(self)@.targets, target@),
            final(self)@.nodes == old(self)@.nodes,
    {
        proof {
            use_type_invariant(&*self);
        }
        let ghost s0 = self@.targets;
        proof {
            lemma_insert_entry(s0, target@);
        }
        let mut ts: Vec<Target> = Vec::new();
        std::mem::swap(&mut ts, &mut self.targets);
        proof {
            assert(self@.targets =~= Seq::<TargetView>::empty());
        }
        let p = target_position(&ts, &target.name);
        let ghost pp = p as int;
        if p < ts.len() && ts[p].name == target.name {
            proof {
                assert(s0[pp].key() == target@.key());
            }
            ts.set(p, target);
            proof {
                assert(ts.deep_view() =~= s0.update(pp, target@));
            }
        } else {
            proof {
                lemma_boundary(s0, target@.key());
                assert(insert_entry(s0, target@) == s0.insert(pp, target@));
                s0.insert_ensures(pp, target@);
            }
            ts.insert(p, target);
            proof {
                assert(ts.deep_view() =~= s0.insert(pp, target@));
            }
        }
        self.targets = ts;
    }

    /// Inserts each target in turn; a later record wins over an earlier one
    /// of the same name.
    pub fn add_targets(&mut self, targets: Vec<Target>)
        ensures
            final(self)@.targets == insert_all(old(self)@.targets, targets.deep_view()),
            final(self)@.nodes == old(self)@.nodes,
    {
        let ghost base = self@.targets;
        let ghost basen = self@.nodes;
        let ghost xs = targets.deep_view();
        proof {
            assert(xs.take(0) =~= Seq::<TargetView>::empty());
        }
        let mut i: usize = 0;
        while i < targets.len()
            invariant
                i <= targets.len(),
                xs == targets.deep_view(),
                xs.len() == targets.len(),
                self@.targets == insert_all(base, xs.take(i as int)),
                self@.nodes == basen,
            decreases targets.len() - i,
        {
            self.add_target(targets[i].clone());
            proof {
                assert(xs.take(i + 1).drop_last() =~= xs.take(i as int));
                assert(xs.take(i + 1).last() == xs[i as int]);
            }
            i += 1;
        }
        proof {
            assert(xs.take(targets.len() as int) =~= xs);
        }
    }

    /// Removes the node of that name; an absent name is a silent no-op.
    pub fn remove_node(&mut self, node_name: String)
        ensures
            final(self)@.nodes == remove_entry(old(self)@.nodes, node_name@),
            final(self)@.targets == old(self)@.targets,
    {
        proof {
            use_type_invariant(&*self);
        }
        let ghost s0 = self@.nodes;
        proof {
            lemma_remove_entry(s0, node_name@);
        }
        match find_node(&self.nodes, &node_name) {
            None => {
                proof {
                    assert(remove_entry(s0, node_name@) == s0);
                }
            },
            Some(i) => {
                proof {
                    assert(has_key(s0, node_name@));
                    lemma_key_position(s0, node_name@);
                    assert(index_of_key(s0, node_name@) == i as int);
                }
                let mut ns: Vec<Node> = Vec::new();
                std::mem::swap(&mut ns, &mut self.nodes);
                proof {
                    assert(self@.nodes =~= Seq::<NodeView>::empty());
                }
                let _ = ns.remove(i);
                proof {
                    s0.remove_ensures(i as int);
                    assert(ns.deep_view() =~= s0.remove(i as int));
                }
                self.nodes = ns;
            },
        }
    }

    /// Removes each named node in turn.
    pub fn remove_nodes(&mut self, node_names: Vec<String>)
        ensures
            final(self)@.nodes == remove_all(old(self)@.nodes, node_names.deep_view()),
            final(self)@.targets == old(self)@.targets,
    {
        let ghost base = self@.nodes;
        let ghost baset = self@.targets;
        let ghost ks = node_names.deep_view();
        let mut i: usize = 0;
        while i < node_names.len()
            invariant
                i <= node_names.len(),
                ks == node_names.deep_view(),
                ks.len() == node_names.len(),
                self@.nodes == remove_all(base, ks.take(i as int)),
                self@.targets == baset,
            decreases node_names.len() - i,
        {
            self.remove_node(node_names[i].clone());
            proof {
                assert(ks.take(i + 1).drop_last() =~= ks.take(i as int));
                assert(ks.take(i + 1).last() == ks[i as int]);
            }
            i += 1;
        }
        proof {
            assert(ks.take(node_names.len() as int) =~= ks);
        }
    }

    /// Removes the target of that name; an absent name is a silent no-op.
    pub fn remove_target(&mut self, target_name: String)
        ensures
            final(self)@.targets == remove_entry(old(self)@.targets, target_name@),
            final(self)@.nodes == old(self)@.nodes,
    {
        proof {
            use_type_invariant(&*self);
        }
        let ghost s0 = self@.targets;
        proof {
            lemma_remove_entry(s0, target_name@);
        }
        match find_target(&self.targets, &target_name) {
            None => {
                proof {
                    assert(remove_entry(s0, target_name@) == s0);
                }
            },
            Some(i) => {
                proof {
                    assert(has_key(s0, target_name@));
                    lemma_key_position(s0, target_name@);
                    assert(index_of_key(s0, target_name@) == i as int);
                }
                let mut ts: Vec<Target> = Vec::new();
                std::mem::swap(&mut ts, &mut self.targets);
                proof {
                    assert(self@.targets =~= Seq::<TargetView>::empty());
                }
                let _ = ts.remove(i);
                proof {
                    s0.remove_ensures(i as int);
                    assert(ts.deep_view() =~= s0.remove(i as int));
                }
                self.targets = ts;
            },
        }
    }

    /// Removes each named target in turn.
    pub fn remove_targets(&mut self, target_names: Vec<String>)
        ensures
            final(self)@.targets == remove_all(old(self)@.targets, target_names.deep_view()),
            final(self)@.nodes == old(self)@.nodes,
    {
        let ghost base = self@.targets;
        let ghost basen = self@.nodes;
        let ghost ks = target_names.deep_view();
        let mut i: usize = 0;
        while i < target_names.len()
            invariant
                i <= target_names.len(),
                ks == target_names.deep_view(),
                ks.len() == target_names.len(),
                self@.targets == remove_all(base, ks.take(i as int)),
                self@.nodes == basen,
            decreases target_names.len() - i,
        {
            self.remove_target(target_names[i].clone());
            proof {
                assert(ks.take(i + 1).drop_last() =~= ks.take(i as int));
                assert(ks.take(i + 1).last() == ks[i as int]);
            }
            i += 1;
        }
        proof {
            assert(ks.take(target_names.len() as int) =~= ks);
        }
    }

    /// The full node listing, ascending by name.
    pub fn nodes(&self) -> (r: Vec<Node>)
        ensures
            r.deep_view() == self@.nodes,
            sorted_by_key(r.deep_view()),
    {
        proof {
            use_type_invariant(&*self);
        }
        let mut r: Vec<Node> = Vec::new();
        proof {
            assert(r.deep_view() =~= self@.nodes.take(0));
        }
        let mut i: usize = 0;
        while i < self.nodes.len()
            invariant
                i <= self.nodes.len(),
                self.nodes.len() == self@.nodes.len(),
                r.deep_view() == self@.nodes.take(i as int),
            decreases self.nodes.len() - i,
        {
            let item = self.nodes[i].clone();
            let ghost itemg = item;
            let ghost r0 = r;
            r.push(item);
            proof {
                lemma_deep_view_push(r0, r, itemg);
                assert(itemg@ == self@.nodes[i as int]);
                assert(self@.nodes.take(i + 1) =~= self@.nodes.take(i as int).push(
                    self@.nodes[i as int],
                ));
            }
            i += 1;
        }
        proof {
            assert(self@.nodes.take(self@.nodes.len() as int) =~= self@.nodes);
        }
        r
    }

    /// The node names, ascending.
    pub fn node_names(&self) -> (r: Vec<String>)
        ensures
            r.deep_view() == keys_of(self@.nodes),
    {
        let mut r: Vec<String> = Vec::new();
        proof {
            assert(r.deep_view() =~= keys_of(self@.nodes).take(0));
        }
        let mut i: usize = 0;
        while i < self.nodes.len()
            invariant
                i <= self.nodes.len(),
                self.nodes.len() == self@.nodes.len(),
                r.deep_view() == keys_of(self@.nodes).take(i as int),
            decreases self.nodes.len() - i,
        {
            let item = self.nodes[i].name.clone();
            let ghost itemg = item;
            let ghost r0 = r;
            r.push(item);
            proof {
                lemma_deep_view_push(r0, r, itemg);
                assert(itemg@ == keys_of(self@.nodes)[i as int]);
                assert(keys_of(self@.nodes).take(i + 1) =~= keys_of(self@.nodes).take(
                    i as int,
                ).push(keys_of(self@.nodes)[i as int]));
            }
            i += 1;
        }
        proof {
            assert(keys_of(self@.nodes).take(self@.nodes.len() as int) =~= keys_of(self@.nodes));
        }
        r
    }

    /// The full target listing, ascending by name.
    pub fn targets(&self) -> (r: Vec<Target>)
        ensures
            r.deep_view() == self@.targets,
            sorted_by_key(r.deep_view()),
    {
        proof {
            use_type_invariant(&*self);
        }
        let mut r: Vec<Target> = Vec::new();
        proof {
            assert(r.deep_view() =~= self@.targets.take(0));
        }
        let mut i: usize = 0;
        while i < self.targets.len()
            invariant
                i <= self.targets.len(),
                self.targets.len() == self@.targets.len(),
                r.deep_view() == self@.targets.take(i as int),
            decreases self.targets.len() - i,
        {
            let item = self.targets[i].clone();
            let ghost itemg = item;
            let ghost r0 = r;
            r.push(item);
            proof {
                lemma_deep_view_push(r0, r, itemg);
                assert(itemg@ == self@.targets[i as int]);
                assert(self@.targets.take(i + 1) =~= self@.targets.take(i as int).push(
                    self@.targets[i as int],
                ));
            }
            i += 1;
        }
        proof {
            assert(self@.targets.take(self@.targets.len() as int) =~= self@.targets);
        }
        r
    }

    /// The target names, ascending.
    pub fn target_names(&self) -> (r: Vec<String>)
        ensures
            r.deep_view() == keys_of(self@.targets),
    {
        let mut r: Vec<String> = Vec::new();
        proof {
            assert(r.deep_view() =~= keys_of(self@.targets).take(0));
        }
        let mut i: usize = 0;
        while i < self.targets.len()
            invariant
                i <= self.targets.len(),
                self.targets.len() == self@.targets.len(),
                r.deep_view() == keys_of(self@.targets).take(i as int),
            decreases self.targets.len() - i,
        {
            let item = self.targets[i].name.clone();
            let ghost itemg = item;
            let ghost r0 = r;
            r.push(item);
            proof {
                lemma_deep_view_push(r0, r, itemg);
                assert(itemg@ == keys_of(self@.targets)[i as int]);
                assert(keys_of(self@.targets).take(i + 1) =~= keys_of(self@.targets).take(
                    i as int,
                ).push(keys_of(self@.targets)[i as int]));
            }
            i += 1;
        }
        proof {
            assert(keys_of(self@.targets).take(self@.targets.len() as int) =~= keys_of(
                self@.targets,
            ));
        }
        r
    }

    /// Looks a node up by name; an unknown name is absence, not an error.
    pub fn get_node(&self, node_name: &String) -> (r: Option<&Node>)
        ensures
            match r {
                Some(n) => has_key(self@.nodes, node_name@) && n@ == entry_named(
                    self@.nodes,
                    node_name@,
                ),
                None => !has_key(self@.nodes, node_name@),
            },
    {
        proof {
            use_type_invariant(&*self);
        }
        match find_node(&self.nodes, node_name) {
            None => None,
            Some(i) => {
                proof {
                    assert(has_key(self@.nodes, node_name@));
                    lemma_key_position(self@.nodes, node_name@);
                }
                Some(&self.nodes[i])
            },
        }
    }

    /// Looks a target up by name; an unknown name is absence, not an error.
    pub fn get_target(&self, target_name: &String) -> (r: Option<&Target>)
        ensures
            match r {
                Some(t) => has_key(self@.targets, target_name@) && t@ == entry_named(
                    self@.targets,
                    target_name@,
                ),
                None => !has_key(self@.targets, target_name@),
            },
    {
        proof {
            use_type_invariant(&*self);
        }
        match find_target(&self.targets, target_name) {
            None => None,
            Some(i) => {
                proof {
                    assert(has_key(self@.targets, target_name@));
                    lemma_key_position(self@.targets, target_name@);
                }
                Some(&self.targets[i])
            },
        }
    }

    /// Whether a node of that name is registered.
    pub fn contains_node(&self, node_name: &String) -> (r: bool)
        ensures
            r == has_key(self@.nodes, node_name@),
    {
        match find_node(&self.nodes, node_name) {
            Some(i) => {
                proof {
                    assert(has_key(self@.nodes, node_name@));
                }
                true
            },
            None => false,
        }
    }

    /// Whether a target of that name is registered.
    pub fn contains_target(&self, target_name: &String) -> (r: bool)
        ensures
            r == has_key(self@.targets, target_name@),
    {
        match find_target(&self.targets, target_name) {
            Some(i) => {
                proof {
                    assert(has_key(self@.targets, target_name@));
                }
                true
            },
            None => false,
        }
    }

    /// Builds a registry from listed records, as loading a persisted file
    /// does; a later record wins over an earlier one of the same name.
    pub fn from_records(nodes: Vec<Node>, targets: Vec<Target>) -> (r: Config)
        ensures
            r@.nodes == insert_all(Seq::<NodeView>::empty(), nodes.deep_view()),
            r@.targets == insert_all(Seq::<TargetView>::empty(), targets.deep_view()),
    {
        let mut c = Config::new();
        c.add_nodes(nodes);
        c.add_targets(targets);
        c
    }
}

/// The position where a node of that name belongs in the sorted store.
fn node_position(ns: &Vec<Node>, name: &String) -> (p: usize)
    ensures
        p <= ns.deep_view().len(),
        p == first_at_or_above(ns.deep_view(), name@),
{
    let ghost s = ns.deep_view();
    proof {
        lemma_boundary(s, name@);
    }
    let mut i: usize = 0;
    while i < ns.len()
        invariant
            i <= ns.len(),
            s == ns.deep_view(),
            s.len() == ns.len(),
            forall|j: int| 0 <= j < i ==> seq_char_lt(#[trigger] s[j].key(), name@),
        ensures
            i <= ns.len(),
            forall|j: int| 0 <= j < i ==> seq_char_lt(#[trigger] s[j].key(), name@),
            i == ns.len() || !seq_char_lt(s[i as int].key(), name@),
        decreases ns.len() - i,
    {
        if !str_lt(ns[i].name.as_str(), name.as_str()) {
            break;
        }
        i += 1;
    }
    proof {
        let p = first_at_or_above(s, name@);
        if i < p {
            assert(seq_char_lt(s[i as int].key(), name@));
        } else if i > p {
            assert(seq_char_lt(s[p].key(), name@));
        }
    }
    i
}

/// The position where a target of that name belongs in the sorted store.
fn target_position(ts: &Vec<Target>, name: &String) -> (p: usize)
    ensures
        p <= ts.deep_view().len(),
        p == first_at_or_above(ts.deep_view(), name@),
{
    let ghost s = ts.deep_view();
    proof {
        lemma_boundary(s, name@);
    }
    let mut i: usize = 0;
    while i < ts.len()
        invariant
            i <= ts.len(),
            s == ts.deep_view(),
            s.len() == ts.len(),
            forall|j: int| 0 <= j < i ==> seq_char_lt(#[trigger] s[j].key(), name@),
        ensures
            i <= ts.len(),
            forall|j: int| 0 <= j < i ==> seq_char_lt(#[trigger] s[j].key(), name@),
            i == ts.len() || !seq_char_lt(s[i as int].key(), name@),
        decreases ts.len() - i,
    {
        if !str_lt(ts[i].name.as_str(), name.as_str()) {
            break;
        }
        i += 1;
    }
    proof {
        let p = first_at_or_above(s, name@);
        if i < p {
            assert(seq_char_lt(s[i as int].key(), name@));
        } else if i > p {
            assert(seq_char_lt(s[p].key(), name@));
        }
    }
    i
}

/// Scans for the node of that name.
fn find_node(ns: &Vec<Node>, name: &String) -> (r: Option<usize>)
    ensures
        match r {
            Some(i) => i < ns.deep_view().len() && ns.deep_view()[i as int].key() == name@,
            None => !has_key(ns.deep_view(), name@),
        },
{
    let mut i: usize = 0;
    while i < ns.len()
        invariant
            i <= ns.len(),
            ns.len() == ns.deep_view().len(),
            forall|j: int| 0 <= j < i ==> (#[trigger] ns.deep_view()[j].key()) != name@,
        decreases ns.len() - i,
    {
        if ns[i].name == *name {
            return Some(i);
        }
        i += 1;
    }
    None
}

/// Scans for the target of that name.
fn find_target(ts: &Vec<Target>, name: &String) -> (r: Option<usize>)
    ensures
        match r {
            Some(i) => i < ts.deep_view().len() && ts.deep_view()[i as int].key() == name@,
            None => !has_key(ts.deep_view(), name@),
        },
{
    let mut i: usize = 0;
    while i < ts.len()
        invariant
            i <= ts.len(),
            ts.len() == ts.deep_view().len(),
            forall|j: int| 0 <= j < i ==> (#[trigger] ts.deep_view()[j].key()) != name@,
        decreases ts.len() - i,
    {
        if ts[i].name == *name {
            return Some(i);
        }
        i += 1;
    }
    None
}

/// Any two registries holding the same records list them identically: the
/// enumeration order is canonical, whatever order the records were filed in.
pub proof fn lemma_canonical_listing(v1: ConfigView, v2: ConfigView)
    requires
        sorted_by_key(v1.nodes),
        sorted_by_key(v1.targets),
        sorted_by_key(v2.nodes),
        sorted_by_key(v2.targets),
        forall|e: NodeView| v1.nodes.contains(e) <==> v2.nodes.contains(e),
        forall|e: TargetView| v1.targets.contains(e) <==> v2.targets.contains(e),
    ensures
        v1 == v2,
{
    lemma_sorted_entries_unique(v1.nodes, v2.nodes);
    lemma_sorted_entries_unique(v1.targets, v2.targets);
}

/// Filing the same node twice leaves exactly the registry that filing it once
/// leaves.
pub proof fn lemma_add_node_idempotent(v: ConfigView, n: NodeView)
    requires
        sorted_by_key(v.nodes),
    ensures
        insert_entry(insert_entry(v.nodes, n), n) == insert_entry(v.nodes, n),
{
    lemma_insert_entry_idempotent(v.nodes, n);
}

/// Filing the same target twice leaves exactly the registry that filing it
/// once leaves.
pub proof fn lemma_add_target_idempotent(v: ConfigView, t: TargetView)
    requires
        sorted_by_key(v.targets),
    ensures
        insert_entry(insert_entry(v.targets, t), t) == insert_entry(v.targets, t),
{
    lemma_insert_entry_idempotent(v.targets, t);
}

/// Round trip: re-filing a registry's own listings into an empty registry
/// rebuilds the registry, so persisting the listings and loading them back
/// is lossless whatever textual encoding carries them.
pub proof fn lemma_listing_round_trip(v: ConfigView)
    requires
        sorted_by_key(v.nodes),
        sorted_by_key(v.targets),
    ensures
        insert_all(Seq::<NodeView>::empty(), v.nodes) == v.nodes,
        insert_all(Seq::<TargetView>::empty(), v.targets) == v.targets,
{
    lemma_insert_all_rebuilds(v.nodes);
    lemma_insert_all_rebuilds(v.targets);
}

} // verus!
