//! The command tree: a trie over case-insensitive path segments, in which each
//! node may carry the identifier of a command handler, of a query handler, or
//! of both.

use vstd::prelude::*;
use vstd::string::StringExecFns;
use vstd::utf8::encode_utf8;
use crate::ascii::{eq_ignore_case, fold_case, same_name};
use crate::command::{
    canonical_of, lemma_first_path_is_long, lemma_paths_are_spellings, long_path, path_views,
    paths_of, segment_views, spells, Command, CommandSpec,
};

verus! {

/// Identifier of a registered command or query handler.
pub type CommandId = usize;

/// Index of a node in its [`Tree`]. The root is node 0.
pub type NodeId = usize;

/// A path with the case of every segment folded.
pub open spec fn fold_path(path: Seq<Seq<u8>>) -> Seq<Seq<u8>> {
    Seq::new(path.len(), |i: int| fold_case(path[i]))
}

/// Two paths match when they have the same number of segments and the
/// segments match one by one.
pub open spec fn same_path(a: Seq<Seq<u8>>, b: Seq<Seq<u8>>) -> bool {
    fold_path(a) == fold_path(b)
}

/// A path leads along another when it matches a start of it: it is no
/// longer, and its segments match those of the other one by one.
pub open spec fn leads(p: Seq<Seq<u8>>, path: Seq<Seq<u8>>) -> bool {
    p.len() <= path.len() && same_path(p, path.take(p.len() as int))
}

/// A path leads along one of the given paths.
pub open spec fn leads_along(p: Seq<Seq<u8>>, paths: Seq<Seq<Seq<u8>>>) -> bool {
    exists|i: int| 0 <= i < paths.len() && leads(p, #[trigger] paths[i])
}

/// The bytes of each segment of a path that is given as strings.
pub open spec fn names(path: Seq<String>) -> Seq<Seq<u8>> {
    Seq::new(path.len(), |i: int| encode_utf8(path[i]@))
}

/// The first entry whose name matches `name`, if there is one.
pub open spec fn find_child(entries: Seq<(Seq<u8>, NodeId)>, name: Seq<u8>) -> Option<NodeId>
    decreases entries.len(),
{
    if entries.len() == 0 {
        None
    } else if same_name(entries.first().0, name) {
        Some(entries.first().1)
    } else {
        find_child(entries.drop_first(), name)
    }
}

/// A node of the command tree.
#[derive(Debug, Clone, PartialEq, Eq)]
pub struct Node {
    /// The segments that may follow this node, each with the node it leads to.
    pub children: Vec<(String, NodeId)>,
    /// The handler of the command that ends at this node.
    pub command: Option<CommandId>,
    /// The handler of the query that ends at this node.
    pub query: Option<CommandId>,
}

impl Node {
    /// The children as pairs of a name, in bytes, and a node.
    pub open spec fn entries(self) -> Seq<(Seq<u8>, NodeId)> {
        Seq::new(
            self.children@.len(),
            |i: int| (encode_utf8(self.children@[i].0@), self.children@[i].1),
        )
    }

    /// The node that the segment `name` leads to from this node.
    pub open spec fn child_spec(self, name: Seq<u8>) -> Option<NodeId> {
        find_child(self.entries(), name)
    }

    /// The handler of this node for a command or for a query.
    pub open spec fn handler(self, query: bool) -> Option<CommandId> {
        if query {
            self.query
        } else {
            self.command
        }
    }

    /// A node without children and without handlers.
    pub fn new() -> (r: Node)
        ensures
            r.children@.len() == 0,
            r.command is None,
            r.query is None,
    {
        Node { children: Vec::new(), command: None, query: None }
    }

    /// Searches for a path component in this node.
    ///
    /// The search is case-insensitive, and the first match in the order of
    /// the children counts.
    pub fn child(&self, name: &str) -> (r: Option<NodeId>)
        ensures
            r == self.child_spec(encode_utf8(name@)),
    {
        let wanted = name.as_bytes();
        let mut i: usize = 0;
        assert(self.entries().skip(0) =~= self.entries());
        while i < self.children.len()
            invariant
                i <= self.children@.len(),
                wanted@ == encode_utf8(name@),
                self.child_spec(wanted@) == find_child(self.entries().skip(i as int), wanted@),
            decreases self.children@.len() - i,
        {
            let ghost rest = self.entries().skip(i as int);
            let found = eq_ignore_case(self.children[i].0.as_str().as_bytes(), wanted);
            assert(rest.first() == self.entries()[i as int]);
            if found {
                return Some(self.children[i].1);
            }
            assert(rest.drop_first() == self.entries().skip(i as int + 1));
            i += 1;
        }
        None
    }
}

/// A failed registration.
#[derive(Debug, Clone, PartialEq, Eq)]
pub enum Error {
    /// A command is already registered under one of the paths. `path` is the
    /// canonical path of that command.
    CommandExists { path: String },
    /// A query is already registered under one of the paths. `path` is the
    /// canonical path of that query.
    QueryExists { path: String },
}

impl Error {
    /// The canonical path of the handler that was in the way.
    pub open spec fn path_text(self) -> Seq<char> {
        match self {
            Error::CommandExists { path } => path@,
            Error::QueryExists { path } => path@,
        }
    }

    /// The message of the error.
    pub open spec fn message_text(self) -> Seq<char> {
        match self {
            Error::CommandExists { path } => "Command "@ + path@ + " is already defined"@,
            Error::QueryExists { path } => "Query "@ + path@ + " is already defined"@,
        }
    }

    /// The message of the error: it names the command or the query that is
    /// already defined.
    pub fn message(&self) -> (r: String)
        ensures
            r@ == self.message_text(),
    {
        let (mut text, path) = match self {
            Error::CommandExists { path } => (String::from_str("Command "), path),
            Error::QueryExists { path } => (String::from_str("Query "), path),
        };
        text.append(path.as_str());
        text.append(" is already defined");
        text
    }
}

/// What the tree remembers of a handler besides its identifier.
struct Entry {
    /// The number of arguments that the handler takes.
    arity: usize,
    /// The canonical path of the command that the handler belongs to.
    path: String,
}

/// A node together with what the tree remembers of its handlers.
struct Slot {
    node: Node,
    command: Option<Entry>,
    query: Option<Entry>,
}

impl Slot {
    /// The arity of every handler of the node is known.
    spec fn consistent(self) -> bool {
        &&& self.node.command is Some ==> self.command is Some
        &&& self.node.query is Some ==> self.query is Some
    }
}

/// What is registered under a path.
pub struct Registration {
    /// The handler.
    pub id: CommandId,
    /// The number of arguments that the handler takes.
    pub arity: usize,
    /// The canonical path of the command that the handler belongs to.
    pub path: Seq<char>,
}

/// The command tree. It starts as a lone root and grows by [`Tree::insert_path`].
pub struct Tree {
    slots: Vec<Slot>,
    /// For each node, the segments that lead to it from the root.
    labels: Ghost<Seq<Seq<Seq<u8>>>>,
}

impl Tree {
    /// The nodes of the tree, the root first.
    pub closed spec fn view(self) -> Seq<Node> {
        Seq::new(self.slots@.len(), |i: int| self.slots@[i].node)
    }

    /// What the tree remembers of the handler registered at `node`.
    spec fn entry(self, node: NodeId, query: bool) -> Option<Entry> {
        if node < self.slots@.len() {
            if query {
                self.slots@[node as int].query
            } else {
                self.slots@[node as int].command
            }
        } else {
            None
        }
    }

    /// The number of arguments that the handler registered at `node` takes.
    /// A node without such a handler has none.
    pub closed spec fn arity(self, node: NodeId, query: bool) -> Option<usize> {
        match self.entry(node, query) {
            Some(entry) => Some(entry.arity),
            None => None,
        }
    }

    /// The canonical path of the command whose handler is registered at
    /// `node`. It is empty where the node has no such handler.
    pub closed spec fn owner(self, node: NodeId, query: bool) -> Seq<char> {
        match self.entry(node, query) {
            Some(entry) => entry.path@,
            None => Seq::empty(),
        }
    }

    /// The invariant of the tree: there is a root, every child is a node of the
    /// tree, every node is reached from the root by the segments of its
    /// label and by no others, and the arity of every handler is known.
    pub closed spec fn wf(self) -> bool {
        &&& self.slots@.len() >= 1
        &&& forall|x: int| 0 <= x < self.slots@.len() ==> (#[trigger] self.slots@[x]).consistent()
        &&& self.labels@.len() == self.slots@.len()
        &&& self.labels@[0] == Seq::<Seq<u8>>::empty()
        &&& forall|x: int, e: int|
            0 <= x < self.slots@.len() && 0 <= e < self.slots@[x].node.children@.len() ==> {
                let edge = #[trigger] self.slots@[x].node.children@[e];
                &&& edge.1 < self.slots@.len()
                &&& self.labels@[edge.1 as int] == self.labels@[x].push(encode_utf8(edge.0@))
            }
    }

    /// The node that the segment `name` leads to from `node`.
    pub open spec fn child_of(self, node: NodeId, name: Seq<u8>) -> Option<NodeId> {
        if node < self@.len() {
            self@[node as int].child_spec(name)
        } else {
            None
        }
    }

    /// The node that `path` leads to from `start`, one segment after the other.
    pub open spec fn resolve(self, start: NodeId, path: Seq<Seq<u8>>) -> Option<NodeId>
        decreases path.len(),
    {
        if path.len() == 0 {
            Some(start)
        } else {
            match self.child_of(start, path.first()) {
                Some(next) => self.resolve(next, path.drop_first()),
                None => None,
            }
        }
    }

    /// The handler of `node` for a command or for a query.
    pub open spec fn handler(self, node: NodeId, query: bool) -> Option<CommandId> {
        if node < self@.len() {
            self@[node as int].handler(query)
        } else {
            None
        }
    }

    /// What is registered at `node` for a command or for a query.
    pub open spec fn registration(self, node: NodeId, query: bool) -> Option<Registration> {
        match (self.handler(node, query), self.arity(node, query)) {
            (Some(id), Some(arity)) => Some(
                Registration { id, arity, path: self.owner(node, query) },
            ),
            _ => None,
        }
    }

    /// What is registered under `path`, taken from the root.
    pub open spec fn registered(self, path: Seq<Seq<u8>>, query: bool) -> Option<Registration> {
        match self.resolve(0, path) {
            Some(node) => self.registration(node, query),
            None => None,
        }
    }

    /// `self` has the nodes of `before` and those on the way along the
    /// paths `added`, and no others: a path that resolved in `before`
    /// resolves to the same node, and a path resolves exactly if it resolved
    /// in `before` or leads along one of `added`.
    pub open spec fn extends(self, before: Tree, added: Seq<Seq<Seq<u8>>>) -> bool {
        forall|p: Seq<Seq<u8>>|
            #![trigger self.resolve(0, p)]
            {
                &&& before.resolve(0, p) is Some ==> self.resolve(0, p) == before.resolve(0, p)
                &&& self.resolve(0, p) is Some <==> before.resolve(0, p) is Some || leads_along(
                    p,
                    added,
                )
            }
    }

    /// The handler that `path` resolves to from the root.
    pub open spec fn lookup(self, path: Seq<Seq<u8>>, query: bool) -> Option<CommandId> {
        match self.registered(path, query) {
            Some(entry) => Some(entry.id),
            None => None,
        }
    }

    /// Creates a new empty command tree with just a root node.
    pub fn new() -> (r: Tree)
        ensures
            r.wf(),
            r@.len() == 1,
            r@[0].children@.len() == 0,
            r@[0].command is None,
            r@[0].query is None,
    {
        let mut slots: Vec<Slot> = Vec::new();
        slots.push(Slot { node: Node::new(), command: None, query: None });
        let ghost labels = Seq::<Seq<Seq<u8>>>::empty().push(Seq::empty());
        Tree { slots, labels: Ghost(labels) }
    }

    /// The root of the tree.
    pub fn root(&self) -> (r: NodeId)
        ensures
            r == 0,
    {
        0
    }

    /// The number of nodes.
    pub fn len(&self) -> (r: usize)
        ensures
            r == self@.len(),
    {
        self.slots.len()
    }

    /// The node with the given index, if the tree has one.
    pub fn node(&self, id: NodeId) -> (r: Option<&Node>)
        ensures
            id < self@.len() ==> r == Some(&self@[id as int]),
            id >= self@.len() ==> r is None,
    {
        if id < self.slots.len() {
            Some(&self.slots[id].node)
        } else {
            None
        }
    }

    /// Searches the children of `node` for a path component, without regard
    /// to case.
    pub fn child(&self, node: NodeId, name: &str) -> (r: Option<NodeId>)
        ensures
            r == self.child_of(node, encode_utf8(name@)),
    {
        if node < self.slots.len() {
            self.slots[node].node.child(name)
        } else {
            None
        }
    }

    /// The handler of `node` for a command (`query` false) or a query.
    pub fn handler_of(&self, node: NodeId, query: bool) -> (r: Option<CommandId>)
        ensures
            r == self.handler(node, query),
    {
        if node < self.slots.len() {
            if query {
                self.slots[node].node.query
            } else {
                self.slots[node].node.command
            }
        } else {
            None
        }
    }

    /// The number of arguments that the handler of `node` takes.
    pub fn arity_of(&self, node: NodeId, query: bool) -> (r: Option<usize>)
        ensures
            r == self.arity(node, query),
    {
        if node < self.slots.len() {
            let entry = if query {
                &self.slots[node].query
            } else {
                &self.slots[node].command
            };
            match entry {
                Some(e) => Some(e.arity),
                None => None,
            }
        } else {
            None
        }
    }

    /// Registers `handler` under one path: walks the path from the root,
    /// adds the nodes that are missing, and sets the handler at its end.
    ///
    /// Fails, and leaves every registration as it was, when the path already
    /// has a handler of the same kind.
    pub fn insert_path(
        &mut self,
        path: &[String],
        handler: CommandId,
        arity: usize,
        query: bool,
        canonical: &str,
    ) -> (r: Result<(), Error>)
        requires
            old(self).wf(),
        ensures
            final(self).wf(),
            final(self).extends(*old(self), seq![names(path@)]),
            r is Err ==> forall|p: Seq<Seq<u8>>| #[trigger]
                final(self).resolve(0, p) == old(self).resolve(0, p),
            r is Ok <==> old(self).registered(names(path@), query) is None,
            r is Ok ==> forall|p: Seq<Seq<u8>>, k: bool| #[trigger]
                final(self).registered(p, k) == if k == query && same_path(p, names(path@)) {
                    Some(Registration { id: handler, arity, path: canonical@ })
                } else {
                    old(self).registered(p, k)
                },
            r is Err ==> {
                &&& forall|p: Seq<Seq<u8>>, k: bool| #[trigger]
                    final(self).registered(p, k) == old(self).registered(p, k)
                &&& (r->Err_0 is QueryExists) == query
                &&& Some(r->Err_0.path_text()) == match old(self).registered(names(path@), query) {
                    Some(entry) => Some(entry.path),
                    None => None,
                }
            },
    {
        let ghost before = *self;
        let ghost target = names(path@);
        let mut cur: usize = 0;
        let mut i: usize = 0;
        assert(target.take(0) =~= Seq::<Seq<u8>>::empty());
        while i < path.len()
            invariant
                self.wf(),
                i <= path@.len(),
                target == names(path@),
                cur < self.slots@.len(),
                self.resolve(0, target.take(i as int)) == Some(cur),
                forall|p: Seq<Seq<u8>>, k: bool| #[trigger]
                    self.registered(p, k) == before.registered(p, k),
                forall|p: Seq<Seq<u8>>|
                    #![trigger self.resolve(0, p)]
                    {
                        &&& before.resolve(0, p) is Some ==> self.resolve(0, p) == before.resolve(
                            0,
                            p,
                        )
                        &&& self.resolve(0, p) is Some <==> before.resolve(0, p) is Some || (p.len()
                            <= i && leads(p, target))
                    },
            decreases path@.len() - i,
        {
            let ghost name = encode_utf8(path@[i as int]@);
            let ghost walked = target.take(i as int);
            let ghost longer = target.take(i as int + 1);
            assert(longer =~= walked.push(name));
            let found = self.slots[cur].node.child(path[i].as_str());
            match found {
                Some(next) => {
                    proof {
                        self.lemma_child_in_range(cur, name);
                        self.lemma_resolve_push(0, walked, name);
                        assert forall|p: Seq<Seq<u8>>|
                            #![trigger self.resolve(0, p)]
                            p.len() == i + 1 && leads(p, target) implies self.resolve(0, p)
                            is Some by {
                            self.lemma_resolve_ignores_case(0, p, longer);
                        }
                    }
                    cur = next;
                },
                None => {
                    let ghost small = *self;
                    let fresh = self.slots.len();
                    self.slots.push(Slot { node: Node::new(), command: None, query: None });
                    self.slots[cur].node.children.push((path[i].clone(), fresh));
                    proof {
                        self.labels@ = self.labels@.push(small.labels@[cur as int].push(name));
                        small.lemma_grow(*self, cur, name, walked);
                        assert forall|p: Seq<Seq<u8>>|
                            #![trigger self.resolve(0, p)]
                            {
                                &&& before.resolve(0, p) is Some ==> self.resolve(0, p)
                                    == before.resolve(0, p)
                                &&& self.resolve(0, p) is Some <==> before.resolve(0, p) is Some
                                    || (p.len() <= i + 1 && leads(p, target))
                            } by {
                            assert(small.resolve(0, p) is Some <==> before.resolve(0, p) is Some
                                || (p.len() <= i && leads(p, target)));
                            assert(before.resolve(0, p) is Some ==> small.resolve(0, p)
                                == before.resolve(0, p));
                            assert(self.resolve(0, p) is Some <==> small.resolve(0, p) is Some
                                || same_path(p, longer));
                            assert(fold_path(p).len() == p.len());
                            assert(fold_path(longer).len() == longer.len());
                            if p.len() == i + 1 {
                                assert(target.take(p.len() as int) == longer);
                            }
                        }
                        self.lemma_resolve_push(0, walked, name);
                        Self::lemma_find_child_push(
                            small@[cur as int].entries(),
                            (name, fresh),
                            name,
                        );
                        assert(self@[cur as int].entries() =~= small@[cur as int].entries().push(
                            (name, fresh),
                        ));
                    }
                    cur = fresh;
                },
            }
            i += 1;
        }
        assert(target.take(path@.len() as int) =~= target);
        let ghost grown = *self;
        assert(grown.registered(target, query) == before.registered(target, query));
        assert(grown.slots@[cur as int].consistent());
        assert(grown.handler(cur, query) is Some <==> grown.registered(target, query) is Some);
        let taken = if query {
            self.slots[cur].node.query.is_some()
        } else {
            self.slots[cur].node.command.is_some()
        };
        if taken {
            proof {
                assert forall|p: Seq<Seq<u8>>| #[trigger]
                    self.resolve(0, p) == before.resolve(0, p) by {
                    if leads(p, target) {
                        before.lemma_prefix_resolves(0, target, p.len() as int);
                        before.lemma_resolve_ignores_case(0, p, target.take(p.len() as int));
                    }
                }
                assert(self.extends(before, seq![target]));
            }
            let owner = if query {
                &self.slots[cur].query
            } else {
                &self.slots[cur].command
            };
            let path = match owner {
                Some(entry) => entry.path.clone(),
                None => String::new(),
            };
            if query {
                Err(Error::QueryExists { path })
            } else {
                Err(Error::CommandExists { path })
            }
        } else {
            let entry = Entry { arity, path: canonical.to_owned() };
            if query {
                self.slots[cur].node.query = Some(handler);
                self.slots[cur].query = Some(entry);
            } else {
                self.slots[cur].node.command = Some(handler);
                self.slots[cur].command = Some(entry);
            }
            proof {
                grown.lemma_set_handler(*self, cur, query, handler, arity, canonical@, target);
                assert forall|p: Seq<Seq<u8>>|
                    #![trigger self.resolve(0, p)]
                    {
                        &&& before.resolve(0, p) is Some ==> self.resolve(0, p) == before.resolve(
                            0,
                            p,
                        )
                        &&& self.resolve(0, p) is Some <==> before.resolve(0, p) is Some
                            || leads_along(p, seq![target])
                    } by {
                    assert(self.resolve(0, p) == grown.resolve(0, p));
                    assert(grown.resolve(0, p) is Some <==> before.resolve(0, p) is Some || (p.len()
                        <= path@.len() && leads(p, target)));
                    if leads(p, target) {
                        assert(leads(p, seq![target][0]));
                    }
                }
            }
            Ok(())
        }
    }

    /// A child that a lookup finds is a node of the tree.
    proof fn lemma_child_in_range(self, node: NodeId, name: Seq<u8>)
        requires
            self.wf(),
            self.child_of(node, name) is Some,
        ensures
            self.child_of(node, name)->0 < self@.len(),
            self.labels@.len() == self@.len(),
            same_path(
                self.labels@[self.child_of(node, name)->0 as int],
                self.labels@[node as int].push(name),
            ),
    {
        let entries = self@[node as int].entries();
        let e = Self::lemma_find_child_some(entries, name);
        let edge = self.slots@[node as int].node.children@[e];
        assert(edge.1 < self.slots@.len());
        Self::lemma_fold_path_push(self.labels@[node as int], encode_utf8(edge.0@), name);
    }

    /// Paths that differ in their last segment by case only fold alike.
    proof fn lemma_fold_path_push(prefix: Seq<Seq<u8>>, a: Seq<u8>, b: Seq<u8>)
        requires
            same_name(a, b),
        ensures
            same_path(prefix.push(a), prefix.push(b)),
    {
        assert(fold_path(prefix.push(a)) =~= fold_path(prefix.push(b)));
    }

    /// A lookup that succeeds names an entry that matches.
    proof fn lemma_find_child_some(entries: Seq<(Seq<u8>, NodeId)>, name: Seq<u8>) -> (e: int)
        requires
            find_child(entries, name) is Some,
        ensures
            0 <= e < entries.len(),
            same_name(entries[e].0, name),
            find_child(entries, name) == Some(entries[e].1),
        decreases entries.len(),
    {
        if same_name(entries.first().0, name) {
            0
        } else {
            Self::lemma_find_child_some(entries.drop_first(), name) + 1
        }
    }

    /// What a lookup finds after one more entry was added at the end.
    proof fn lemma_find_child_push(
        entries: Seq<(Seq<u8>, NodeId)>,
        added: (Seq<u8>, NodeId),
        name: Seq<u8>,
    )
        ensures
            find_child(entries.push(added), name) == if find_child(entries, name) is Some {
                find_child(entries, name)
            } else if same_name(added.0, name) {
                Some(added.1)
            } else {
                None
            },
        decreases entries.len(),
    {
        let longer = entries.push(added);
        if entries.len() == 0 {
            assert(longer.drop_first() =~= entries);
        } else {
            assert(longer.first() == entries.first());
            assert(longer.drop_first() =~= entries.drop_first().push(added));
            if !same_name(entries.first().0, name) {
                Self::lemma_find_child_push(entries.drop_first(), added, name);
            }
        }
    }

    /// Resolving a path and then one more segment is resolving the longer path.
    pub proof fn lemma_resolve_push(self, start: NodeId, path: Seq<Seq<u8>>, name: Seq<u8>)
        ensures
            self.resolve(start, path.push(name)) == match self.resolve(start, path) {
                Some(node) => self.child_of(node, name),
                None => None,
            },
        decreases path.len(),
    {
        let longer = path.push(name);
        if path.len() == 0 {
            assert(longer.first() == name);
            assert(longer.drop_first() =~= Seq::<Seq<u8>>::empty());
            match self.child_of(start, name) {
                Some(next) => {
                    assert(self.resolve(next, longer.drop_first()) == Some(next));
                },
                None => {},
            }
        } else {
            assert(longer.first() == path.first());
            assert(longer.drop_first() =~= path.drop_first().push(name));
            match self.child_of(start, path.first()) {
                Some(next) => {
                    self.lemma_resolve_push(next, path.drop_first(), name);
                },
                None => {},
            }
        }
    }

    /// Resolution does not depend on the case of the segments.
    pub proof fn lemma_resolve_ignores_case(self, start: NodeId, a: Seq<Seq<u8>>, b: Seq<Seq<u8>>)
        requires
            same_path(a, b),
        ensures
            self.resolve(start, a) == self.resolve(start, b),
        decreases a.len(),
    {
        assert(fold_path(a).len() == fold_path(b).len());
        if a.len() > 0 {
            assert(fold_path(a)[0] == fold_path(b)[0]);
            assert(fold_path(a.drop_first()) =~= fold_path(a).drop_first());
            assert(fold_path(b.drop_first()) =~= fold_path(b).drop_first());
            if start < self@.len() {
                Self::lemma_find_child_ignores_case(
                    self@[start as int].entries(),
                    a.first(),
                    b.first(),
                );
            }
            match self.child_of(start, a.first()) {
                Some(next) => {
                    self.lemma_resolve_ignores_case(next, a.drop_first(), b.drop_first());
                },
                None => {},
            }
        }
    }

    /// A lookup does not depend on the case of the name.
    proof fn lemma_find_child_ignores_case(
        entries: Seq<(Seq<u8>, NodeId)>,
        a: Seq<u8>,
        b: Seq<u8>,
    )
        requires
            same_name(a, b),
        ensures
            find_child(entries, a) == find_child(entries, b),
        decreases entries.len(),
    {
        if entries.len() > 0 {
            Self::lemma_find_child_ignores_case(entries.drop_first(), a, b);
        }
    }

    /// A path that resolves to a node matches the label of that node.
    proof fn lemma_resolve_label(self, start: NodeId, path: Seq<Seq<u8>>)
        requires
            self.wf(),
            start < self@.len(),
            self.resolve(start, path) is Some,
        ensures
            self.resolve(start, path)->0 < self@.len(),
            same_path(
                self.labels@[self.resolve(start, path)->0 as int],
                self.labels@[start as int] + path,
            ),
        decreases path.len(),
    {
        let here = self.labels@[start as int];
        if path.len() == 0 {
            assert(here + path =~= here);
        } else {
            let next = self.child_of(start, path.first())->0;
            self.lemma_child_in_range(start, path.first());
            self.lemma_resolve_label(next, path.drop_first());
            let end = self.resolve(start, path)->0;
            let there = self.labels@[next as int];
            assert(fold_path(there + path.drop_first()) =~= fold_path(there) + fold_path(
                path.drop_first(),
            ));
            assert(fold_path(here.push(path.first()) + path.drop_first()) =~= fold_path(
                here.push(path.first()),
            ) + fold_path(path.drop_first()));
            assert(here.push(path.first()) + path.drop_first() =~= here + path);
        }
    }

    /// Two paths that resolve from the root to the same node match.
    proof fn lemma_same_target(self, a: Seq<Seq<u8>>, b: Seq<Seq<u8>>)
        requires
            self.wf(),
            self.resolve(0, a) is Some,
            self.resolve(0, a) == self.resolve(0, b),
        ensures
            same_path(a, b),
    {
        self.lemma_resolve_label(0, a);
        self.lemma_resolve_label(0, b);
        assert(self.labels@[0] + a =~= a);
        assert(self.labels@[0] + b =~= b);
    }

    /// The tree `grown` is this tree with one new leaf, reached from `parent`
    /// by `name`, which led nowhere before. All that resolved before
    /// resolves to the same node, and nothing new is registered.
    proof fn lemma_grow(self, grown: Tree, parent: NodeId, name: Seq<u8>, walked: Seq<Seq<u8>>)
        requires
            self.wf(),
            parent < self@.len(),
            self.resolve(0, walked) == Some(parent),
            self.child_of(parent, name) is None,
            grown.is_grown(self, parent, name),
        ensures
            grown.wf(),
            forall|p: Seq<Seq<u8>>|
                self.resolve(0, p) is Some ==> #[trigger] grown.resolve(0, p) == self.resolve(0, p),
            forall|p: Seq<Seq<u8>>|
                #![trigger grown.resolve(0, p)]
                grown.resolve(0, p) is Some <==> self.resolve(0, p) is Some || same_path(
                    p,
                    walked.push(name),
                ),
            forall|p: Seq<Seq<u8>>, k: bool| #[trigger]
                grown.registered(p, k) == self.registered(p, k),
    {
        let fresh = self@.len() as usize;
        assert(grown.wf()) by {
            assert forall|x: int, e: int|
                0 <= x < grown.slots@.len() && 0 <= e < grown.slots@[x].node.children@.len() implies {
                let edge = #[trigger] grown.slots@[x].node.children@[e];
                &&& edge.1 < grown.slots@.len()
                &&& grown.labels@[edge.1 as int] == grown.labels@[x].push(encode_utf8(edge.0@))
            } by {
                if x == parent && e == self.slots@[x].node.children@.len() {
                } else {
                    let edge = self.slots@[x].node.children@[e];
                    assert(edge.1 < self.slots@.len());
                }
            }
        }
        assert forall|p: Seq<Seq<u8>>|
            self.resolve(0, p) is Some implies #[trigger] grown.resolve(0, p) == self.resolve(
            0,
            p,
        ) by {
            self.lemma_grow_resolve(grown, parent, name, 0, p);
        }
        assert forall|p: Seq<Seq<u8>>, k: bool| #[trigger]
            grown.registered(p, k) == self.registered(p, k) by {
            self.lemma_grow_resolve(grown, parent, name, 0, p);
            if self.resolve(0, p) is Some {
                self.lemma_resolve_label(0, p);
            }
        }
        let way = walked.push(name);
        self.lemma_grow_resolve(grown, parent, name, 0, walked);
        grown.lemma_resolve_push(0, walked, name);
        assert(grown@[parent as int].entries() =~= self@[parent as int].entries().push(
            (name, fresh),
        ));
        Self::lemma_find_child_push(self@[parent as int].entries(), (name, fresh), name);
        assert(grown.resolve(0, way) == Some(fresh));
        assert forall|p: Seq<Seq<u8>>|
            #![trigger grown.resolve(0, p)]
            grown.resolve(0, p) is Some <==> self.resolve(0, p) is Some || same_path(
                p,
                way,
            ) by {
            self.lemma_grow_resolve(grown, parent, name, 0, p);
            if same_path(p, way) {
                grown.lemma_resolve_ignores_case(0, p, way);
            }
            if self.resolve(0, p) is None && grown.resolve(0, p) is Some {
                grown.lemma_same_target(p, way);
            }
        }
    }

    /// A path that resolves resolves up to each of its segments.
    pub proof fn lemma_prefix_resolves(self, start: NodeId, path: Seq<Seq<u8>>, k: int)
        requires
            0 <= k <= path.len(),
            self.resolve(start, path) is Some,
        ensures
            self.resolve(start, path.take(k)) is Some,
        decreases k,
    {
        if k > 0 {
            let next = self.child_of(start, path.first())->0;
            assert(path.take(k).first() == path.first());
            assert(path.take(k).drop_first() =~= path.drop_first().take(k - 1));
            self.lemma_prefix_resolves(next, path.drop_first(), k - 1);
        }
    }

    /// A tree that extends a tree by some paths, extended by one more path,
    /// extends the first tree by all of them.
    proof fn lemma_extends_more(
        self,
        middle: Tree,
        before: Tree,
        added: Seq<Seq<Seq<u8>>>,
        path: Seq<Seq<u8>>,
    )
        requires
            middle.extends(before, added),
            self.extends(middle, seq![path]),
        ensures
            self.extends(before, added.push(path)),
    {
        let all = added.push(path);
        assert forall|p: Seq<Seq<u8>>|
            #![trigger self.resolve(0, p)]
            {
                &&& before.resolve(0, p) is Some ==> self.resolve(0, p) == before.resolve(0, p)
                &&& self.resolve(0, p) is Some <==> before.resolve(0, p) is Some || leads_along(
                    p,
                    all,
                )
            } by {
            assert(middle.resolve(0, p) is Some <==> before.resolve(0, p) is Some || leads_along(
                p,
                added,
            ));
            assert(before.resolve(0, p) is Some ==> middle.resolve(0, p) == before.resolve(0, p));
            if leads_along(p, added) {
                let i = choose|i: int| 0 <= i < added.len() && leads(p, #[trigger] added[i]);
                assert(leads(p, all[i]));
            }
            if leads_along(p, seq![path]) {
                assert(leads(p, all[added.len() as int]));
            }
            if leads_along(p, all) {
                let i = choose|i: int| 0 <= i < all.len() && leads(p, #[trigger] all[i]);
                if i < added.len() {
                    assert(leads(p, added[i]));
                } else {
                    assert(leads(p, seq![path][0]));
                }
            }
        }
    }

    /// `self` is `small` with one new leaf below `parent`, under `name`.
    spec fn is_grown(self, small: Tree, parent: NodeId, name: Seq<u8>) -> bool {
        let fresh = small.slots@.len() as int;
        &&& self.slots@.len() == fresh + 1
        &&& self.slots@[fresh].node.children@.len() == 0
        &&& self.slots@[fresh].node.command is None
        &&& self.slots@[fresh].node.query is None
        &&& forall|x: int| 0 <= x < fresh && x != parent ==> self.slots@[x] == small.slots@[x]
        &&& self.slots@[fresh].command is None
        &&& self.slots@[fresh].query is None
        &&& self.slots@[parent as int].command == small.slots@[parent as int].command
        &&& self.slots@[parent as int].query == small.slots@[parent as int].query
        &&& self.slots@[parent as int].node.command == small.slots@[parent as int].node.command
        &&& self.slots@[parent as int].node.query == small.slots@[parent as int].node.query
        &&& self.slots@[parent as int].node.children@.len() == small.slots@[parent as int].node.children@.len() + 1
        &&& forall|e: int|
            0 <= e < small.slots@[parent as int].node.children@.len()
                ==> self.slots@[parent as int].node.children@[e]
                == small.slots@[parent as int].node.children@[e]
        &&& self.slots@[parent as int].node.children@.last().1 == fresh
        &&& encode_utf8(self.slots@[parent as int].node.children@.last().0@) == name
        &&& self.labels@ == small.labels@.push(small.labels@[parent as int].push(name))
    }

    /// In a grown tree a path from an old node resolves as before, or, where
    /// it led nowhere before, leads nowhere or to the new leaf.
    proof fn lemma_grow_resolve(
        self,
        grown: Tree,
        parent: NodeId,
        name: Seq<u8>,
        start: NodeId,
        path: Seq<Seq<u8>>,
    )
        requires
            self.wf(),
            parent < self@.len(),
            start < self@.len(),
            self.child_of(parent, name) is None,
            grown.is_grown(self, parent, name),
        ensures
            self.resolve(start, path) is Some ==> grown.resolve(start, path) == self.resolve(
                start,
                path,
            ),
            self.resolve(start, path) is None ==> grown.resolve(start, path) is None
                || grown.resolve(start, path) == Some(self@.len() as usize),
        decreases path.len(),
    {
        let fresh = self@.len() as usize;
        if path.len() > 0 {
            let first = path.first();
            let old_entries = self@[start as int].entries();
            let new_entries = grown@[start as int].entries();
            if start == parent {
                assert(new_entries =~= old_entries.push((name, fresh)));
                Self::lemma_find_child_push(old_entries, (name, fresh), first);
            } else {
                assert(new_entries =~= old_entries);
            }
            match self.child_of(start, first) {
                Some(next) => {
                    self.lemma_child_in_range(start, first);
                    self.lemma_grow_resolve(grown, parent, name, next, path.drop_first());
                },
                None => {
                    if grown.child_of(start, first) is Some {
                        let rest = path.drop_first();
                        assert(grown.child_of(start, first) == Some(fresh));
                        assert(grown@[fresh as int].entries() =~= Seq::<(Seq<u8>, NodeId)>::empty());
                        if rest.len() > 0 {
                            assert(grown.child_of(fresh, rest.first()) is None);
                            assert(grown.resolve(fresh, rest) is None);
                        } else {
                            assert(grown.resolve(fresh, rest) == Some(fresh));
                        }
                    } else {
                        assert(grown.resolve(start, path) is None);
                    }
                },
            }
        }
    }

    /// `self` with a handler set at `node` is `set`: the paths to `node` are
    /// now registered, and all other registrations are as before.
    proof fn lemma_set_handler(
        self,
        set: Tree,
        node: NodeId,
        query: bool,
        handler: CommandId,
        arity: usize,
        canonical: Seq<char>,
        target: Seq<Seq<u8>>,
    )
        requires
            self.wf(),
            node < self@.len(),
            self.resolve(0, target) == Some(node),
            self.handler(node, query) is None,
            set.slots@.len() == self.slots@.len(),
            set.labels@ == self.labels@,
            forall|x: int| 0 <= x < self.slots@.len() && x != node ==> set.slots@[x] == self.slots@[x],
            set.slots@[node as int].node.children == self.slots@[node as int].node.children,
            set.handler(node, query) == Some(handler),
            set.entry(node, query) is Some,
            set.arity(node, query) == Some(arity),
            set.owner(node, query) == canonical,
            set.handler(node, !query) == self.handler(node, !query),
            set.entry(node, !query) == self.entry(node, !query),
        ensures
            set.wf(),
            forall|p: Seq<Seq<u8>>| #[trigger] set.resolve(0, p) == self.resolve(0, p),
            forall|p: Seq<Seq<u8>>, k: bool| #[trigger]
                set.registered(p, k) == if k == query && same_path(p, target) {
                    Some(Registration { id: handler, arity, path: canonical })
                } else {
                    self.registered(p, k)
                },
    {
        assert forall|p: Seq<Seq<u8>>| #[trigger] set.resolve(0, p) == self.resolve(0, p) by {
            self.lemma_same_children_resolve(set, 0, p);
        }
        assert(set.wf()) by {
            assert forall|x: int, e: int|
                0 <= x < set.slots@.len() && 0 <= e < set.slots@[x].node.children@.len() implies {
                let edge = #[trigger] set.slots@[x].node.children@[e];
                &&& edge.1 < set.slots@.len()
                &&& set.labels@[edge.1 as int] == set.labels@[x].push(encode_utf8(edge.0@))
            } by {
                let edge = self.slots@[x].node.children@[e];
                assert(edge.1 < self.slots@.len());
            }
        }
        assert forall|p: Seq<Seq<u8>>, k: bool| #[trigger]
            set.registered(p, k) == if k == query && same_path(p, target) {
                Some(Registration { id: handler, arity, path: canonical })
            } else {
                self.registered(p, k)
            } by {
            self.lemma_same_children_resolve(set, 0, p);
            if same_path(p, target) {
                self.lemma_resolve_ignores_case(0, p, target);
            } else if self.resolve(0, p) == Some(node) {
                self.lemma_same_target(p, target);
            }
            if self.resolve(0, p) is Some {
                self.lemma_resolve_label(0, p);
            }
        }
    }

    /// Two trees whose nodes have the same children resolve every path alike.
    proof fn lemma_same_children_resolve(self, other: Tree, start: NodeId, path: Seq<Seq<u8>>)
        requires
            self.slots@.len() == other.slots@.len(),
            forall|x: int|
                0 <= x < self.slots@.len() ==> #[trigger] self.slots@[x].node.children
                    == other.slots@[x].node.children,
        ensures
            self.resolve(start, path) == other.resolve(start, path),
        decreases path.len(),
    {
        if path.len() > 0 {
            if start < self@.len() {
                assert(self.slots@[start as int].node.children == other.slots@[start as int].node.children);
                assert(self@[start as int].entries() =~= other@[start as int].entries());
            }
            match self.child_of(start, path.first()) {
                Some(next) => {
                    self.lemma_same_children_resolve(other, next, path.drop_first());
                },
                None => {},
            }
        }
    }
}


/// The bytes of each segment of a path that is given as texts.
pub open spec fn path_bytes(path: Seq<Seq<char>>) -> Seq<Seq<u8>> {
    Seq::new(path.len(), |i: int| encode_utf8(path[i]))
}

/// The bytes of each path.
pub open spec fn paths_bytes(paths: Seq<Seq<Seq<char>>>) -> Seq<Seq<Seq<u8>>> {
    Seq::new(paths.len(), |i: int| path_bytes(paths[i]))
}

impl Tree {
    /// The path with index `j` cannot be registered after those before it:
    /// it has a handler of that kind already, or it matches one of them.
    pub open spec fn clashes(self, paths: Seq<Seq<Seq<u8>>>, query: bool, j: int) -> bool {
        ||| self.registered(paths[j], query) is Some
        ||| exists|i: int| 0 <= i < j && same_path(#[trigger] paths[i], paths[j])
    }

    /// The index of the first path from `from` on that clashes, or the
    /// number of paths where none does.
    pub open spec fn first_clash(self, paths: Seq<Seq<Seq<u8>>>, query: bool, from: int) -> int
        decreases paths.len() - from,
    {
        if from >= paths.len() {
            paths.len() as int
        } else if self.clashes(paths, query, from) {
            from
        } else {
            self.first_clash(paths, query, from + 1)
        }
    }

    /// `self` is `before` with `command` inserted for the handler `id`: the
    /// paths of the command, up to the first that clashes, are registered
    /// for the handler, and every other registration is as before.
    pub open spec fn inserted(
        self,
        before: Tree,
        command: CommandSpec,
        id: CommandId,
        arity: usize,
    ) -> bool {
        let paths = paths_bytes(paths_of(command.parts));
        let stop = before.first_clash(paths, command.query, 0);
        forall|p: Seq<Seq<u8>>, k: bool| #[trigger]
            self.registered(p, k) == if k == command.query && exists|i: int|
                0 <= i < stop && same_path(p, #[trigger] paths[i]) {
                Some(Registration { id, arity, path: canonical_of(command) })
            } else {
                before.registered(p, k)
            }
    }

    /// Inserts a command into the tree, under every path that
    /// [`Command::paths`] gives for it, in that order.
    ///
    /// Fails at the first path that already has a handler of the same kind.
    /// The paths before that one stay registered.
    pub fn insert(&mut self, command: &Command, id: CommandId, arity: usize) -> (r: Result<
        (),
        Error,
    >)
        requires
            old(self).wf(),
        ensures
            final(self).wf(),
            final(self).inserted(*old(self), command@, id, arity),
            final(self).extends(
                *old(self),
                paths_bytes(paths_of(command@.parts)).take(
                    old(self).first_clash(
                        paths_bytes(paths_of(command@.parts)),
                        command@.query,
                        0,
                    ),
                ),
            ),
            r is Ok <==> old(self).first_clash(
                paths_bytes(paths_of(command@.parts)),
                command@.query,
                0,
            ) == paths_of(command@.parts).len(),
            r is Err ==> {
                let paths = paths_bytes(paths_of(command@.parts));
                let stop = old(self).first_clash(paths, command@.query, 0);
                &&& (r->Err_0 is QueryExists) == command@.query
                &&& final(self).registered(paths[stop], command@.query) is Some
                &&& r->Err_0.path_text() == final(self).registered(
                    paths[stop],
                    command@.query,
                )->0.path
            },
    {
        let ghost before = *self;
        let ghost paths = paths_bytes(paths_of(command@.parts));
        let ghost entry = Registration { id, arity, path: canonical_of(command@) };
        let query = command.is_query();
        let canonical = command.canonical_path();
        let all = command.paths();
        let mut j: usize = 0;
        assert(self.extends(before, paths.take(0))) by {
            assert(paths.take(0) =~= Seq::<Seq<Seq<u8>>>::empty());
        }
        while j < all.len()
            invariant
                self.wf(),
                j <= all@.len(),
                before == *old(self),
                self.extends(before, paths.take(j as int)),
                query == command@.query,
                canonical@ == canonical_of(command@),
                path_views(all@) == paths_of(command@.parts),
                paths == paths_bytes(paths_of(command@.parts)),
                entry == (Registration { id, arity, path: canonical_of(command@) }),
                before.first_clash(paths, query, 0) == before.first_clash(paths, query, j as int),
                forall|p: Seq<Seq<u8>>, k: bool| #[trigger]
                    self.registered(p, k) == if k == query && exists|i: int|
                        0 <= i < j && same_path(p, #[trigger] paths[i]) {
                        Some(entry)
                    } else {
                        before.registered(p, k)
                    },
            decreases all@.len() - j,
        {
            let ghost here = *self;
            let ghost target = names(all@[j as int]@);
            assert(target =~= paths[j as int]) by {
                assert(path_views(all@)[j as int] == segment_views(all@[j as int]@));
            }
            assert(here.registered(target, query) is Some <==> before.clashes(
                paths,
                query,
                j as int,
            )) by {
                if exists|i: int| 0 <= i < j && same_path(target, #[trigger] paths[i]) {
                    let i = choose|i: int| 0 <= i < j && same_path(target, #[trigger] paths[i]);
                    assert(same_path(paths[i], paths[j as int]));
                }
                if before.clashes(paths, query, j as int) && before.registered(target, query)
                    is None {
                    let i = choose|i: int|
                        0 <= i < j && same_path(#[trigger] paths[i], paths[j as int]);
                    assert(same_path(target, paths[i]));
                }
            }
            match self.insert_path(all[j].as_slice(), id, arity, query, canonical.as_str()) {
                Ok(()) => {
                    proof {
                        self.lemma_extends_more(here, before, paths.take(j as int), target);
                        assert(paths.take(j as int + 1) =~= paths.take(j as int).push(target));
                    }
                    assert forall|p: Seq<Seq<u8>>, k: bool| #[trigger]
                        self.registered(p, k) == if k == query && exists|i: int|
                            0 <= i < j + 1 && same_path(p, #[trigger] paths[i]) {
                            Some(entry)
                        } else {
                            before.registered(p, k)
                        } by {
                        assert(here.registered(p, k) == if k == query && exists|i: int|
                            0 <= i < j && same_path(p, #[trigger] paths[i]) {
                            Some(entry)
                        } else {
                            before.registered(p, k)
                        });
                        if k == query && same_path(p, target) {
                            assert(same_path(p, paths[j as int]));
                        }
                        if k == query && exists|i: int|
                            0 <= i < j + 1 && same_path(p, #[trigger] paths[i]) {
                            let i = choose|i: int|
                                0 <= i < j + 1 && same_path(p, #[trigger] paths[i]);
                            if i < j {
                                assert(same_path(p, paths[i]));
                            }
                        }
                    }
                },
                Err(e) => {
                    proof {
                        before.lemma_first_clash_here(paths, query, j as int);
                        assert forall|p: Seq<Seq<u8>>, k: bool| #[trigger]
                            self.registered(p, k) == if k == query && exists|i: int|
                                0 <= i < j && same_path(p, #[trigger] paths[i]) {
                                Some(entry)
                            } else {
                                before.registered(p, k)
                            } by {
                            assert(self.registered(p, k) == here.registered(p, k));
                        }
                        assert(self.registered(target, query) == here.registered(target, query));
                        assert(self.extends(before, paths.take(j as int))) by {
                            assert forall|p: Seq<Seq<u8>>| #[trigger]
                                self.resolve(0, p) == here.resolve(0, p) by {}
                        }
                    }
                    return Err(e);
                },
            }
            j += 1;
        }
        proof {
            before.lemma_no_clash(paths, query, 0);
        }
        Ok(())
    }

    /// Where no path from `from` on clashes, the first clash is the number
    /// of paths.
    proof fn lemma_no_clash(self, paths: Seq<Seq<Seq<u8>>>, query: bool, from: int)
        requires
            0 <= from <= paths.len(),
            self.first_clash(paths, query, from) == self.first_clash(
                paths,
                query,
                paths.len() as int,
            ),
        ensures
            self.first_clash(paths, query, from) == paths.len(),
    {
    }

    /// A new tree has nothing registered, and resolves the empty path only.
    pub proof fn lemma_new_is_empty(self, path: Seq<Seq<u8>>, query: bool)
        requires
            self@.len() == 1,
            self@[0].children@.len() == 0,
            self@[0].command is None,
            self@[0].query is None,
        ensures
            self.registered(path, query) is None,
            self.resolve(0, path) is Some <==> path.len() == 0,
    {
        if path.len() > 0 {
            assert(self@[0].entries() =~= Seq::<(Seq<u8>, NodeId)>::empty());
        }
    }

    /// Where the path with index `j` clashes and none before it does, it is
    /// the first that clashes.
    proof fn lemma_first_clash_here(self, paths: Seq<Seq<Seq<u8>>>, query: bool, j: int)
        requires
            0 <= j < paths.len(),
            self.clashes(paths, query, j),
        ensures
            self.first_clash(paths, query, j) == j,
    {
    }

    /// No path before the first that clashes does clash.
    pub proof fn lemma_before_first_clash(
        self,
        paths: Seq<Seq<Seq<u8>>>,
        query: bool,
        from: int,
        j: int,
    )
        requires
            0 <= from <= j < self.first_clash(paths, query, from),
        ensures
            j < paths.len(),
            !self.clashes(paths, query, j),
        decreases paths.len() - from,
    {
        if from < paths.len() && !self.clashes(paths, query, from) && from < j {
            self.lemma_before_first_clash(paths, query, from + 1, j);
        }
    }

    /// What is registered under a path does not depend on the case in which
    /// the path is written.
    pub proof fn lemma_registered_ignores_case(self, a: Seq<Seq<u8>>, b: Seq<Seq<u8>>, query: bool)
        requires
            same_path(a, b),
        ensures
            self.registered(a, query) == self.registered(b, query),
            self.lookup(a, query) == self.lookup(b, query),
    {
        self.lemma_resolve_ignores_case(0, a, b);
    }

    /// Once a command is inserted without a clash, each of its spellings
    /// (the long and the short form of every part, an optional part given
    /// or not) resolves to the handler that its long path resolves to, the
    /// one it was registered with.
    pub proof fn lemma_spellings_resolve_alike(
        self,
        before: Tree,
        command: CommandSpec,
        id: CommandId,
        arity: usize,
        spelling: Seq<Seq<char>>,
    )
        requires
            self.inserted(before, command, id, arity),
            before.first_clash(paths_bytes(paths_of(command.parts)), command.query, 0) == paths_of(
                command.parts,
            ).len(),
            spells(command.parts, spelling),
        ensures
            self.lookup(path_bytes(spelling), command.query) == Some(id),
            self.lookup(path_bytes(long_path(command.parts)), command.query) == Some(id),
            self.lookup(path_bytes(spelling), command.query) == self.lookup(
                path_bytes(long_path(command.parts)),
                command.query,
            ),
    {
        let all = paths_of(command.parts);
        let paths = paths_bytes(all);
        lemma_paths_are_spellings(command.parts, spelling);
        lemma_first_path_is_long(command.parts);
        let i = choose|i: int| 0 <= i < all.len() && all[i] == spelling;
        assert(same_path(path_bytes(spelling), paths[i]));
        assert(same_path(path_bytes(long_path(command.parts)), paths[0]));
        assert(self.registered(path_bytes(spelling), command.query) is Some);
        assert(self.registered(path_bytes(long_path(command.parts)), command.query) is Some);
    }

    /// Inserting a command, whether it succeeds or fails, changes nothing
    /// that was registered before.
    pub proof fn lemma_insert_keeps_registered(
        self,
        before: Tree,
        command: CommandSpec,
        id: CommandId,
        arity: usize,
        path: Seq<Seq<u8>>,
        query: bool,
    )
        requires
            self.inserted(before, command, id, arity),
            before.registered(path, query) is Some,
        ensures
            self.registered(path, query) == before.registered(path, query),
    {
        let paths = paths_bytes(paths_of(command.parts));
        let stop = before.first_clash(paths, command.query, 0);
        assert(self.registered(path, query) == if query == command.query && exists|i: int|
            0 <= i < stop && same_path(path, #[trigger] paths[i]) {
            Some(Registration { id, arity, path: canonical_of(command) })
        } else {
            before.registered(path, query)
        });
        if query == command.query && exists|i: int|
            0 <= i < stop && same_path(path, #[trigger] paths[i]) {
            let i = choose|i: int| 0 <= i < stop && same_path(path, #[trigger] paths[i]);
            before.lemma_registered_ignores_case(path, paths[i], query);
            before.lemma_before_first_clash(paths, query, 0, i);
        }
    }
}

} // verus!
