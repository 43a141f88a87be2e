//! The table of commands from which the command tree is built: each
//! command in its notation, with the number of arguments that its handler
//! takes. The handler of a command is identified by the place of the
//! command in the table.

use vstd::prelude::*;
use vstd::utf8::encode_utf8;
use crate::command::{
    canonical_of, lemma_paths_are_spellings, paths_of, spells, Command, CommandSpec,
};
use crate::parser::{
    call_text, command_header_spec, ends_header, header_text, is_header, is_mnemonic,
    lemma_call_is_parsed, lemma_header_resolves, parse_spec,
};
use crate::tree::{
    leads, leads_along, path_bytes, paths_bytes, same_path, CommandId, Error, Registration, Tree,
};

verus! {

/// A command with what is known of its handler.
#[derive(Debug, Clone)]
pub struct CommandDefinition {
    /// The identifier of the handler: the place of the command in its set.
    pub id: CommandId,
    /// The command in its notation.
    pub command: Command,
    /// The number of arguments that the handler takes.
    pub arity: usize,
}

/// The model of a [`CommandDefinition`].
pub struct DefinitionSpec {
    pub id: CommandId,
    pub command: CommandSpec,
    pub arity: usize,
}

impl View for CommandDefinition {
    type V = DefinitionSpec;

    open spec fn view(&self) -> DefinitionSpec {
        DefinitionSpec { id: self.id, command: self.command@, arity: self.arity }
    }
}

/// The commands of an interface, in the order in which they were added.
pub struct CommandSet {
    commands: Vec<CommandDefinition>,
}

/// The paths of a command of the table, in bytes.
pub open spec fn paths_at(defs: Seq<DefinitionSpec>, m: int) -> Seq<Seq<Seq<u8>>> {
    paths_bytes(paths_of(defs[m].command.parts))
}

/// What is registered for the command with index `m`.
pub open spec fn registration_at(defs: Seq<DefinitionSpec>, m: int) -> Registration {
    Registration {
        id: m as usize,
        arity: defs[m].arity,
        path: canonical_of(defs[m].command),
    }
}

/// What the first `n` commands of the table register under `path`, where
/// each command is entered path by path, up to the first path that clashes.
pub open spec fn table(defs: Seq<DefinitionSpec>, n: int, path: Seq<Seq<u8>>, query: bool) -> Option<
    Registration,
>
    decreases n, 0int,
{
    if n <= 0 {
        None
    } else {
        let paths = paths_at(defs, n - 1);
        let stop = first_clash_in(defs, n - 1, paths, defs[n - 1].command.query, 0);
        if query == defs[n - 1].command.query && exists|i: int|
            0 <= i < stop && same_path(path, #[trigger] paths[i]) {
            Some(registration_at(defs, n - 1))
        } else {
            table(defs, n - 1, path, query)
        }
    }
}

/// The index of the first of `paths`, from `from` on, that clashes with
/// what the first `n` commands register or with a path before it, or the
/// number of paths where none does.
pub open spec fn first_clash_in(
    defs: Seq<DefinitionSpec>,
    n: int,
    paths: Seq<Seq<Seq<u8>>>,
    query: bool,
    from: int,
) -> int
    decreases n, 1 + paths.len() - from,
{
    if from >= paths.len() || from < 0 {
        paths.len() as int
    } else if table(defs, n, paths[from], query) is Some || exists|i: int|
        0 <= i < from && same_path(#[trigger] paths[i], paths[from]) {
        from
    } else {
        first_clash_in(defs, n, paths, query, from + 1)
    }
}

/// The command with index `m` can be entered behind the commands before
/// it: none of its paths clashes.
pub open spec fn enters(defs: Seq<DefinitionSpec>, m: int) -> bool {
    first_clash_in(defs, m, paths_at(defs, m), defs[m].command.query, 0) == paths_at(defs, m).len()
}

/// Each of the first `n` commands can be entered behind those before it.
pub open spec fn clash_free(defs: Seq<DefinitionSpec>, n: int) -> bool {
    forall|m: int| 0 <= m < n ==> #[trigger] enters(defs, m)
}

/// The path `p` leads along a path of one of the first `n` commands.
pub open spec fn reached(defs: Seq<DefinitionSpec>, n: int, p: Seq<Seq<u8>>) -> bool {
    exists|m: int| 0 <= m < n && leads_along(p, #[trigger] paths_at(defs, m))
}

/// The index of the first command, from `from` on, that cannot be entered,
/// or the number of commands where all can.
pub open spec fn first_refused(defs: Seq<DefinitionSpec>, from: int) -> int
    decreases defs.len() - from,
{
    if from < 0 || from >= defs.len() {
        defs.len() as int
    } else if !enters(defs, from) {
        from
    } else {
        first_refused(defs, from + 1)
    }
}

/// The failure of a table with a command that cannot be entered: it tells
/// whether that command is a query, and gives the canonical path of the
/// command that holds the node of the path that clashes.
pub open spec fn refused(defs: Seq<DefinitionSpec>, e: Error) -> bool {
    let m = first_refused(defs, 0);
    let paths = paths_at(defs, m);
    let query = defs[m].command.query;
    let stop = first_clash_in(defs, m, paths, query, 0);
    &&& 0 <= m < defs.len()
    &&& 0 <= stop < paths.len()
    &&& (e is QueryExists) == query
    &&& table(defs, m + 1, paths[stop], query) is Some
    &&& e.path_text() == table(defs, m + 1, paths[stop], query)->0.path
}

impl CommandSet {
    /// The commands of the set.
    pub closed spec fn view(&self) -> Seq<DefinitionSpec> {
        Seq::new(self.commands@.len(), |i: int| self.commands@[i]@)
    }

    /// Each command holds its place in the set as the identifier of its
    /// handler. A new set has it so, and `push` keeps it so.
    pub open spec fn numbered(&self) -> bool {
        forall|i: int| 0 <= i < self@.len() ==> (#[trigger] self@[i]).id == i
    }

    /// An empty set.
    pub fn new() -> (r: CommandSet)
        ensures
            r@.len() == 0,
            r.numbered(),
    {
        CommandSet { commands: Vec::new() }
    }

    /// The number of commands.
    pub fn len(&self) -> (r: usize)
        ensures
            r == self@.len(),
    {
        self.commands.len()
    }

    /// Adds a command, and returns the identifier of its handler: the index of
    /// the command in the set.
    pub fn push(&mut self, command: Command, arity: usize) -> (id: CommandId)
        ensures
            id == old(self)@.len(),
            final(self)@ == old(self)@.push(DefinitionSpec { id, command: command@, arity }),
            old(self).numbered() ==> final(self).numbered(),
    {
        let id = self.commands.len();
        self.commands.push(CommandDefinition { id, command, arity });
        assert(self@ =~= old(self)@.push(DefinitionSpec { id, command: command@, arity }));
        id
    }

    /// The command with the given identifier.
    pub fn get(&self, id: CommandId) -> (r: Option<&CommandDefinition>)
        ensures
            match r {
                Some(definition) => id < self@.len() && definition@ == self@[id as int] && (
                self.numbered() ==> definition.id == id),
                None => id >= self@.len(),
            },
    {
        if id < self.commands.len() {
            Some(&self.commands[id])
        } else {
            None
        }
    }

    /// Builds the command tree: enters the commands one after the other,
    /// each under all its paths.
    ///
    /// Fails at the first command of which a path clashes: one that
    /// resolves to a node that holds a handler of the same kind already.
    ///
    /// The tree holds the nodes on the way along the paths of the commands,
    /// and no others: a path resolves from the root exactly if it is empty
    /// or leads along a path of a command.
    pub fn build_tree(&self) -> (r: Result<Tree, Error>)
        ensures
            r is Ok <==> clash_free(self@, self@.len() as int),
            r is Ok ==> r->Ok_0.wf() && forall|path: Seq<Seq<u8>>, query: bool| #[trigger]
                r->Ok_0.registered(path, query) == table(self@, self@.len() as int, path, query),
            r is Ok ==> forall|path: Seq<Seq<u8>>|
                #![trigger r->Ok_0.resolve(0, path)]
                r->Ok_0.resolve(0, path) is Some <==> path.len() == 0 || reached(
                    self@,
                    self@.len() as int,
                    path,
                ),
            r is Err ==> refused(self@, r->Err_0),
    {
        let mut tree = Tree::new();
        let mut n: usize = 0;
        assert forall|path: Seq<Seq<u8>>, query: bool| #[trigger]
            tree.registered(path, query) == table(self@, 0, path, query) by {
            tree.lemma_new_is_empty(path, query);
        }
        assert forall|path: Seq<Seq<u8>>|
            #![trigger tree.resolve(0, path)]
            tree.resolve(0, path) is Some <==> path.len() == 0 || reached(self@, 0, path) by {
            tree.lemma_new_is_empty(path, false);
        }
        while n < self.commands.len()
            invariant
                n <= self.commands@.len(),
                tree.wf(),
                clash_free(self@, n as int),
                forall|path: Seq<Seq<u8>>, query: bool| #[trigger]
                    tree.registered(path, query) == table(self@, n as int, path, query),
                forall|path: Seq<Seq<u8>>|
                    #![trigger tree.resolve(0, path)]
                    tree.resolve(0, path) is Some <==> path.len() == 0 || reached(
                        self@,
                        n as int,
                        path,
                    ),
            decreases self.commands@.len() - n,
        {
            let ghost before = tree;
            let definition = &self.commands[n];
            let ghost paths = paths_at(self@, n as int);
            let ghost query = self@[n as int].command.query;
            proof {
                lemma_same_clash(before, self@, n as int, paths, query, 0);
            }
            match tree.insert(&definition.command, n, definition.arity) {
                Ok(_) => {
                    assert(enters(self@, n as int));
                    assert(paths.take(paths.len() as int) =~= paths);
                    assert forall|path: Seq<Seq<u8>>|
                        #![trigger tree.resolve(0, path)]
                        tree.resolve(0, path) is Some <==> path.len() == 0 || reached(
                            self@,
                            n as int + 1,
                            path,
                        ) by {
                        assert(before.resolve(0, path) is Some <==> path.len() == 0 || reached(
                            self@,
                            n as int,
                            path,
                        ));
                        assert(tree.resolve(0, path) is Some <==> before.resolve(0, path) is Some
                            || leads_along(path, paths));
                        if reached(self@, n as int, path) {
                            let m = choose|m: int|
                                0 <= m < n && leads_along(path, #[trigger] paths_at(self@, m));
                            assert(leads_along(path, paths_at(self@, m)));
                        }
                        if leads_along(path, paths) {
                            assert(leads_along(path, paths_at(self@, n as int)));
                        }
                        if reached(self@, n as int + 1, path) {
                            let m = choose|m: int|
                                0 <= m < n + 1 && leads_along(path, #[trigger] paths_at(self@, m));
                            if m < n {
                                assert(leads_along(path, paths_at(self@, m)));
                            }
                        }
                    }
                    assert forall|path: Seq<Seq<u8>>, kind: bool| #[trigger]
                        tree.registered(path, kind) == table(
                            self@,
                            n as int + 1,
                            path,
                            kind,
                        ) by {
                        assert(before.registered(path, kind) == table(self@, n as int, path, kind));
                    }
                },
                Err(e) => {
                    assert(!enters(self@, n as int));
                    proof {
                        lemma_first_refused(self@, 0, n as int);
                        let stop = first_clash_in(self@, n as int, paths, query, 0);
                        lemma_clash_in_range(self@, n as int, paths, query, 0);
                        assert(tree.registered(paths[stop], query) == table(
                            self@,
                            n as int + 1,
                            paths[stop],
                            query,
                        )) by {
                            assert(before.registered(paths[stop], query) == table(
                                self@,
                                n as int,
                                paths[stop],
                                query,
                            ));
                        }
                    }
                    return Err(e);
                },
            }
            n += 1;
        }
        Ok(tree)
    }
}

/// Where the commands before the one with index `n` can be entered and
/// that one cannot, it is the first that is refused.
proof fn lemma_first_refused(defs: Seq<DefinitionSpec>, from: int, n: int)
    requires
        0 <= from <= n < defs.len(),
        forall|m: int| from <= m < n ==> #[trigger] enters(defs, m),
        !enters(defs, n),
    ensures
        first_refused(defs, from) == n,
    decreases n - from,
{
    if from < n {
        assert(enters(defs, from));
        lemma_first_refused(defs, from + 1, n);
    }
}

/// The first clash is a path, or the number of paths.
proof fn lemma_clash_in_range(
    defs: Seq<DefinitionSpec>,
    n: int,
    paths: Seq<Seq<Seq<u8>>>,
    query: bool,
    from: int,
)
    requires
        0 <= from,
    ensures
        from <= first_clash_in(defs, n, paths, query, from) || first_clash_in(
            defs,
            n,
            paths,
            query,
            from,
        ) == paths.len(),
        first_clash_in(defs, n, paths, query, from) <= paths.len() || from > paths.len(),
    decreases paths.len() - from,
{
    if from < paths.len() {
        lemma_clash_in_range(defs, n, paths, query, from + 1);
    }
}

/// A tree that has registered what the first `n` commands of the table
/// register finds the same first clash.
proof fn lemma_same_clash(
    tree: Tree,
    defs: Seq<DefinitionSpec>,
    n: int,
    paths: Seq<Seq<Seq<u8>>>,
    query: bool,
    from: int,
)
    requires
        0 <= from,
        forall|path: Seq<Seq<u8>>, kind: bool| #[trigger]
            tree.registered(path, kind) == table(defs, n, path, kind),
    ensures
        tree.first_clash(paths, query, from) == first_clash_in(defs, n, paths, query, from),
    decreases paths.len() - from,
{
    if from < paths.len() {
        assert(tree.registered(paths[from], query) == table(defs, n, paths[from], query));
        if !tree.clashes(paths, query, from) {
            lemma_same_clash(tree, defs, n, paths, query, from + 1);
        }
    }
}

/// What the table registers under a path does not depend on the case in
/// which the path is written.
pub proof fn lemma_table_ignores_case(
    defs: Seq<DefinitionSpec>,
    n: int,
    a: Seq<Seq<u8>>,
    b: Seq<Seq<u8>>,
    query: bool,
)
    requires
        same_path(a, b),
    ensures
        table(defs, n, a, query) == table(defs, n, b, query),
    decreases n,
{
    if n > 0 {
        let paths = paths_at(defs, n - 1);
        let stop = first_clash_in(defs, n - 1, paths, defs[n - 1].command.query, 0);
        lemma_table_ignores_case(defs, n - 1, a, b, query);
        if exists|i: int| 0 <= i < stop && same_path(a, #[trigger] paths[i]) {
            let i = choose|i: int| 0 <= i < stop && same_path(a, #[trigger] paths[i]);
            assert(same_path(b, paths[i]));
        }
        if exists|i: int| 0 <= i < stop && same_path(b, #[trigger] paths[i]) {
            let i = choose|i: int| 0 <= i < stop && same_path(b, #[trigger] paths[i]);
            assert(same_path(a, paths[i]));
        }
    }
}

/// No path before the first that clashes does clash.
proof fn lemma_before_clash(
    defs: Seq<DefinitionSpec>,
    n: int,
    paths: Seq<Seq<Seq<u8>>>,
    query: bool,
    from: int,
    j: int,
)
    requires
        0 <= from <= j < first_clash_in(defs, n, paths, query, from),
    ensures
        j < paths.len(),
        table(defs, n, paths[j], query) is None,
    decreases paths.len() - from,
{
    if from < paths.len() && from < j {
        lemma_before_clash(defs, n, paths, query, from + 1, j);
    }
}

/// In a table whose commands all enter, what a command has registered
/// stays registered when more commands are entered.
proof fn lemma_table_keeps(
    defs: Seq<DefinitionSpec>,
    m: int,
    n: int,
    path: Seq<Seq<u8>>,
    query: bool,
)
    requires
        0 <= m <= n <= defs.len(),
        clash_free(defs, n),
        table(defs, m, path, query) is Some,
    ensures
        table(defs, n, path, query) == table(defs, m, path, query),
    decreases n - m,
{
    if m < n {
        lemma_table_keeps(defs, m, n - 1, path, query);
        let paths = paths_at(defs, n - 1);
        let kind = defs[n - 1].command.query;
        let stop = first_clash_in(defs, n - 1, paths, kind, 0);
        if query == kind && exists|i: int| 0 <= i < stop && same_path(path, #[trigger] paths[i]) {
            let i = choose|i: int| 0 <= i < stop && same_path(path, #[trigger] paths[i]);
            lemma_table_ignores_case(defs, n - 1, path, paths[i], query);
            lemma_before_clash(defs, n - 1, paths, kind, 0, i);
        }
    }
}

/// In a table whose commands all enter, every spelling of a command (the
/// long or the short form of each part, an optional part given or not, in
/// any case) resolves to the handler of that command, as its long form
/// does.
pub proof fn lemma_spellings_reach_handler(
    defs: Seq<DefinitionSpec>,
    m: int,
    spelling: Seq<Seq<char>>,
)
    requires
        0 <= m < defs.len(),
        clash_free(defs, defs.len() as int),
        spells(defs[m].command.parts, spelling),
    ensures
        table(defs, defs.len() as int, path_bytes(spelling), defs[m].command.query) == Some(
            registration_at(defs, m),
        ),
{
    let all = paths_of(defs[m].command.parts);
    let paths = paths_at(defs, m);
    let query = defs[m].command.query;
    lemma_paths_are_spellings(defs[m].command.parts, spelling);
    let i = choose|i: int| 0 <= i < all.len() && all[i] == spelling;
    assert(enters(defs, m));
    assert(same_path(path_bytes(spelling), paths[i]));
    assert(table(defs, m + 1, path_bytes(spelling), query) == Some(registration_at(defs, m)));
    lemma_table_keeps(defs, m + 1, defs.len() as int, path_bytes(spelling), query);
}

/// In a tree that holds a table whose commands all enter, a header that
/// spells a command, in mnemonics with colons between them, names a node
/// with the handler of that command: whichever spelling a caller uses, the
/// handler is the one of the long form.
pub proof fn lemma_spelling_is_called(
    tree: Tree,
    defs: Seq<DefinitionSpec>,
    m: int,
    spelling: Seq<Seq<char>>,
    rest: Seq<u8>,
)
    requires
        0 <= m < defs.len(),
        clash_free(defs, defs.len() as int),
        forall|path: Seq<Seq<u8>>, query: bool| #[trigger]
            tree.registered(path, query) == table(defs, defs.len() as int, path, query),
        spells(defs[m].command.parts, spelling),
        spelling.len() > 0,
        forall|i: int| 0 <= i < spelling.len() ==> is_mnemonic(encode_utf8(#[trigger] spelling[i])),
        ends_header(rest),
    ensures
        command_header_spec(tree, 0, header_text(path_bytes(spelling)) + rest) is Ok,
        tree.handler(
            command_header_spec(tree, 0, header_text(path_bytes(spelling)) + rest)->Ok_0.1.node,
            defs[m].command.query,
        ) == Some(m as usize),
        tree.arity(
            command_header_spec(tree, 0, header_text(path_bytes(spelling)) + rest)->Ok_0.1.node,
            defs[m].command.query,
        ) == Some(defs[m].arity),
{
    let path = path_bytes(spelling);
    let query = defs[m].command.query;
    lemma_spellings_reach_handler(defs, m, spelling);
    assert(tree.registered(path, query) == Some(registration_at(defs, m)));
    assert forall|i: int| 0 <= i < path.len() implies is_mnemonic(#[trigger] path[i]) by {
        assert(path[i] == encode_utf8(spelling[i]));
    }
    lemma_header_resolves(tree, 0, path, rest);
}

/// In a tree that holds a table whose commands all enter, a call without
/// arguments that spells a command is parsed as a call of that command:
/// whichever spelling a caller uses (the long or the short form of each
/// part, an optional part given or not, letters in any case), the node of
/// the call holds the handler of the command, as for its long form.
pub proof fn lemma_spelled_call_is_parsed(
    tree: Tree,
    defs: Seq<DefinitionSpec>,
    m: int,
    spelling: Seq<Seq<char>>,
    typed: Seq<Seq<u8>>,
)
    requires
        0 <= m < defs.len(),
        clash_free(defs, defs.len() as int),
        forall|path: Seq<Seq<u8>>, query: bool| #[trigger]
            tree.registered(path, query) == table(defs, defs.len() as int, path, query),
        spells(defs[m].command.parts, spelling),
        same_path(typed, path_bytes(spelling)),
        is_header(typed),
    ensures
        ({
            let query = defs[m].command.query;
            let parsed = parse_spec(tree, 0, call_text(typed, query));
            &&& parsed is Ok
            &&& parsed->Ok_0.0 == call_text(typed, query).len()
            &&& parsed->Ok_0.1 is Some
            &&& parsed->Ok_0.1->0.query == query
            &&& parsed->Ok_0.1->0.args.len() == 0
            &&& parsed->Ok_0.1->0.terminated
            &&& tree.handler(parsed->Ok_0.1->0.node, query) == Some(m as usize)
            &&& tree.arity(parsed->Ok_0.1->0.node, query) == Some(defs[m].arity)
        }),
{
    let query = defs[m].command.query;
    lemma_spellings_reach_handler(defs, m, spelling);
    lemma_table_ignores_case(defs, defs.len() as int, typed, path_bytes(spelling), query);
    assert(tree.registered(typed, query) == Some(registration_at(defs, m)));
    lemma_call_is_parsed(tree, typed, query);
}

} // verus!
