//! The notation in which a command is registered, such as `[STATus]:TIMe?`,
//! and the paths under which a command so written can be called.

use vstd::prelude::*;
use vstd::string::StrSliceExecFns;
use vstd::string::StringExecFns;

verus! {

/// What `str::trim` returns for a string.
pub uninterp spec fn trimmed(s: Seq<char>) -> Seq<char>;

/// What `str::to_uppercase` returns for a string.
pub uninterp spec fn uppercased(s: Seq<char>) -> Seq<char>;

/// What `char::is_lowercase` returns for a character.
pub uninterp spec fn lowercase_letter(c: char) -> bool;

/// Calls `str::trim`, which removes leading and trailing whitespace as
/// Unicode defines it. The contract only names the result.
#[verifier::external_body]
fn trim(s: &str) -> (r: &str)
    ensures
        r@ == trimmed(s@),
{
    s.trim()
}

/// Calls `str::to_uppercase`, which maps each character to its upper-case
/// form as Unicode defines it. The contract only names the result.
#[verifier::external_body]
fn to_uppercase(s: &str) -> (r: String)
    ensures
        r@ == uppercased(s@),
{
    s.to_uppercase()
}

/// Calls `char::is_lowercase`, which tells whether a character has the
/// Unicode property `Lowercase`. The contract only names the result.
#[verifier::external_body]
fn is_lowercase(c: char) -> (r: bool)
    ensures
        r == lowercase_letter(c),
{
    c.is_lowercase()
}

/// Calls `String::push`, which adds the character at the end of the string.
#[verifier::external_body]
fn push_char(text: &mut String, c: char)
    ensures
        final(text)@ == old(text)@.push(c),
{
    text.push(c)
}

/// The string of the given characters.
fn text_of(chars: &[char]) -> (r: String)
    ensures
        r@ == chars@,
{
    let mut text = String::new();
    let mut i: usize = 0;
    while i < chars.len()
        invariant
            i <= chars@.len(),
            text@ == chars@.take(i as int),
        decreases chars@.len() - i,
    {
        push_char(&mut text, chars[i]);
        assert(chars@.take(i as int + 1) =~= chars@.take(i as int).push(chars@[i as int]));
        i += 1;
    }
    assert(chars@.take(chars@.len() as int) =~= chars@);
    text
}

/// The pieces between the separators, from left to right. A string without
/// a separator is one piece, and so is the empty string.
pub open spec fn split(s: Seq<char>, separator: char) -> Seq<Seq<char>>
    decreases s.len(),
{
    if s.len() == 0 {
        seq![Seq::empty()]
    } else {
        let before = split(s.drop_last(), separator);
        if s.last() == separator {
            before.push(Seq::empty())
        } else {
            before.drop_last().push(before.last().push(s.last()))
        }
    }
}

/// The characters that are not lower-case letters, in their order.
pub open spec fn short_form(s: Seq<char>) -> Seq<char>
    decreases s.len(),
{
    if s.len() == 0 {
        Seq::empty()
    } else if lowercase_letter(s.last()) {
        short_form(s.drop_last())
    } else {
        short_form(s.drop_last()).push(s.last())
    }
}

/// The model of a [`CommandPart`].
pub struct PartSpec {
    pub optional: bool,
    pub short: Seq<char>,
    pub long: Seq<char>,
}

/// The model of a [`Command`].
pub struct CommandSpec {
    pub parts: Seq<PartSpec>,
    pub query: bool,
}

/// The part that one piece of the notation stands for. A piece that is
/// empty once trimmed stands for none. Square brackets around a
/// piece mark it as optional.
pub open spec fn part_of(piece: Seq<char>) -> Option<PartSpec> {
    let t = trimmed(piece);
    if t.len() == 0 {
        None
    } else {
        let optional = t.first() == '[' && t.last() == ']';
        let inner = if optional {
            t.subrange(1, t.len() - 1)
        } else {
            t
        };
        Some(PartSpec { optional, short: short_form(inner), long: uppercased(inner) })
    }
}

/// The parts that a sequence of pieces stands for.
pub open spec fn parts_of(pieces: Seq<Seq<char>>) -> Seq<PartSpec>
    decreases pieces.len(),
{
    if pieces.len() == 0 {
        Seq::empty()
    } else {
        match part_of(pieces.last()) {
            Some(part) => parts_of(pieces.drop_last()).push(part),
            None => parts_of(pieces.drop_last()),
        }
    }
}

/// The command that a string in the notation stands for: a question mark at
/// the end makes it a query, and colons separate the parts.
pub open spec fn command_of(s: Seq<char>) -> CommandSpec {
    if s.len() > 0 && s.last() == '?' {
        CommandSpec { parts: parts_of(split(s.drop_last(), ':')), query: true }
    } else {
        CommandSpec { parts: parts_of(split(s, ':')), query: false }
    }
}

/// The long forms joined by colons. A part joins an empty text without a colon.
pub open spec fn join_long(parts: Seq<PartSpec>) -> Seq<char>
    decreases parts.len(),
{
    if parts.len() == 0 {
        Seq::empty()
    } else {
        let before = join_long(parts.drop_last());
        if before.len() == 0 {
            parts.last().long
        } else {
            before.push(':') + parts.last().long
        }
    }
}

/// The canonical path of a command: its long forms joined by colons, with a
/// question mark at the end of a query.
pub open spec fn canonical_of(command: CommandSpec) -> Seq<char> {
    if command.query {
        join_long(command.parts).push('?')
    } else {
        join_long(command.parts)
    }
}

/// The ways to go on from `path` by one part: with its long form, with its
/// short form where that differs, and, where the part is optional, without it.
pub open spec fn variants(path: Seq<Seq<char>>, part: PartSpec) -> Seq<Seq<Seq<char>>> {
    let long = seq![path.push(part.long)];
    let short = if part.short != part.long {
        long.push(path.push(part.short))
    } else {
        long
    };
    if part.optional {
        short.push(path)
    } else {
        short
    }
}

/// The variants of every path, in the order of the paths.
pub open spec fn extend_paths(paths: Seq<Seq<Seq<char>>>, part: PartSpec) -> Seq<Seq<Seq<char>>>
    decreases paths.len(),
{
    if paths.len() == 0 {
        Seq::empty()
    } else {
        extend_paths(paths.drop_last(), part) + variants(paths.last(), part)
    }
}

/// All paths under which a command with these parts can be called.
pub open spec fn paths_of(parts: Seq<PartSpec>) -> Seq<Seq<Seq<char>>>
    decreases parts.len(),
{
    if parts.len() == 0 {
        seq![Seq::empty()]
    } else {
        extend_paths(paths_of(parts.drop_last()), parts.last())
    }
}

/// The path made of the long form of every part.
pub open spec fn long_path(parts: Seq<PartSpec>) -> Seq<Seq<char>> {
    Seq::new(parts.len(), |i: int| parts[i].long)
}

/// A path spells the parts when it gives, in their order, the long or the
/// short form of each part, and leaves out none but optional parts.
pub open spec fn spells(parts: Seq<PartSpec>, path: Seq<Seq<char>>) -> bool
    decreases parts.len(),
{
    if parts.len() == 0 {
        path.len() == 0
    } else {
        let part = parts.last();
        ||| {
            &&& path.len() > 0
            &&& path.last() == part.long || path.last() == part.short
            &&& spells(parts.drop_last(), path.drop_last())
        }
        ||| part.optional && spells(parts.drop_last(), path)
    }
}

/// The text of each vector.
pub open spec fn texts(v: Seq<Vec<char>>) -> Seq<Seq<char>> {
    Seq::new(v.len(), |i: int| v[i]@)
}

/// The model of each part.
pub open spec fn part_views(parts: Seq<CommandPart>) -> Seq<PartSpec> {
    Seq::new(parts.len(), |i: int| parts[i]@)
}

/// The text of each segment of each path.
pub open spec fn path_views(paths: Seq<Vec<String>>) -> Seq<Seq<Seq<char>>> {
    Seq::new(paths.len(), |i: int| segment_views(paths[i]@))
}

/// The text of each segment of a path.
pub open spec fn segment_views(path: Seq<String>) -> Seq<Seq<char>> {
    Seq::new(path.len(), |i: int| path[i]@)
}

/// Represents a part of an SCPI command, such as "STATus" in "STATus:EVENt?".
///
/// Each part has a short form (the part without its lower-case letters) and
/// a long form (the whole part in upper case). A caller may use either.
#[derive(Debug, Clone, PartialEq)]
pub struct CommandPart {
    /// Whether this command part is optional.
    pub optional: bool,
    /// The short form of the command part.
    pub short: String,
    /// The long form of the command part.
    pub long: String,
}

impl View for CommandPart {
    type V = PartSpec;

    open spec fn view(&self) -> PartSpec {
        PartSpec { optional: self.optional, short: self.short@, long: self.long@ }
    }
}

/// Represents a complete SCPI command with all its parts.
#[derive(Debug, Clone)]
pub struct Command {
    /// The parts of the command name.
    pub parts: Vec<CommandPart>,
    /// Whether the command is a query, i.e. ends with a question mark.
    query: bool,
}

/// Represents a specific path through the command tree, with each string
/// being either the short or the long form of a command part.
pub type CommandPath = Vec<String>;

/// The error of [`Command::try_from`]. No string gives it: every string
/// stands for some command.
#[derive(Debug, Clone, Copy, PartialEq, Eq)]
pub struct InvalidCommand;

impl View for Command {
    type V = CommandSpec;

    closed spec fn view(&self) -> CommandSpec {
        CommandSpec { parts: part_views(self.parts@), query: self.query }
    }
}

/// The characters of a string.
fn chars_of(s: &str) -> (r: Vec<char>)
    ensures
        r@ == s@,
{
    let n = s.unicode_len();
    let mut out: Vec<char> = Vec::new();
    let mut i: usize = 0;
    while i < n
        invariant
            i <= n,
            n == s@.len(),
            out@ == s@.take(i as int),
        decreases n - i,
    {
        out.push(s.get_char(i));
        assert(s@.take(i as int + 1) =~= s@.take(i as int).push(s@[i as int]));
        i += 1;
    }
    assert(s@.take(n as int) =~= s@);
    out
}

/// Splits the first `end` characters at every colon.
fn split_colons(chars: &Vec<char>, end: usize) -> (r: Vec<Vec<char>>)
    requires
        end <= chars@.len(),
    ensures
        texts(r@) == split(chars@.take(end as int), ':'),
{
    let mut done: Vec<Vec<char>> = Vec::new();
    let mut current: Vec<char> = Vec::new();
    let mut i: usize = 0;
    assert(texts(done@).push(current@) =~= split(chars@.take(0), ':'));
    while i < end
        invariant
            i <= end <= chars@.len(),
            texts(done@).push(current@) == split(chars@.take(i as int), ':'),
        decreases end - i,
    {
        let ghost before = chars@.take(i as int);
        let ghost now = chars@.take(i as int + 1);
        assert(now.drop_last() =~= before);
        assert(now.last() == chars@[i as int]);
        let ghost pieces = texts(done@).push(current@);
        if chars[i] == ':' {
            done.push(current);
            current = Vec::new();
            assert(texts(done@).push(current@) =~= pieces.push(Seq::empty()));
        } else {
            current.push(chars[i]);
            assert(texts(done@).push(current@) =~= pieces.drop_last().push(
                pieces.last().push(chars@[i as int]),
            ));
        }
        i += 1;
    }
    let ghost pieces = texts(done@).push(current@);
    done.push(current);
    assert(texts(done@) =~= pieces);
    done
}

/// The characters of `chars` that are not lower-case letters.
fn short_of(chars: &Vec<char>) -> (r: Vec<char>)
    ensures
        r@ == short_form(chars@),
{
    let mut out: Vec<char> = Vec::new();
    let mut i: usize = 0;
    assert(chars@.take(0) =~= Seq::<char>::empty());
    while i < chars.len()
        invariant
            i <= chars@.len(),
            out@ == short_form(chars@.take(i as int)),
        decreases chars@.len() - i,
    {
        assert(chars@.take(i as int + 1).drop_last() =~= chars@.take(i as int));
        if !is_lowercase(chars[i]) {
            out.push(chars[i]);
        }
        i += 1;
    }
    assert(chars@.take(chars@.len() as int) =~= chars@);
    out
}

/// Reads one piece of the notation.
fn part_from(piece: &Vec<char>) -> (r: Option<CommandPart>)
    ensures
        match r {
            Some(part) => part_of(piece@) == Some(part@),
            None => part_of(piece@) is None,
        },
{
    let text = text_of(piece.as_slice());
    let t = chars_of(trim(text.as_str()));
    if t.len() == 0 {
        return None;
    }
    let optional = t[0] == '[' && t[t.len() - 1] == ']';
    let mut inner: Vec<char> = Vec::new();
    if optional {
        let mut i: usize = 1;
        assert(t@.subrange(1, 1) =~= inner@);
        while i < t.len() - 1
            invariant
                1 <= i <= t@.len() - 1,
                inner@ == t@.subrange(1, i as int),
            decreases t@.len() - i,
        {
            inner.push(t[i]);
            assert(t@.subrange(1, i as int + 1) =~= t@.subrange(1, i as int).push(t@[i as int]));
            i += 1;
        }
    } else {
        inner = t;
    }
    let short = text_of(short_of(&inner).as_slice());
    let long = to_uppercase(text_of(inner.as_slice()).as_str());
    Some(CommandPart { optional, short, long })
}

impl Command {
    /// Parses a command string into a `Command`.
    ///
    /// `value` is the command in the notation of the standard, such as
    /// `SYSTem:ERRor?` or `[STATus]:EVENt?`. Every string is accepted.
    pub fn try_from(value: &str) -> (r: Result<Command, InvalidCommand>)
        ensures
            r is Ok,
            r->Ok_0@ == command_of(value@),
    {
        let chars = chars_of(value);
        let query = chars.len() > 0 && chars[chars.len() - 1] == '?';
        let end = if query {
            chars.len() - 1
        } else {
            chars.len()
        };
        assert(chars@.take(chars@.len() as int) =~= chars@);
        assert(chars@.take(chars@.len() - 1) =~= chars@.drop_last());
        let pieces = split_colons(&chars, end);
        let mut parts: Vec<CommandPart> = Vec::new();
        let mut i: usize = 0;
        assert(texts(pieces@).take(0) =~= Seq::<Seq<char>>::empty());
        while i < pieces.len()
            invariant
                i <= pieces@.len(),
                part_views(parts@) == parts_of(texts(pieces@).take(i as int)),
            decreases pieces@.len() - i,
        {
            let ghost before = part_views(parts@);
            assert(texts(pieces@).take(i as int + 1).drop_last() =~= texts(pieces@).take(i as int));
            assert(texts(pieces@).take(i as int + 1).last() == pieces@[i as int]@);
            match part_from(&pieces[i]) {
                Some(part) => {
                    parts.push(part);
                    assert(part_views(parts@) =~= before.push(part@));
                },
                None => {},
            }
            i += 1;
        }
        assert(texts(pieces@).take(pieces@.len() as int) =~= texts(pieces@));
        Ok(Command { parts, query })
    }

    /// Returns whether this command is a query (ends with a question mark).
    pub fn is_query(&self) -> (r: bool)
        ensures
            r == self@.query,
    {
        self.query
    }

    /// Returns the canonical (long-form) representation of this command.
    ///
    /// This is the complete command with all parts in their long form,
    /// separated by colons, and with a question mark at the end if it's a query.
    pub fn canonical_path(&self) -> (r: String)
        ensures
            r@ == canonical_of(self@),
    {
        let mut path = String::new();
        let mut i: usize = 0;
        assert(part_views(self.parts@).take(0) =~= Seq::<PartSpec>::empty());
        while i < self.parts.len()
            invariant
                i <= self.parts@.len(),
                path@ == join_long(part_views(self.parts@).take(i as int)),
            decreases self.parts@.len() - i,
        {
            let ghost now = part_views(self.parts@).take(i as int + 1);
            assert(now.drop_last() =~= part_views(self.parts@).take(i as int));
            assert(now.last().long == self.parts@[i as int].long@);
            if path.as_str().is_empty() {
                path = self.parts[i].long.clone();
            } else {
                proof {
                    reveal_strlit(":");
                }
                assert(":"@ =~= seq![':']);
                path.append(":");
                path.append(self.parts[i].long.as_str());
                assert(path@ =~= join_long(now.drop_last()).push(':') + now.last().long);
            }
            i += 1;
        }
        assert(part_views(self.parts@).take(self.parts@.len() as int) =~= part_views(self.parts@));
        if self.query {
            proof {
                reveal_strlit("?");
            }
            assert("?"@ =~= seq!['?']);
            path.append("?");
            assert(path@ =~= join_long(self@.parts).push('?'));
        }
        path
    }

    /// Generates all valid paths for this command.
    ///
    /// A part can be given in its short or in its long form, and an optional
    /// part can be left out: this method returns every such combination.
    pub fn paths(&self) -> (r: Vec<CommandPath>)
        ensures
            path_views(r@) == paths_of(self@.parts),
    {
        let mut paths: Vec<CommandPath> = Vec::new();
        paths.push(Vec::new());
        let mut i: usize = 0;
        assert(part_views(self.parts@).take(0) =~= Seq::<PartSpec>::empty());
        assert(path_views(paths@) =~= seq![Seq::<Seq<char>>::empty()]) by {
            assert(segment_views(paths@[0]@) =~= Seq::<Seq<char>>::empty());
        }
        while i < self.parts.len()
            invariant
                i <= self.parts@.len(),
                path_views(paths@) == paths_of(part_views(self.parts@).take(i as int)),
            decreases self.parts@.len() - i,
        {
            let part = &self.parts[i];
            let ghost now = part_views(self.parts@).take(i as int + 1);
            assert(now.drop_last() =~= part_views(self.parts@).take(i as int));
            assert(now.last() == part@);
            let mut new_paths: Vec<CommandPath> = Vec::new();
            let mut j: usize = 0;
            assert(path_views(paths@).take(0) =~= Seq::<Seq<Seq<char>>>::empty());
            assert(path_views(new_paths@) =~= Seq::<Seq<Seq<char>>>::empty());
            while j < paths.len()
                invariant
                    j <= paths@.len(),
                    part == self.parts@[i as int],
                    path_views(new_paths@) == extend_paths(
                        path_views(paths@).take(j as int),
                        part@,
                    ),
                decreases paths@.len() - j,
            {
                let ghost before = path_views(new_paths@);
                let ghost path = segment_views(paths@[j as int]@);
                assert(path_views(paths@).take(j as int + 1).drop_last() =~= path_views(
                    paths@,
                ).take(j as int));
                assert(path_views(paths@).take(j as int + 1).last() == path);

                let mut long_path = clone_path(&paths[j]);
                long_path.push(part.long.clone());
                assert(segment_views(long_path@) =~= path.push(part.long@));
                new_paths.push(long_path);
                assert(path_views(new_paths@) =~= before.push(path.push(part.long@)));

                let differs = !(part.short == part.long);
                if differs {
                    let ghost so_far = path_views(new_paths@);
                    let mut short_path = clone_path(&paths[j]);
                    short_path.push(part.short.clone());
                    assert(segment_views(short_path@) =~= path.push(part.short@));
                    new_paths.push(short_path);
                    assert(path_views(new_paths@) =~= so_far.push(path.push(part.short@)));
                }
                if part.optional {
                    let ghost so_far = path_views(new_paths@);
                    new_paths.push(clone_path(&paths[j]));
                    assert(path_views(new_paths@) =~= so_far.push(path));
                }
                assert(path_views(new_paths@) =~= before + variants(path, part@));
                j += 1;
            }
            assert(path_views(paths@).take(paths@.len() as int) =~= path_views(paths@));
            paths = new_paths;
            i += 1;
        }
        assert(part_views(self.parts@).take(self.parts@.len() as int) =~= part_views(self.parts@));
        paths
    }
}

/// A copy of a path.
fn clone_path(path: &CommandPath) -> (r: CommandPath)
    ensures
        segment_views(r@) == segment_views(path@),
{
    let mut out: CommandPath = Vec::new();
    let mut i: usize = 0;
    while i < path.len()
        invariant
            i <= path@.len(),
            out@.len() == i,
            forall|j: int| 0 <= j < i ==> out@[j]@ == path@[j]@,
        decreases path@.len() - i,
    {
        out.push(path[i].clone());
        i += 1;
    }
    assert(segment_views(out@) =~= segment_views(path@));
    out
}

/// The first of the paths of a command is its long path.
pub proof fn lemma_first_path_is_long(parts: Seq<PartSpec>)
    ensures
        paths_of(parts).len() > 0,
        paths_of(parts).first() == long_path(parts),
    decreases parts.len(),
{
    if parts.len() == 0 {
        assert(long_path(parts) =~= Seq::<Seq<char>>::empty());
    } else {
        let before = paths_of(parts.drop_last());
        lemma_first_path_is_long(parts.drop_last());
        lemma_extend_first(before, parts.last());
        assert(long_path(parts) =~= long_path(parts.drop_last()).push(parts.last().long));
    }
}

/// Extending paths by a part begins with the first path extended by the
/// long form.
proof fn lemma_extend_first(paths: Seq<Seq<Seq<char>>>, part: PartSpec)
    requires
        paths.len() > 0,
    ensures
        extend_paths(paths, part).len() > 0,
        extend_paths(paths, part).first() == paths.first().push(part.long),
    decreases paths.len(),
{
    if paths.len() > 1 {
        lemma_extend_first(paths.drop_last(), part);
    } else {
        assert(extend_paths(paths.drop_last(), part) =~= Seq::<Seq<Seq<char>>>::empty());
    }
}

/// A path is among the variants of the paths exactly when it is a variant
/// of one of them.
proof fn lemma_extend_contains(paths: Seq<Seq<Seq<char>>>, part: PartSpec, path: Seq<Seq<char>>)
    ensures
        extend_paths(paths, part).contains(path) <==> exists|i: int|
            0 <= i < paths.len() && #[trigger] variants(paths[i], part).contains(path),
    decreases paths.len(),
{
    if paths.len() > 0 {
        let before = extend_paths(paths.drop_last(), part);
        let added = variants(paths.last(), part);
        lemma_extend_contains(paths.drop_last(), part, path);
        if extend_paths(paths, part).contains(path) {
            let k = choose|k: int|
                0 <= k < extend_paths(paths, part).len() && extend_paths(paths, part)[k] == path;
            if k < before.len() {
                assert(before[k] == path);
                let i = choose|i: int|
                    0 <= i < paths.drop_last().len() && #[trigger] variants(
                        paths.drop_last()[i],
                        part,
                    ).contains(path);
                assert(variants(paths[i], part).contains(path));
            } else {
                assert(added[k - before.len()] == path);
                assert(variants(paths[paths.len() - 1], part).contains(path));
            }
        }
        if exists|i: int|
            0 <= i < paths.len() && #[trigger] variants(paths[i], part).contains(path) {
            let i = choose|i: int|
                0 <= i < paths.len() && #[trigger] variants(paths[i], part).contains(path);
            if i < paths.len() - 1 {
                assert(variants(paths.drop_last()[i], part).contains(path));
                let k = choose|k: int| 0 <= k < before.len() && before[k] == path;
                assert(extend_paths(paths, part)[k] == path);
            } else {
                let k = choose|k: int| 0 <= k < added.len() && added[k] == path;
                assert(extend_paths(paths, part)[before.len() + k] == path);
            }
        }
    }
}

/// The paths of a command are the paths that spell its parts.
pub proof fn lemma_paths_are_spellings(parts: Seq<PartSpec>, path: Seq<Seq<char>>)
    ensures
        paths_of(parts).contains(path) <==> spells(parts, path),
    decreases parts.len(),
{
    if parts.len() == 0 {
        assert(paths_of(parts)[0] == Seq::<Seq<char>>::empty());
        if path.len() == 0 {
            assert(path =~= Seq::<Seq<char>>::empty());
        }
    } else {
        let part = parts.last();
        let before = paths_of(parts.drop_last());
        lemma_extend_contains(before, part, path);
        lemma_paths_are_spellings(parts.drop_last(), path);
        if path.len() > 0 {
            lemma_paths_are_spellings(parts.drop_last(), path.drop_last());
        }
        if paths_of(parts).contains(path) {
            let i = choose|i: int|
                0 <= i < before.len() && #[trigger] variants(before[i], part).contains(path);
            let v = variants(before[i], part);
            let k = choose|k: int| 0 <= k < v.len() && v[k] == path;
            if path == before[i] {
                assert(part.optional || path == before[i].push(part.long) || path
                    == before[i].push(part.short));
            }
            if path == before[i].push(part.long) || path == before[i].push(part.short) {
                assert(path.drop_last() =~= before[i]);
                assert(before.contains(path.drop_last()));
            } else {
                assert(before.contains(path));
            }
        }
        if spells(parts, path) {
            if path.len() > 0 && (path.last() == part.long || path.last() == part.short) && spells(
                parts.drop_last(),
                path.drop_last(),
            ) {
                let i = choose|i: int| 0 <= i < before.len() && before[i] == path.drop_last();
                let v = variants(before[i], part);
                assert(path =~= path.drop_last().push(path.last()));
                if path.last() == part.long {
                    assert(v[0] == path);
                } else {
                    assert(v[1] == path);
                }
                assert(variants(before[i], part).contains(path));
            } else {
                let i = choose|i: int| 0 <= i < before.len() && before[i] == path;
                let v = variants(before[i], part);
                assert(v[v.len() - 1] == path);
                assert(variants(before[i], part).contains(path));
            }
        }
    }
}

} // verus!
