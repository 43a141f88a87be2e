//! The buffer of the processing loop: it collects what is read from the
//! transport, and hands out what is to be run as soon as a line is complete.

use vstd::prelude::*;
use vstd::slice::slice_subrange;
use crate::interface::{
    consumed_spec, header_spec, lemma_consumed_bounds, same_sink, Interface,
};
use crate::response::Write;
use crate::tree::{NodeId, Tree};

verus! {

/// The index of the first newline at or behind `from`, or the length of
/// the bytes where there is none.
pub open spec fn newline_from(bytes: Seq<u8>, from: int) -> int
    decreases bytes.len() - from,
{
    if from < 0 || from >= bytes.len() {
        bytes.len() as int
    } else if bytes[from] == 0x0a {
        from
    } else {
        newline_from(bytes, from + 1)
    }
}

/// What waits in the buffer: the bytes that are not run yet, and the node
/// from which the header of the first of them is looked up.
pub struct Held {
    pub bytes: Seq<u8>,
    pub header: NodeId,
}

/// What was handed to the interpreter in one run: the node from which the
/// first header is looked up, and the bytes.
pub struct Run {
    pub header: NodeId,
    pub line: Seq<u8>,
}

/// What was run, and what waits in the buffer, after the lines of `held`
/// were run, of which the first `seen` bytes were searched for a newline
/// before.
///
/// As long as a newline is found behind what was searched, the bytes up to
/// it are run. What the run consumed leaves the buffer, and what it left
/// waits for the next newline: it is run again, together with what
/// follows, once that newline has come.
pub open spec fn lines_spec(tree: Tree, held: Held, seen: int) -> (Seq<Run>, Held)
    decreases held.bytes.len() - seen,
{
    let end = newline_from(held.bytes, seen);
    if 0 <= seen <= end < held.bytes.len() {
        let line = held.bytes.take(end + 1);
        let used = consumed_spec(tree, held.header, line);
        if 0 <= used <= end + 1 {
            let next = Held {
                bytes: held.bytes.skip(used),
                header: header_spec(tree, held.header, line),
            };
            let (runs, rest) = lines_spec(tree, next, end + 1 - used);
            (seq![Run { header: held.header, line }] + runs, rest)
        } else {
            (Seq::empty(), held)
        }
    } else {
        (Seq::empty(), held)
    }
}

/// The bytes of `held` with more bytes behind them.
pub open spec fn with_more(held: Held, more: Seq<u8>) -> Held {
    Held { bytes: held.bytes + more, header: held.header }
}

/// What a buffer of `limit` bytes that held `held` makes of a chunk of
/// bytes: what is run, in its order, and what waits afterwards. A buffer
/// that is full afterwards drops what it holds, and goes on from the root.
pub open spec fn feed_spec(tree: Tree, limit: nat, held: Held, chunk: Seq<u8>) -> (Seq<Run>, Held) {
    let (runs, rest) = lines_spec(tree, with_more(held, chunk), held.bytes.len() as int);
    if held.bytes.len() + chunk.len() >= limit {
        (runs, Held { bytes: Seq::empty(), header: 0 })
    } else {
        (runs, rest)
    }
}

/// What the buffer makes of bytes that come one at a time.
pub open spec fn feed_bytes_spec(tree: Tree, limit: nat, held: Held, bytes: Seq<u8>) -> (
    Seq<Run>,
    Held,
)
    decreases bytes.len(),
{
    if bytes.len() == 0 {
        (Seq::empty(), held)
    } else {
        let (before, between) = feed_bytes_spec(tree, limit, held, bytes.drop_last());
        let (runs, rest) = feed_spec(tree, limit, between, seq![bytes.last()]);
        (before + runs, rest)
    }
}

/// The first newline is at or behind the place from which it is
/// searched, and no newline stands between the two.
pub proof fn lemma_newline_from(bytes: Seq<u8>, from: int)
    requires
        0 <= from <= bytes.len(),
    ensures
        from <= newline_from(bytes, from) <= bytes.len(),
        newline_from(bytes, from) < bytes.len() ==> bytes[newline_from(bytes, from)] == 0x0a,
        forall|i: int| from <= i < newline_from(bytes, from) ==> bytes[i] != 0x0a,
    decreases bytes.len() - from,
{
    if from < bytes.len() && bytes[from] != 0x0a {
        lemma_newline_from(bytes, from + 1);
    }
}

/// A place before which no newline stands, from `from` on, is not behind
/// the first newline.
pub proof fn lemma_newline_is(bytes: Seq<u8>, from: int, end: int)
    requires
        0 <= from <= end <= bytes.len(),
        forall|i: int| from <= i < end ==> bytes[i] != 0x0a,
        end < bytes.len() ==> bytes[end] == 0x0a,
    ensures
        newline_from(bytes, from) == end,
    decreases end - from,
{
    if from < end {
        lemma_newline_is(bytes, from + 1, end);
    }
}

/// The lines of bytes that are followed by more bytes are the lines of
/// the bytes, and then the lines of what is left of them with the bytes
/// that follow.
pub proof fn lemma_lines_split(tree: Tree, held: Held, seen: int, more: Seq<u8>)
    requires
        0 <= seen <= held.bytes.len(),
    ensures
        ({
            let (first, between) = lines_spec(tree, held, seen);
            let (second, rest) = lines_spec(
                tree,
                with_more(between, more),
                between.bytes.len() as int,
            );
            lines_spec(tree, with_more(held, more), seen) == (first + second, rest)
        }),
    decreases held.bytes.len() - seen,
{
    let whole = with_more(held, more);
    let end = newline_from(held.bytes, seen);
    lemma_newline_from(held.bytes, seen);
    if end < held.bytes.len() {
        assert forall|i: int| seen <= i < end implies whole.bytes[i] != 0x0a by {
            assert(whole.bytes[i] == held.bytes[i]);
        }
        assert(whole.bytes[end] == held.bytes[end]);
        lemma_newline_is(whole.bytes, seen, end);
        let line = held.bytes.take(end + 1);
        assert(whole.bytes.take(end + 1) =~= line);
        let used = consumed_spec(tree, held.header, line);
        lemma_consumed_bounds(tree, held.header, line);
        let next = Held {
            bytes: held.bytes.skip(used),
            header: header_spec(tree, held.header, line),
        };
        assert(whole.bytes.skip(used) =~= next.bytes + more);
        lemma_lines_split(tree, next, end + 1 - used, more);
        let (runs, between) = lines_spec(tree, next, end + 1 - used);
        let (second, rest) = lines_spec(
            tree,
            with_more(between, more),
            between.bytes.len() as int,
        );
        let run = Run { header: held.header, line };
        assert(seq![run] + (runs + second) =~= (seq![run] + runs) + second);
    } else {
        // Nothing of what is held is run: the search goes on in what follows.
        assert(lines_spec(tree, held, seen) == (Seq::<Run>::empty(), held));
        lemma_newline_from(whole.bytes, held.bytes.len() as int);
        let far = newline_from(whole.bytes, held.bytes.len() as int);
        assert forall|i: int| seen <= i < far implies whole.bytes[i] != 0x0a by {
            if i < held.bytes.len() {
                assert(whole.bytes[i] == held.bytes[i]);
            }
        }
        lemma_newline_is(whole.bytes, seen, far);
        let (second, rest) = lines_spec(tree, whole, held.bytes.len() as int);
        assert(Seq::<Run>::empty() + second =~= second);
        lemma_lines_from(tree, whole, seen, held.bytes.len() as int);
    }
}

/// Where no newline stands between two places, the lines are the same
/// from either.
proof fn lemma_lines_from(tree: Tree, held: Held, a: int, b: int)
    requires
        0 <= a <= b <= held.bytes.len(),
        newline_from(held.bytes, a) == newline_from(held.bytes, b),
    ensures
        lines_spec(tree, held, a) == lines_spec(tree, held, b),
{
    lemma_newline_from(held.bytes, b);
}

/// What waits after the lines were run was searched for a newline to its
/// end, and is no longer than what was held.
pub proof fn lemma_lines_rest(tree: Tree, held: Held, seen: int)
    requires
        0 <= seen <= held.bytes.len(),
    ensures
        lines_spec(tree, held, seen).1.bytes.len() <= held.bytes.len(),
    decreases held.bytes.len() - seen,
{
    let end = newline_from(held.bytes, seen);
    lemma_newline_from(held.bytes, seen);
    if end < held.bytes.len() {
        let line = held.bytes.take(end + 1);
        let used = consumed_spec(tree, held.header, line);
        lemma_consumed_bounds(tree, held.header, line);
        let next = Held {
            bytes: held.bytes.skip(used),
            header: header_spec(tree, held.header, line),
        };
        lemma_lines_rest(tree, next, end + 1 - used);
    }
}

/// Feeding a chunk in two parts runs the same lines, from the same
/// headers, and leaves the same bytes as feeding it at once, as long as
/// the buffer does not get full.
pub proof fn lemma_feed_split(tree: Tree, limit: nat, held: Held, a: Seq<u8>, b: Seq<u8>)
    requires
        held.bytes.len() + a.len() + b.len() < limit,
    ensures
        ({
            let (first, between) = feed_spec(tree, limit, held, a);
            let (second, rest) = feed_spec(tree, limit, between, b);
            feed_spec(tree, limit, held, a + b) == (first + second, rest)
        }),
{
    lemma_lines_split(tree, with_more(held, a), held.bytes.len() as int, b);
    lemma_lines_rest(tree, with_more(held, a), held.bytes.len() as int);
    assert((held.bytes + a) + b =~= held.bytes + (a + b));
    assert(with_more(with_more(held, a), b) == with_more(held, a + b));
}

/// Feeding bytes one at a time runs the same lines, from the same
/// headers, and leaves the same bytes as feeding them all at once, as long
/// as the buffer does not get full. What a handler answers to a line does
/// not depend on the pieces in which the line came.
pub proof fn lemma_byte_by_byte(tree: Tree, limit: nat, held: Held, bytes: Seq<u8>)
    requires
        held.bytes.len() + bytes.len() < limit,
    ensures
        feed_bytes_spec(tree, limit, held, bytes) == feed_spec(tree, limit, held, bytes),
        feed_spec(tree, limit, held, bytes).1.bytes.len() <= held.bytes.len() + bytes.len(),
    decreases bytes.len(),
{
    lemma_lines_rest(tree, with_more(held, bytes), held.bytes.len() as int);
    if bytes.len() == 0 {
        assert(held.bytes + bytes =~= held.bytes);
        assert(with_more(held, bytes) == held);
        lemma_newline_from(held.bytes, held.bytes.len() as int);
    } else {
        let front = bytes.drop_last();
        let last = seq![bytes.last()];
        lemma_byte_by_byte(tree, limit, held, front);
        assert(front + last =~= bytes);
        lemma_feed_split(tree, limit, held, front, last);
    }
}

/// The buffer of the processing loop, for lines of less than `N` bytes.
pub struct InputBuffer<const N: usize> {
    /// What was read and is not run yet, behind what was run already.
    data: Vec<u8>,
    /// The number of bytes of `data` that were run already.
    start: usize,
    /// The number of bytes of `data` that were searched for a newline.
    scan: usize,
    /// The node from which the next header is looked up.
    header: NodeId,
}

impl<const N: usize> InputBuffer<N> {
    /// The invariant of the buffer.
    pub closed spec fn wf(&self) -> bool {
        self.start <= self.scan <= self.data@.len()
    }

    /// The bytes that wait to be run.
    pub closed spec fn view(&self) -> Seq<u8> {
        self.data@.skip(self.start as int)
    }

    /// The node from which the next header is looked up.
    pub closed spec fn header(&self) -> NodeId {
        self.header
    }

    /// What waits in the buffer.
    pub open spec fn held(&self) -> Held {
        Held { bytes: self@, header: self.header() }
    }

    /// The buffer is between two rounds of reading: all that it holds was
    /// searched for a newline, and room was made for what is to come. It is
    /// so when it is new, and after [`InputBuffer::finish`] and
    /// [`InputBuffer::feed`].
    pub open spec fn tidy(&self) -> bool {
        &&& self.wf()
        &&& self.seen() == self@.len()
        &&& self.filled() == self@.len()
    }

    /// The number of bytes that were searched for a newline already.
    pub closed spec fn seen(&self) -> int {
        self.scan - self.start
    }

    /// The number of bytes that the buffer has taken since it was last
    /// emptied or tidied up.
    pub closed spec fn filled(&self) -> nat {
        self.data@.len()
    }

    /// An empty buffer.
    pub fn new() -> (r: InputBuffer<N>)
        ensures
            r.tidy(),
            r@.len() == 0,
            r.header() == 0,
    {
        InputBuffer { data: Vec::new(), start: 0, scan: 0, header: 0 }
    }

    /// The node from which the next header is looked up.
    pub fn header_node(&self) -> (r: NodeId)
        ensures
            r == self.header(),
    {
        self.header
    }

    /// The number of bytes that the buffer can take before it is full.
    pub fn free(&self) -> (r: usize)
        ensures
            r == if self.filled() < N {
                N - self.filled()
            } else {
                0
            },
    {
        if self.data.len() < N {
            N - self.data.len()
        } else {
            0
        }
    }

    /// Adds bytes behind what the buffer holds.
    pub fn push(&mut self, bytes: &[u8])
        requires
            old(self).wf(),
        ensures
            final(self).wf(),
            final(self)@ == old(self)@ + bytes@,
            final(self).seen() == old(self).seen(),
            final(self).header() == old(self).header(),
            final(self).filled() == old(self).filled() + bytes@.len(),
    {
        let mut i: usize = 0;
        while i < bytes.len()
            invariant
                i <= bytes@.len(),
                self.start == old(self).start,
                self.scan == old(self).scan,
                self.header == old(self).header,
                self.start <= self.scan <= old(self).data@.len(),
                self.data@ == old(self).data@ + bytes@.take(i as int),
            decreases bytes@.len() - i,
        {
            self.data.push(bytes[i]);
            assert(bytes@.take(i as int + 1) =~= bytes@.take(i as int).push(bytes@[i as int]));
            i += 1;
        }
        assert(bytes@.take(bytes@.len() as int) =~= bytes@);
        assert(self@ =~= old(self)@ + bytes@);
    }

    /// The bytes that are to be run next: those up to the first newline
    /// behind what was searched before. Without such a newline nothing is
    /// to be run, and all that the buffer holds counts as searched.
    pub fn next_line(&mut self) -> (r: Option<&[u8]>)
        requires
            old(self).wf(),
        ensures
            final(self).wf(),
            final(self)@ == old(self)@,
            final(self).header() == old(self).header(),
            final(self).filled() == old(self).filled(),
            match r {
                Some(line) => {
                    let end = newline_from(old(self)@, old(self).seen());
                    &&& end < old(self)@.len()
                    &&& line@ == old(self)@.take(end + 1)
                    &&& final(self).seen() == end
                },
                None => newline_from(old(self)@, old(self).seen()) == old(self)@.len()
                    && final(self).seen() == old(self)@.len(),
            },
    {
        let ghost held = self@;
        let ghost seen = self.seen();
        let mut i: usize = self.scan;
        while i < self.data.len() && self.data[i] != 0x0a
            invariant
                self.start == old(self).start,
                self.data == old(self).data,
                self.header == old(self).header,
                self.start <= self.scan <= i <= self.data@.len(),
                held == self.data@.skip(self.start as int),
                forall|j: int| self.scan <= j < i ==> self.data@[j] != 0x0a,
            decreases self.data@.len() - i,
        {
            i += 1;
        }
        proof {
            assert forall|j: int| seen <= j < i - self.start implies held[j] != 0x0a by {
                assert(held[j] == self.data@[j + self.start]);
            }
            if i < self.data@.len() {
                assert(held[i - self.start] == self.data@[i as int]);
            }
            lemma_newline_is(held, seen, i - self.start);
        }
        self.scan = i;
        if i < self.data.len() {
            let line = slice_subrange(self.data.as_slice(), self.start, i + 1);
            assert(line@ =~= held.take(i - self.start + 1));
            Some(line)
        } else {
            None
        }
    }

    /// Takes note of a run of the line that [`InputBuffer::next_line`]
    /// gave: `remaining` is the number of bytes that the run left of it,
    /// and `header` is the node from which the next header is to be looked
    /// up. What the run consumed leaves the buffer.
    ///
    /// No more than the line can be left of it. Without a line that was
    /// given the buffer stays as it is.
    pub fn advance(&mut self, remaining: usize, header: NodeId)
        requires
            old(self).wf(),
        ensures
            final(self).wf(),
            final(self).filled() == old(self).filled(),
            old(self).seen() < old(self)@.len() ==> {
                let left = if remaining <= old(self).seen() + 1 {
                    remaining as int
                } else {
                    old(self).seen() + 1
                };
                &&& final(self)@ == old(self)@.skip(old(self).seen() + 1 - left)
                &&& final(self).seen() == left
                &&& final(self).header() == header
            },
            old(self).seen() >= old(self)@.len() ==> {
                &&& final(self)@ == old(self)@
                &&& final(self).seen() == old(self).seen()
                &&& final(self).header() == old(self).header()
            },
    {
        let filled = self.data.len();
        assert(self@.len() == filled - self.start);
        if self.scan < filled {
            let end = self.scan + 1;
            let line = end - self.start;
            let left = if remaining <= line {
                remaining
            } else {
                line
            };
            self.header = header;
            self.start = end - left;
            self.scan = end;
            assert(self@ =~= old(self)@.skip(old(self).seen() + 1 - left));
        }
    }

    /// Ends a round of reading: a buffer that is full drops what it holds
    /// and goes on from the root, and else it makes room for what is to
    /// come.
    pub fn finish(&mut self)
        requires
            old(self).wf(),
        ensures
            final(self).wf(),
            final(self).held() == if old(self).filled() >= N {
                Held { bytes: Seq::<u8>::empty(), header: 0 }
            } else {
                old(self).held()
            },
            final(self).seen() == if old(self).filled() >= N {
                0
            } else {
                old(self).seen()
            },
            final(self).filled() == final(self)@.len(),
    {
        if self.data.len() >= N {
            self.data.clear();
            self.start = 0;
            self.scan = 0;
            self.header = 0;
            assert(self@ =~= Seq::<u8>::empty());
        } else if self.start > 0 {
            let mut kept: Vec<u8> = Vec::new();
            let mut i: usize = self.start;
            while i < self.data.len()
                invariant
                    self.start <= i <= self.data@.len(),
                    kept@ == self.data@.subrange(self.start as int, i as int),
                decreases self.data@.len() - i,
            {
                kept.push(self.data[i]);
                assert(self.data@.subrange(self.start as int, i as int + 1)
                    =~= self.data@.subrange(self.start as int, i as int).push(self.data@[i as int]));
                i += 1;
            }
            assert(kept@ =~= old(self)@);
            self.scan = self.scan - self.start;
            self.start = 0;
            self.data = kept;
            assert(self@ =~= old(self)@);
        } else {
            assert(self@ =~= self.data@);
        }
    }

    /// Takes a chunk of bytes, and runs every line that is complete with
    /// it: a whole round of reading. Where no line is complete, nothing is
    /// run: the interface and the sink stay as they are.
    pub fn feed<I: Interface, W: Write>(
        &mut self,
        interface: &mut I,
        tree: &Tree,
        chunk: &[u8],
        response: &mut W,
    )
        requires
            old(self).tidy(),
        ensures
            final(self).tidy(),
            final(self).held() == feed_spec(*tree, N as nat, old(self).held(), chunk@).1,
            feed_spec(*tree, N as nat, old(self).held(), chunk@).0.len() == 0 ==> same_sink(
                old(response),
                final(response),
            ) && *final(interface) == *old(interface),
    {
        let ghost before = self.held();
        let ghost written = response.written();
        let ghost limit = response.limit();
        self.push(chunk);
        let ghost whole = self.held();
        loop
            invariant_except_break
                lines_spec(*tree, whole, before.bytes.len() as int).0.len() == 0 ==> self.held()
                    == whole && self.seen() == before.bytes.len(),
            invariant
                self.wf(),
                lines_spec(*tree, whole, before.bytes.len() as int).0.len() == 0 ==> {
                    &&& response.written() == written
                    &&& response.limit() == limit
                    &&& *interface == *old(interface)
                },
                0 <= self.seen() <= self@.len(),
                self.filled() == before.bytes.len() + chunk@.len(),
                whole == with_more(before, chunk@),
                lines_spec(*tree, whole, before.bytes.len() as int).1 == lines_spec(
                    *tree,
                    self.held(),
                    self.seen(),
                ).1,
            ensures
                self.wf(),
                self.seen() == self@.len(),
                self.filled() == before.bytes.len() + chunk@.len(),
                lines_spec(*tree, whole, before.bytes.len() as int).1 == self.held(),
                lines_spec(*tree, whole, before.bytes.len() as int).0.len() == 0 ==> {
                    &&& response.written() == written
                    &&& response.limit() == limit
                    &&& *interface == *old(interface)
                },
            decreases self@.len() - self.seen(),
        {
            let ghost held = self@;
            let ghost seen = self.seen();
            proof {
                lemma_newline_from(held, seen);
            }
            let from = self.header;
            let (remaining, header) = match self.next_line() {
                None => {
                    break ;
                },
                Some(line) => {
                    proof {
                        lemma_consumed_bounds(*tree, from, line@);
                    }
                    let (rest, header) = interface.run_from(tree, from, line, response);
                    (rest.len(), header)
                },
            };
            self.advance(remaining, header);
        }
        self.finish();
    }
}

} // verus!
