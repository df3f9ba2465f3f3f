use vstd::prelude::*;

use crate::lines::append_bytes;

verus! {

broadcast use vstd::std_specs::vec::group_vec_axioms;

/// Splits a byte stream that arrives in pieces into the parts between
/// separators. It buffers at most `N` bytes of what was read and not yet
/// searched, as a reader that fills an `N`-byte buffer would.
pub struct SplitStream<const N: usize> {
    buffered: Vec<u8>,
    separator: u8,
    partial: Vec<u8>,
}

/// What a stream holds between two reads: the bytes read but not yet
/// searched, the start of the part being gathered, and the separator.
pub struct StreamState {
    pub buffered: Seq<u8>,
    pub partial: Seq<u8>,
    pub separator: u8,
}

/// The position of the first `b` in `s`, if there is one.
pub open spec fn first_index_of(s: Seq<u8>, b: u8) -> Option<int>
    decreases s.len(),
{
    if s.len() == 0 {
        None
    } else if s.last() != b {
        first_index_of(s.drop_last(), b)
    } else {
        match first_index_of(s.drop_last(), b) {
            Some(i) => Some(i),
            None => Some(s.len() - 1),
        }
    }
}

/// What one read of `read` does: where the buffered bytes and the read
/// hold a separator, the part up to the first one is handed out and what
/// follows it stays buffered; where they hold none, they join the part
/// being gathered, which is handed out when the read was empty (the end of
/// the stream).
pub open spec fn next_spec(st: StreamState, read: Seq<u8>) -> (StreamState, Option<Seq<u8>>) {
    let all = st.buffered + read;
    match first_index_of(all, st.separator) {
        Some(p) => (
            StreamState {
                buffered: all.subrange(p + 1, all.len() as int),
                partial: Seq::empty(),
                separator: st.separator,
            },
            Some(st.partial + all.subrange(0, p)),
        ),
        None => if read.len() == 0 {
            (
                StreamState { buffered: Seq::empty(), partial: Seq::empty(), separator: st.separator },
                Some(st.partial + all),
            )
        } else {
            (
                StreamState {
                    buffered: Seq::empty(),
                    partial: st.partial + all,
                    separator: st.separator,
                },
                None,
            )
        },
    }
}

/// What a step consumed of the stream: the part handed out, followed by the
/// separator where one ended it.
pub open spec fn consumed(st: StreamState, read: Seq<u8>) -> Seq<u8> {
    let all = st.buffered + read;
    match first_index_of(all, st.separator) {
        Some(p) => st.partial + all.subrange(0, p + 1),
        None => if read.len() == 0 {
            st.partial + all
        } else {
            Seq::empty()
        },
    }
}

/// The bytes of an optional part.
pub open spec fn opt_bytes(o: Option<Vec<u8>>) -> Option<Seq<u8>> {
    match o {
        Some(v) => Some(v@),
        None => None,
    }
}

/// The first separator is where `first_index_of` says.
pub proof fn lemma_first_index_of(s: Seq<u8>, b: u8)
    ensures
        match first_index_of(s, b) {
            Some(i) => 0 <= i < s.len() && s[i] == b && !s.subrange(0, i).contains(b),
            None => !s.contains(b),
        },
    decreases s.len(),
{
    if s.len() > 0 {
        lemma_first_index_of(s.drop_last(), b);
        match first_index_of(s.drop_last(), b) {
            Some(i) => {
                assert(s.subrange(0, i) =~= s.drop_last().subrange(0, i));
            },
            None => {
                if s.last() == b {
                    assert(s.subrange(0, s.len() - 1) =~= s.drop_last());
                } else {
                    assert forall|k: int| 0 <= k < s.len() implies s[k] != b by {
                        if k < s.len() - 1 {
                            assert(s[k] == s.drop_last()[k]);
                        }
                    }
                }
            },
        }
    }
}

/// One read keeps every byte: what was held and what was read is what the
/// step consumed followed by what it holds afterwards.
pub proof fn lemma_step_keeps_bytes(st: StreamState, read: Seq<u8>)
    ensures
        st.partial + st.buffered + read == consumed(st, read) + next_spec(st, read).0.partial
            + next_spec(st, read).0.buffered,
        next_spec(st, read).0.separator == st.separator,
{
    let all = st.buffered + read;
    lemma_first_index_of(all, st.separator);
    match first_index_of(all, st.separator) {
        Some(p) => {
            assert(all =~= all.subrange(0, p + 1) + all.subrange(p + 1, all.len() as int));
            assert(st.partial + st.buffered + read =~= st.partial + all.subrange(0, p + 1)
                + Seq::<u8>::empty() + all.subrange(p + 1, all.len() as int));
        },
        None => {
            if read.len() == 0 {
                assert(st.partial + st.buffered + read =~= st.partial + all + Seq::<u8>::empty()
                    + Seq::<u8>::empty());
            } else {
                assert(st.partial + st.buffered + read =~= Seq::<u8>::empty() + (st.partial + all)
                    + Seq::<u8>::empty());
            }
        },
    }
}

/// A part handed out holds no separator, and neither does the part being
/// gathered afterwards, where the part being gathered before held none.
pub proof fn lemma_step_parts_clean(st: StreamState, read: Seq<u8>)
    requires
        !st.partial.contains(st.separator),
    ensures
        !next_spec(st, read).0.partial.contains(st.separator),
        match next_spec(st, read).1 {
            Some(part) => !part.contains(st.separator),
            None => true,
        },
{
    let all = st.buffered + read;
    let sep = st.separator;
    lemma_first_index_of(all, sep);
    let prefix = match first_index_of(all, sep) {
        Some(p) => all.subrange(0, p),
        None => all,
    };
    let joined = st.partial + prefix;
    assert forall|x: int| 0 <= x < joined.len() implies joined[x] != sep by {
        if x < st.partial.len() {
            assert(joined[x] == st.partial[x]);
        } else {
            assert(joined[x] == prefix[x - st.partial.len()]);
        }
    }
    assert(!Seq::<u8>::empty().contains(sep));
}

/// The state after a sequence of reads, and everything consumed on the way.
pub open spec fn feed_all(st: StreamState, reads: Seq<Seq<u8>>) -> (StreamState, Seq<u8>)
    decreases reads.len(),
{
    if reads.len() == 0 {
        (st, Seq::empty())
    } else {
        let (before, eaten) = feed_all(st, reads.drop_last());
        (next_spec(before, reads.last()).0, eaten + consumed(before, reads.last()))
    }
}

/// The reads, one after the other.
pub open spec fn concat_reads(reads: Seq<Seq<u8>>) -> Seq<u8>
    decreases reads.len(),
{
    if reads.len() == 0 {
        Seq::empty()
    } else {
        concat_reads(reads.drop_last()) + reads.last()
    }
}

/// Splitting loses and invents nothing: over any sequence of reads, what
/// was held at first followed by all that was read is everything consumed
/// (the parts handed out with their separators) followed by what is held
/// at the end.
pub proof fn lemma_split_stream_keeps_bytes(st: StreamState, reads: Seq<Seq<u8>>)
    ensures
        st.partial + st.buffered + concat_reads(reads) == feed_all(st, reads).1 + feed_all(
            st,
            reads,
        ).0.partial + feed_all(st, reads).0.buffered,
    decreases reads.len(),
{
    if reads.len() > 0 {
        let rest = reads.drop_last();
        let last = reads.last();
        lemma_split_stream_keeps_bytes(st, rest);
        let (before, eaten) = feed_all(st, rest);
        lemma_step_keeps_bytes(before, last);
        assert(st.partial + st.buffered + concat_reads(reads) =~= (st.partial + st.buffered
            + concat_reads(rest)) + last);
        assert(eaten + consumed(before, last) + next_spec(before, last).0.partial + next_spec(
            before,
            last,
        ).0.buffered =~= eaten + (consumed(before, last) + next_spec(before, last).0.partial
            + next_spec(before, last).0.buffered));
        assert(eaten + before.partial + before.buffered + last =~= eaten + (before.partial
            + before.buffered + last));
    }
}

/// The pieces of `s` between separators, in order: one more than the
/// separators it holds (`[u8]::split`).
pub open spec fn split_at_separator(s: Seq<u8>, sep: u8) -> Seq<Seq<u8>>
    decreases s.len(),
{
    match first_index_of(s, sep) {
        Some(p) => if 0 <= p < s.len() {
            seq![s.subrange(0, p)] + split_at_separator(s.subrange(p + 1, s.len() as int), sep)
        } else {
            seq![s]
        },
        None => seq![s],
    }
}

/// The pieces followed by a separator each, one after the other.
pub open spec fn joined(parts: Seq<Seq<u8>>, sep: u8) -> Seq<u8>
    decreases parts.len(),
{
    if parts.len() == 0 {
        Seq::empty()
    } else {
        parts[0] + seq![sep] + joined(parts.drop_first(), sep)
    }
}

/// `e` reads that bring nothing (the end of the stream).
pub open spec fn empty_reads(e: nat) -> Seq<Seq<u8>> {
    Seq::new(e, |i: int| Seq::<u8>::empty())
}

/// The state after a sequence of reads, and the parts handed out on the way.
pub open spec fn run_reads(st: StreamState, reads: Seq<Seq<u8>>) -> (StreamState, Seq<Seq<u8>>)
    decreases reads.len(),
{
    if reads.len() == 0 {
        (st, Seq::empty())
    } else {
        let (before, parts) = run_reads(st, reads.drop_last());
        let (after, out) = next_spec(before, reads.last());
        (
            after,
            match out {
                Some(part) => parts.push(part),
                None => parts,
            },
        )
    }
}

/// The `j`-th piece of `b` split at the separator; an empty piece past the
/// last one.
pub open spec fn piece(b: Seq<u8>, sep: u8, j: int) -> Seq<u8> {
    if j < split_at_separator(b, sep).len() {
        split_at_separator(b, sep)[j]
    } else {
        Seq::empty()
    }
}

proof fn lemma_split_no_separator(x: Seq<u8>, sep: u8)
    requires
        !x.contains(sep),
    ensures
        split_at_separator(x, sep) == seq![x],
{
    lemma_first_index_of(x, sep);
    if let Some(i) = first_index_of(x, sep) {
        assert(x.contains(sep));
    }
}

proof fn lemma_split_cons(x: Seq<u8>, y: Seq<u8>, sep: u8)
    requires
        !x.contains(sep),
    ensures
        split_at_separator(x + seq![sep] + y, sep) == seq![x] + split_at_separator(y, sep),
{
    let s = x + seq![sep] + y;
    lemma_first_index_of(s, sep);
    assert(s[x.len() as int] == sep);
    match first_index_of(s, sep) {
        Some(i) => {
            if i < x.len() {
                assert(x[i] == sep);
                assert(x.contains(sep));
            }
            if i > x.len() {
                assert(s.subrange(0, i)[x.len() as int] == sep);
                assert(s.subrange(0, i).contains(sep));
            }
            assert(s.subrange(0, i) =~= x);
            assert(s.subrange(i + 1, s.len() as int) =~= y);
        },
        None => {
            assert(s.contains(sep));
        },
    }
}

proof fn lemma_joined_push(parts: Seq<Seq<u8>>, x: Seq<u8>, sep: u8)
    ensures
        joined(parts.push(x), sep) == joined(parts, sep) + x + seq![sep],
    decreases parts.len(),
{
    if parts.len() == 0 {
        assert(parts.push(x).drop_first() =~= Seq::<Seq<u8>>::empty());
        assert(parts.push(x)[0] == x);
        assert(joined(Seq::<Seq<u8>>::empty(), sep) == Seq::<u8>::empty());
        assert(joined(parts.push(x), sep) =~= x + seq![sep] + Seq::<u8>::empty());
        assert(joined(parts, sep) + x + seq![sep] =~= x + seq![sep]);
    } else {
        lemma_joined_push(parts.drop_first(), x, sep);
        assert(parts.push(x).drop_first() =~= parts.drop_first().push(x));
        assert(parts.push(x)[0] == parts[0]);
        assert(joined(parts.push(x), sep) =~= joined(parts, sep) + x + seq![sep]);
    }
}

proof fn lemma_split_joined(parts: Seq<Seq<u8>>, y: Seq<u8>, sep: u8)
    requires
        forall|i: int| 0 <= i < parts.len() ==> !(#[trigger] parts[i]).contains(sep),
    ensures
        split_at_separator(joined(parts, sep) + y, sep) == parts + split_at_separator(y, sep),
    decreases parts.len(),
{
    if parts.len() == 0 {
        assert(joined(parts, sep) + y =~= y);
        assert(parts + split_at_separator(y, sep) =~= split_at_separator(y, sep));
    } else {
        let rest = parts.drop_first();
        assert forall|i: int| 0 <= i < rest.len() implies !(#[trigger] rest[i]).contains(sep) by {
            assert(rest[i] == parts[i + 1]);
        }
        lemma_split_joined(rest, y, sep);
        assert(joined(parts, sep) + y =~= parts[0] + seq![sep] + (joined(rest, sep) + y));
        assert(!parts[0].contains(sep));
        lemma_split_cons(parts[0], joined(rest, sep) + y, sep);
        assert(seq![parts[0]] + (rest + split_at_separator(y, sep)) =~= parts
            + split_at_separator(y, sep));
    }
}

/// While every read brings bytes: what was read is the parts handed out,
/// each followed by the separator, then what is held.
proof fn lemma_reading(st0: StreamState, reads: Seq<Seq<u8>>)
    requires
        st0.buffered == Seq::<u8>::empty(),
        st0.partial == Seq::<u8>::empty(),
        forall|i: int| 0 <= i < reads.len() ==> (#[trigger] reads[i]).len() > 0,
    ensures
        ({
            let (st, parts) = run_reads(st0, reads);
            &&& concat_reads(reads) == joined(parts, st0.separator) + st.partial + st.buffered
            &&& forall|i: int|
                0 <= i < parts.len() ==> !(#[trigger] parts[i]).contains(st0.separator)
            &&& !st.partial.contains(st0.separator)
            &&& st.separator == st0.separator
        }),
    decreases reads.len(),
{
    let sep = st0.separator;
    if reads.len() == 0 {
        assert(!Seq::<u8>::empty().contains(sep));
        assert(concat_reads(reads) =~= joined(Seq::<Seq<u8>>::empty(), sep) + st0.partial
            + st0.buffered);
    } else {
        let rest = reads.drop_last();
        let r = reads.last();
        assert forall|i: int| 0 <= i < rest.len() implies (#[trigger] rest[i]).len() > 0 by {
            assert(rest[i] == reads[i]);
        }
        lemma_reading(st0, rest);
        let (b, parts) = run_reads(st0, rest);
        lemma_step_keeps_bytes(b, r);
        lemma_step_parts_clean(b, r);
        let all = b.buffered + r;
        lemma_first_index_of(all, sep);
        let after = next_spec(b, r).0;
        assert(r.len() > 0);
        match first_index_of(all, sep) {
            Some(p) => {
                let x = b.partial + all.subrange(0, p);
                assert(consumed(b, r) =~= x + seq![sep]);
                lemma_joined_push(parts, x, sep);
                assert(concat_reads(reads) =~= joined(parts, sep) + (b.partial + b.buffered + r));
                assert(concat_reads(reads) =~= joined(parts.push(x), sep) + after.partial
                    + after.buffered);
                assert forall|i: int|
                    0 <= i < parts.push(x).len() implies !(#[trigger] parts.push(x)[i]).contains(
                    sep,
                ) by {
                    if i < parts.len() {
                        assert(parts.push(x)[i] == parts[i]);
                    }
                }
            },
            None => {
                assert(consumed(b, r) =~= Seq::<u8>::empty());
                assert(concat_reads(reads) =~= joined(parts, sep) + (b.partial + b.buffered + r));
                assert(concat_reads(reads) =~= joined(parts, sep) + after.partial
                    + after.buffered);
            },
        }
    }
}

/// After the bytes, each empty read hands out the next piece: the parts so
/// far and the pieces of what is held are the pieces of all that was read,
/// followed by `z` empty pieces.
proof fn lemma_draining(st0: StreamState, reads: Seq<Seq<u8>>, e: nat) -> (z: nat)
    requires
        st0.buffered == Seq::<u8>::empty(),
        st0.partial == Seq::<u8>::empty(),
        forall|i: int| 0 <= i < reads.len() ==> (#[trigger] reads[i]).len() > 0,
    ensures
        ({
            let (st, parts) = run_reads(st0, reads + empty_reads(e));
            &&& parts + split_at_separator(st.partial + st.buffered, st0.separator)
                == split_at_separator(concat_reads(reads), st0.separator) + empty_reads(z)
            &&& !st.partial.contains(st0.separator)
            &&& st.separator == st0.separator
            &&& parts.len() == run_reads(st0, reads).1.len() + e
        }),
    decreases e,
{
    let sep = st0.separator;
    if e == 0 {
        assert(reads + empty_reads(0) =~= reads);
        lemma_reading(st0, reads);
        let (st, parts) = run_reads(st0, reads);
        lemma_split_joined(parts, st.partial + st.buffered, sep);
        assert(joined(parts, sep) + st.partial + st.buffered =~= joined(parts, sep) + (st.partial
            + st.buffered));
        assert(split_at_separator(concat_reads(reads), sep) + empty_reads(0)
            =~= split_at_separator(concat_reads(reads), sep));
        0
    } else {
        let z0 = lemma_draining(st0, reads, (e - 1) as nat);
        let all_reads = reads + empty_reads(e);
        assert(all_reads.drop_last() =~= reads + empty_reads((e - 1) as nat));
        assert(all_reads.last() == Seq::<u8>::empty());
        let (b, parts) = run_reads(st0, reads + empty_reads((e - 1) as nat));
        let r = Seq::<u8>::empty();
        let all = b.buffered + r;
        assert(all =~= b.buffered);
        lemma_first_index_of(all, sep);
        lemma_step_parts_clean(b, r);
        let (after, out) = next_spec(b, r);
        let held = b.partial + b.buffered;
        match first_index_of(all, sep) {
            Some(p) => {
                let x = b.partial + all.subrange(0, p);
                let rest = all.subrange(p + 1, all.len() as int);
                assert(held =~= x + seq![sep] + rest);
                lemma_split_cons(x, rest, sep);
                assert(after.partial + after.buffered =~= rest);
                assert(parts.push(x) + split_at_separator(rest, sep) =~= parts
                    + split_at_separator(held, sep));
                z0
            },
            None => {
                let x = b.partial + all;
                assert(x =~= held);
                lemma_split_no_separator(held, sep);
                assert(!Seq::<u8>::empty().contains(sep));
                lemma_split_no_separator(Seq::<u8>::empty(), sep);
                assert(after.partial + after.buffered =~= Seq::<u8>::empty());
                assert(parts.push(x) + split_at_separator(after.partial + after.buffered, sep)
                    =~= parts + split_at_separator(held, sep) + seq![Seq::<u8>::empty()]);
                assert(split_at_separator(concat_reads(reads), sep) + empty_reads(z0)
                    + seq![Seq::<u8>::empty()] =~= split_at_separator(concat_reads(reads), sep)
                    + empty_reads(z0 + 1));
                z0 + 1
            },
        }
    }
}

/// The stream hands out its input split at the separator. Starting empty,
/// over reads that each bring bytes `B` in all, followed by `e` empty reads
/// (the end of the stream): the reads bring as many parts as while reading,
/// plus one for each empty read, and the `j`-th part is the `j`-th piece of
/// `B` split at the separator (an empty part past the last piece). Neither
/// the sizes of the reads nor the size of the buffer play a part.
pub proof fn lemma_split_stream_splits(sep: u8, reads: Seq<Seq<u8>>, e: nat)
    requires
        forall|i: int| 0 <= i < reads.len() ==> (#[trigger] reads[i]).len() > 0,
    ensures
        ({
            let st0 = StreamState {
                buffered: Seq::empty(),
                partial: Seq::empty(),
                separator: sep,
            };
            let parts = run_reads(st0, reads + empty_reads(e)).1;
            &&& parts.len() == run_reads(st0, reads).1.len() + e
            &&& forall|j: int|
                0 <= j < parts.len() ==> #[trigger] parts[j] == piece(
                    concat_reads(reads),
                    sep,
                    j,
                )
        }),
{
    let st0 = StreamState { buffered: Seq::empty(), partial: Seq::empty(), separator: sep };
    let z = lemma_draining(st0, reads, e);
    let (st, parts) = run_reads(st0, reads + empty_reads(e));
    let whole = parts + split_at_separator(st.partial + st.buffered, sep);
    let pieces = split_at_separator(concat_reads(reads), sep);
    assert(whole.len() == pieces.len() + z);
    assert forall|j: int| 0 <= j < parts.len() implies #[trigger] parts[j] == piece(
        concat_reads(reads),
        sep,
        j,
    ) by {
        assert(whole[j] == parts[j]);
        assert(whole[j] == (pieces + empty_reads(z))[j]);
        if j < pieces.len() {
            assert((pieces + empty_reads(z))[j] == pieces[j]);
        } else {
            assert((pieces + empty_reads(z))[j] == empty_reads(z)[j - pieces.len()]);
        }
    }
}

/// Two streams fed the same bytes in reads of any sizes hand out the same
/// parts, one for one, as far as both go.
pub proof fn lemma_split_ignores_read_sizes(
    sep: u8,
    reads1: Seq<Seq<u8>>,
    e1: nat,
    reads2: Seq<Seq<u8>>,
    e2: nat,
)
    requires
        forall|i: int| 0 <= i < reads1.len() ==> (#[trigger] reads1[i]).len() > 0,
        forall|i: int| 0 <= i < reads2.len() ==> (#[trigger] reads2[i]).len() > 0,
        concat_reads(reads1) == concat_reads(reads2),
    ensures
        ({
            let st0 = StreamState {
                buffered: Seq::empty(),
                partial: Seq::empty(),
                separator: sep,
            };
            let parts1 = run_reads(st0, reads1 + empty_reads(e1)).1;
            let parts2 = run_reads(st0, reads2 + empty_reads(e2)).1;
            forall|j: int|
                0 <= j < parts1.len() && 0 <= j < parts2.len() ==> #[trigger] parts1[j]
                    == parts2[j]
        }),
{
    lemma_split_stream_splits(sep, reads1, e1);
    lemma_split_stream_splits(sep, reads2, e2);
}

impl<const N: usize> SplitStream<N> {
    #[verifier::type_invariant]
    spec fn wf(&self) -> bool {
        &&& self.buffered@.len() <= N
        &&& !self.partial@.contains(self.separator)
    }

    /// The state of the stream.
    pub closed spec fn state(&self) -> StreamState {
        StreamState { buffered: self.buffered@, partial: self.partial@, separator: self.separator }
    }

    /// A stream that splits at `separator`, with nothing read yet.
    pub fn new(separator: u8) -> (r: SplitStream<N>)
        ensures
            r.state() == (StreamState {
                buffered: Seq::empty(),
                partial: Seq::empty(),
                separator,
            }),
    {
        SplitStream { buffered: Vec::new(), separator, partial: Vec::new() }
    }

    /// How many bytes the next read may bring: the room left in the buffer.
    pub fn free_space(&self) -> (r: usize)
        ensures
            r == N - self.state().buffered.len(),
    {
        proof {
            use_type_invariant(self);
        }
        N - self.buffered.len()
    }

    /// Takes the bytes of one read (none at the end of the stream) and hands
    /// out the next part, if it is complete. No part holds the separator,
    /// and what was held and read is what is handed out, with the separator
    /// that ended it, and what is held afterwards.
    pub fn next(&mut self, read: &[u8]) -> (r: Option<Vec<u8>>)
        requires
            read@.len() <= N - old(self).state().buffered.len(),
        ensures
            final(self).state() == next_spec(old(self).state(), read@).0,
            opt_bytes(r) == next_spec(old(self).state(), read@).1,
            match r {
                Some(part) => !part@.contains(old(self).state().separator),
                None => true,
            },
            old(self).state().partial + old(self).state().buffered + read@ == consumed(
                old(self).state(),
                read@,
            ) + final(self).state().partial + final(self).state().buffered,
            final(self).state().separator == old(self).state().separator,
    {
        proof {
            use_type_invariant(&*self);
        }
        let ghost st = self.state();
        let sep = self.separator;
        let mut all: Vec<u8> = Vec::new();
        append_bytes(&mut all, self.buffered.as_slice(), 0, self.buffered.len());
        append_bytes(&mut all, read, 0, read.len());
        assert(self.buffered@.subrange(0, self.buffered@.len() as int) =~= st.buffered);
        assert(read@.subrange(0, read@.len() as int) =~= read@);
        assert(all@ =~= st.buffered + read@);
        let ghost full = all@;
        proof {
            lemma_first_index_of(full, sep);
            lemma_step_keeps_bytes(st, read@);
            lemma_step_parts_clean(st, read@);
        }
        let mut p: usize = 0;
        while p < all.len() && all[p] != sep
            invariant
                p <= all@.len(),
                forall|k: int| 0 <= k < p ==> all@[k] != sep,
            decreases all@.len() - p,
        {
            p = p + 1;
        }
        let mut part: Vec<u8> = Vec::new();
        append_bytes(&mut part, self.partial.as_slice(), 0, self.partial.len());
        assert(self.partial@.subrange(0, self.partial@.len() as int) =~= st.partial);
        if p < all.len() {
            assert(first_index_of(full, sep) == Some(p as int)) by {
                match first_index_of(full, sep) {
                    Some(q) => {
                        if q > p {
                            assert(full.subrange(0, q)[p as int] == sep);
                        }
                    },
                    None => {
                        assert(full[p as int] == sep);
                    },
                }
            }
            append_bytes(&mut part, all.as_slice(), 0, p);
            let mut rest: Vec<u8> = Vec::new();
            append_bytes(&mut rest, all.as_slice(), p + 1, all.len());
            assert(rest@.len() <= N);
            self.buffered = rest;
            self.partial = Vec::new();
            assert(self.partial@ =~= Seq::<u8>::empty());
            Some(part)
        } else {
            assert(first_index_of(full, sep) is None) by {
                if let Some(q) = first_index_of(full, sep) {
                    assert(all@[q] == sep);
                }
            }
            append_bytes(&mut part, all.as_slice(), 0, all.len());
            assert(all@.subrange(0, all@.len() as int) =~= full);
            self.buffered = Vec::new();
            assert(self.buffered@ =~= Seq::<u8>::empty());
            if read.len() == 0 {
                self.partial = Vec::new();
                assert(self.partial@ =~= Seq::<u8>::empty());
                Some(part)
            } else {
                self.partial = part;
                None
            }
        }
    }
}

} // verus!
