use vstd::prelude::*;

use vstd::utf8::{
    decode_utf8, decode_utf8_encode_utf8, encode_scalar, encode_utf8, has_width_1_encoding,
    leading_byte_width_1, valid_utf8,
};

use crate::text::utf8_string;

verus! {

broadcast use vstd::std_specs::vec::group_vec_axioms;

/// Line `i` (counted from 0) lies between `line_from` and `line_to`, both
/// included, each taken as a `usize` the way `as` converts it.
pub open spec fn in_range(i: int, line_from: i64, line_to: i64) -> bool {
    i >= (line_from as usize) as int && i <= (line_to as usize) as int
}

/// The lines joined by newlines.
pub open spec fn join_lines(parts: Seq<Seq<char>>) -> Seq<char>
    decreases parts.len(),
{
    if parts.len() == 0 {
        Seq::empty()
    } else if parts.len() == 1 {
        parts[0]
    } else {
        join_lines(parts.drop_last()) + "\n"@ + parts.last()
    }
}

proof fn lemma_join_push(parts: Seq<Seq<char>>, x: Seq<char>)
    ensures
        join_lines(parts.push(x)) == if parts.len() == 0 {
            x
        } else {
            join_lines(parts) + "\n"@ + x
        },
{
    assert(parts.push(x).drop_last() =~= parts);
}

/// Appends `line` as the next of the joined lines held in `out`; `first`
/// tells whether no line was joined yet.
fn push_line(out: &mut String, first: bool, parts: Ghost<Seq<Seq<char>>>, line: &str)
    requires
        old(out)@ == join_lines(parts@),
        first == (parts@.len() == 0),
    ensures
        final(out)@ == join_lines(parts@.push(line@)),
{
    proof {
        lemma_join_push(parts@, line@);
    }
    if !first {
        out.append("\n");
    }
    out.append(line);
}

/// The positions, in order, of the line feeds among the first `n` bytes.
pub open spec fn newlines_upto(data: Seq<u8>, n: int) -> Seq<int>
    decreases n,
{
    if n <= 0 {
        Seq::empty()
    } else if data[n - 1] == 10u8 {
        newlines_upto(data, n - 1).push(n - 1)
    } else {
        newlines_upto(data, n - 1)
    }
}

/// The positions, in order, of all line feeds.
pub open spec fn newlines(data: Seq<u8>) -> Seq<int> {
    newlines_upto(data, data.len() as int)
}

/// The number of lines of a file, as `BufRead::lines` counts them: a line
/// feed ends a line, and bytes after the last one make one more line.
pub open spec fn line_count(data: Seq<u8>) -> int {
    if data.len() == 0 {
        0
    } else if data.last() == 10u8 {
        newlines(data).len() as int
    } else {
        newlines(data).len() + 1int
    }
}

/// Where line `k` (from 0) starts: after the `k`-th line feed.
pub open spec fn line_begin(data: Seq<u8>, k: int) -> int {
    if k <= 0 {
        0
    } else {
        newlines(data)[k - 1] + 1
    }
}

/// Where the text of line `k` ends: before its line ending (a line feed, or
/// a carriage return and a line feed), or at the end of the file.
pub open spec fn line_text_end(data: Seq<u8>, k: int) -> int {
    let nl = newlines(data);
    if k < nl.len() {
        if nl[k] > 0 && data[nl[k] - 1] == 13u8 {
            nl[k] - 1
        } else {
            nl[k]
        }
    } else {
        data.len() as int
    }
}

/// The text of line `k`, without its line ending.
pub open spec fn line_text(data: Seq<u8>, k: int) -> Seq<u8> {
    data.subrange(line_begin(data, k), line_text_end(data, k))
}

/// The texts of the lines below `n` that lie in the range and are valid
/// UTF-8, in order.
pub open spec fn selected_upto(data: Seq<u8>, line_from: i64, line_to: i64, n: int) -> Seq<
    Seq<char>,
>
    decreases n,
{
    if n <= 0 {
        Seq::empty()
    } else {
        let rest = selected_upto(data, line_from, line_to, n - 1);
        if in_range(n - 1, line_from, line_to) && valid_utf8(line_text(data, n - 1)) {
            rest.push(decode_utf8(line_text(data, n - 1)))
        } else {
            rest
        }
    }
}

/// The lines that `ReadLines` shows: those from `line_from` up to and
/// including `line_to` that are valid UTF-8, without their line endings.
pub open spec fn selected_lines(data: Seq<u8>, line_from: i64, line_to: i64) -> Seq<Seq<char>> {
    selected_upto(data, line_from, line_to, line_count(data))
}

/// A file after `EditFile`: where the range starts at a line of the file,
/// everything from the start of line `line_from` to the end of the text of
/// line `line_to` (or of the last line, where the range runs past it) is
/// replaced by `content`; every other byte stays. Otherwise the file stays.
pub open spec fn edited_bytes(data: Seq<u8>, line_from: i64, line_to: i64, content: Seq<u8>) -> Seq<
    u8,
> {
    let f = (line_from as usize) as int;
    let t = (line_to as usize) as int;
    let n = line_count(data);
    if f < n && f <= t {
        let last = if t < n {
            t
        } else {
            n - 1
        };
        data.subrange(0, line_begin(data, f)) + content + data.subrange(
            line_text_end(data, last),
            data.len() as int,
        )
    } else {
        data
    }
}

/// The line feeds below `n`: they lie below `n`, rise, are line feeds, and
/// every line feed below `n` is among them.
pub proof fn lemma_newlines(data: Seq<u8>, n: int)
    requires
        0 <= n <= data.len(),
    ensures
        forall|k: int|
            0 <= k < newlines_upto(data, n).len() ==> 0 <= #[trigger] newlines_upto(data, n)[k]
                < n && data[newlines_upto(data, n)[k]] == 10u8,
        forall|j: int, k: int|
            0 <= j < k < newlines_upto(data, n).len() ==> newlines_upto(data, n)[j]
                < newlines_upto(data, n)[k],
        forall|q: int| 0 <= q < n && data[q] == 10u8 ==> newlines_upto(data, n).contains(q),
        newlines_upto(data, n).len() <= n,
    decreases n,
{
    if n > 0 {
        lemma_newlines(data, n - 1);
        let prev = newlines_upto(data, n - 1);
        assert forall|q: int| 0 <= q < n && data[q] == 10u8 implies newlines_upto(
            data,
            n,
        ).contains(q) by {
            if q < n - 1 {
                let k = choose|k: int| 0 <= k < prev.len() && prev[k] == q;
                if data[n - 1] == 10u8 {
                    assert(prev.push(n - 1)[k] == q);
                }
            } else {
                assert(newlines_upto(data, n)[prev.len() as int] == q);
            }
        }
    }
}

/// The line feeds before `n1` are the first of those before `n2 >= n1`; the
/// others lie at or after `n1`.
pub proof fn lemma_newlines_prefix(data: Seq<u8>, n1: int, n2: int)
    requires
        0 <= n1 <= n2 <= data.len(),
    ensures
        newlines_upto(data, n1).len() <= newlines_upto(data, n2).len(),
        newlines_upto(data, n2).take(newlines_upto(data, n1).len() as int) == newlines_upto(
            data,
            n1,
        ),
        forall|k: int|
            newlines_upto(data, n1).len() <= k < newlines_upto(data, n2).len() ==> n1
                <= #[trigger] newlines_upto(data, n2)[k],
    decreases n2,
{
    if n2 > n1 {
        lemma_newlines_prefix(data, n1, n2 - 1);
        let a = newlines_upto(data, n1);
        let b = newlines_upto(data, n2 - 1);
        if data[n2 - 1] == 10u8 {
            assert(b.push(n2 - 1).take(a.len() as int) =~= b.take(a.len() as int));
        }
    } else {
        assert(newlines_upto(data, n2).take(newlines_upto(data, n1).len() as int) =~= newlines_upto(
            data,
            n1,
        ));
    }
}

/// The lines of a file are in order and inside it: line `f` starts no later
/// than the text of line `t >= f` ends, within the file.
pub proof fn lemma_line_bounds(data: Seq<u8>, f: int, t: int)
    requires
        0 <= f <= t < line_count(data),
    ensures
        0 <= line_begin(data, f) <= line_begin(data, t) <= line_text_end(data, t) <= data.len(),
{
    let nl = newlines(data);
    lemma_newlines(data, data.len() as int);
    if f > 0 && f < t {
        assert(nl[f - 1] < nl[t - 1]);
    }
    if t < nl.len() {
        if t > 0 {
            assert(nl[t - 1] < nl[t]);
        }
    }
}

/// The line feeds of some bytes, in order.
fn newline_positions(data: &[u8]) -> (r: Vec<usize>)
    ensures
        r@.len() == newlines(data@).len(),
        forall|k: int| 0 <= k < r@.len() ==> #[trigger] r@[k] as int == newlines(data@)[k],
{
    let mut r: Vec<usize> = Vec::new();
    let mut i: usize = 0;
    while i < data.len()
        invariant
            i <= data@.len(),
            r@.len() == newlines_upto(data@, i as int).len(),
            forall|k: int|
                0 <= k < r@.len() ==> #[trigger] r@[k] as int == newlines_upto(data@, i as int)[k],
        decreases data@.len() - i,
    {
        if data[i] == 10u8 {
            r.push(i);
        }
        i = i + 1;
    }
    r
}

/// The number of lines, from the line feeds.
fn count_lines(data: &[u8], nl: &Vec<usize>) -> (r: usize)
    requires
        nl@.len() == newlines(data@).len(),
    ensures
        r as int == line_count(data@),
{
    proof {
        lemma_newlines(data@, data@.len() as int);
        assert(newlines(data@).len() <= data@.len());
    }
    if data.len() == 0 {
        0
    } else if data[data.len() - 1] == 10u8 {
        nl.len()
    } else {
        proof {
            lemma_newlines(data@, data@.len() - 1);
        }
        nl.len() + 1
    }
}

/// The line feeds among the first `n` bytes depend on those bytes alone.
proof fn lemma_newlines_same(d1: Seq<u8>, d2: Seq<u8>, n: int)
    requires
        0 <= n <= d1.len(),
        n <= d2.len(),
        forall|i: int| 0 <= i < n ==> d1[i] == d2[i],
    ensures
        newlines_upto(d1, n) == newlines_upto(d2, n),
    decreases n,
{
    if n > 0 {
        lemma_newlines_same(d1, d2, n - 1);
    }
}

/// The line feeds of two byte strings one after the other: those of the
/// first, then those of the second moved past the first.
proof fn lemma_newlines_concat(a: Seq<u8>, b: Seq<u8>, m: int)
    requires
        0 <= m <= b.len(),
    ensures
        newlines_upto(a + b, a.len() + m) == newlines(a) + newlines_upto(b, m).map_values(
            |p: int| p + a.len(),
        ),
    decreases m,
{
    let f = |p: int| p + a.len();
    if m == 0 {
        lemma_newlines_same(a + b, a, a.len() as int);
        assert(newlines_upto(b, 0).map_values(f) =~= Seq::<int>::empty());
        assert(newlines(a) + Seq::<int>::empty() =~= newlines(a));
    } else {
        lemma_newlines_concat(a, b, m - 1);
        let n = a.len() + m;
        assert((a + b)[n - 1] == b[m - 1]);
        let nb = newlines_upto(b, m - 1);
        if b[m - 1] == 10u8 {
            nb.lemma_push_map_commute(f, m - 1);
            assert(newlines(a) + nb.map_values(f).push(f(m - 1)) =~= (newlines(a) + nb.map_values(
                f,
            )).push(n - 1));
        }
    }
}

/// Bytes without a line feed hold none.
proof fn lemma_no_newlines(c: Seq<u8>)
    requires
        forall|i: int| 0 <= i < c.len() ==> c[i] != 10u8,
    ensures
        newlines(c) == Seq::<int>::empty(),
{
    lemma_newlines(c, c.len() as int);
    if newlines(c).len() > 0 {
        assert(c[newlines(c)[0]] == 10u8);
    }
    assert(newlines(c) =~= Seq::<int>::empty());
}

/// The line feeds before the start of line `f` are the first `f`; those
/// before the end of the text of line `t` are the first `t`.
proof fn lemma_newlines_before_lines(data: Seq<u8>, f: int, t: int)
    requires
        0 <= f <= t < line_count(data),
    ensures
        newlines_upto(data, line_begin(data, f)) == newlines(data).take(f),
        newlines_upto(data, line_text_end(data, t)) == newlines(data).take(t),
{
    let nl = newlines(data);
    let len = data.len() as int;
    lemma_newlines(data, len);
    lemma_line_bounds(data, f, t);
    let p = line_begin(data, f);
    let e = line_text_end(data, t);
    lemma_newlines_prefix(data, p, len);
    lemma_newlines_prefix(data, e, len);
    lemma_newlines(data, p);
    lemma_newlines(data, e);
    let np = newlines_upto(data, p);
    let ne = newlines_upto(data, e);
    if f > 0 {
        if np.len() < f {
            assert(nl[f - 1] >= p);
        }
        if np.len() > f {
            assert(np[f] == nl[f]);
            assert(nl[f - 1] < nl[f]);
        }
    }
    assert(np.len() == f);
    if t < nl.len() {
        if ne.len() > t {
            assert(ne[t] == nl[t]);
        }
        if ne.len() < t {
            assert(nl[t - 1] >= e);
            assert(line_begin(data, t) <= e);
        }
    } else {
        assert(e == len);
        assert(newlines_upto(data, len) == nl);
    }
    assert(ne.len() == t);
}

/// How an edited file is laid out: the bytes before line `f`, the new
/// text, the bytes after the text of line `t`; its line feeds are the first
/// `f` of the file's and those after the `t`-th, moved.
proof fn lemma_edit_layout(
    data: Seq<u8>,
    line_from: i64,
    line_to: i64,
    content: Seq<u8>,
    f: int,
    t: int,
)
    requires
        (line_from as usize) as int == f,
        (line_to as usize) as int == t,
        0 <= f <= t < line_count(data),
        forall|i: int| 0 <= i < content.len() ==> content[i] != 10u8,
    ensures
        ({
            let edited = edited_bytes(data, line_from, line_to, content);
            let nl = newlines(data);
            let ne = newlines(edited);
            let p = line_begin(data, f);
            let e = line_text_end(data, t);
            let d = p + content.len() - e;
            &&& 0 <= p <= e <= data.len()
            &&& edited.len() == data.len() + d
            &&& forall|i: int| 0 <= i < p ==> #[trigger] edited[i] == data[i]
            &&& forall|i: int| 0 <= i < content.len() ==> #[trigger] edited[p + i] == content[i]
            &&& forall|i: int| e <= i < data.len() ==> #[trigger] edited[i + d] == data[i]
            &&& ne.len() == f + nl.len() - t
            &&& forall|k: int| 0 <= k < f ==> #[trigger] ne[k] == nl[k]
            &&& forall|j: int| 0 <= j < nl.len() - t ==> #[trigger] ne[f + j] == nl[t + j] + d
        }),
{
    let nl = newlines(data);
    let len = data.len() as int;
    lemma_line_bounds(data, f, t);
    lemma_newlines_before_lines(data, f, t);
    let p = line_begin(data, f);
    let e = line_text_end(data, t);
    let c = content.len() as int;
    let d = p + c - e;
    let pre = data.subrange(0, p);
    let sfx = data.subrange(e, len);
    let edited = edited_bytes(data, line_from, line_to, content);
    assert(edited == pre + content + sfx);
    assert(data =~= data.subrange(0, e) + sfx);
    lemma_newlines_concat(data.subrange(0, e), sfx, sfx.len() as int);
    lemma_newlines_same(data.subrange(0, e), data, e);
    let ns = newlines(sfx);
    let shift_e = |q: int| q + e;
    assert(nl == nl.take(t) + ns.map_values(shift_e));
    assert(ns.len() == nl.len() - t);
    lemma_newlines_same(pre, data, p);
    lemma_no_newlines(content);
    lemma_newlines_concat(pre, content, c);
    assert(newlines_upto(content, c).map_values(|q: int| q + pre.len()) =~= Seq::<int>::empty());
    assert(newlines(pre + content) =~= nl.take(f));
    lemma_newlines_concat(pre + content, sfx, sfx.len() as int);
    let ne = newlines(edited);
    let shift_pc = |q: int| q + (pre + content).len();
    assert(ne == nl.take(f) + ns.map_values(shift_pc));
    assert forall|k: int| 0 <= k < f implies #[trigger] ne[k] == nl[k] by {
        assert((nl.take(f) + ns.map_values(shift_pc))[k] == nl.take(f)[k]);
    }
    assert forall|j: int| 0 <= j < nl.len() - t implies #[trigger] ne[f + j] == nl[t + j] + d by {
        assert((nl.take(f) + ns.map_values(shift_pc))[f + j] == ns.map_values(shift_pc)[j]);
        assert((nl.take(t) + ns.map_values(shift_e))[t + j] == ns.map_values(shift_e)[j]);
    }
    assert forall|i: int| 0 <= i < p implies #[trigger] edited[i] == data[i] by {
        assert(edited[i] == pre[i]);
    }
    assert forall|i: int| e <= i < len implies #[trigger] edited[i + d] == data[i] by {
        assert(edited[i + d] == sfx[i - e]);
    }
}

/// The lines before the edited ones read as before.
proof fn lemma_edit_keeps_before(
    data: Seq<u8>,
    line_from: i64,
    line_to: i64,
    content: Seq<u8>,
    f: int,
    t: int,
    k: int,
)
    requires
        (line_from as usize) as int == f,
        (line_to as usize) as int == t,
        0 <= f <= t < line_count(data),
        forall|i: int| 0 <= i < content.len() ==> content[i] != 10u8,
        0 <= k < f,
    ensures
        line_text(edited_bytes(data, line_from, line_to, content), k) == line_text(data, k),
{
    let edited = edited_bytes(data, line_from, line_to, content);
    let nl = newlines(data);
    let ne = newlines(edited);
    let p = line_begin(data, f);
    lemma_edit_layout(data, line_from, line_to, content, f, t);
    lemma_newlines(data, data.len() as int);
    lemma_line_bounds(data, k, k);
    if k > 0 {
        assert(ne[k - 1] == nl[k - 1]);
    }
    assert(ne[k] == nl[k]);
    assert(nl[k] <= nl[f - 1]);
    if nl[k] > 0 {
        assert(edited[nl[k] - 1] == data[nl[k] - 1]);
    }
    assert(line_text_end(edited, k) == line_text_end(data, k));
    assert(line_begin(edited, k) == line_begin(data, k));
    assert(line_text(edited, k) =~= line_text(data, k));
}

/// The edited line reads as the new text.
proof fn lemma_edit_line(
    data: Seq<u8>,
    line_from: i64,
    line_to: i64,
    content: Seq<u8>,
    f: int,
    t: int,
)
    requires
        (line_from as usize) as int == f,
        (line_to as usize) as int == t,
        0 <= f <= t < line_count(data),
        forall|i: int| 0 <= i < content.len() ==> content[i] != 10u8,
        content.len() == 0 || content.last() != 13u8,
    ensures
        line_text(edited_bytes(data, line_from, line_to, content), f) == content,
{
    let edited = edited_bytes(data, line_from, line_to, content);
    let nl = newlines(data);
    let ne = newlines(edited);
    let p = line_begin(data, f);
    let e = line_text_end(data, t);
    let c = content.len() as int;
    let d = p + c - e;
    lemma_edit_layout(data, line_from, line_to, content, f, t);
    lemma_newlines(data, data.len() as int);
    assert(line_begin(edited, f) == p) by {
        if f > 0 {
            assert(ne[f - 1] == nl[f - 1]);
        }
    }
    assert(line_text_end(edited, f) == p + c) by {
        if t < nl.len() {
            assert(ne[f + 0] == nl[t + 0] + d);
            if nl[t] > 0 && data[nl[t] - 1] == 13u8 {
                assert(e == nl[t] - 1);
                assert(edited[e + d] == data[e]);
            } else {
                assert(e == nl[t]);
                if c > 0 {
                    assert(edited[p + (c - 1)] == content[c - 1]);
                } else if p > 0 {
                    assert(edited[p - 1] == data[p - 1]);
                    assert(nl[f - 1] == p - 1);
                }
            }
        }
    }
    assert forall|i: int| 0 <= i < c implies edited.subrange(p, p + c)[i] == content[i] by {
        assert(edited[p + i] == content[i]);
    }
    assert(line_text(edited, f) =~= content);
}

/// A line after the edited ones reads as before, moved up.
proof fn lemma_edit_keeps_after(
    data: Seq<u8>,
    line_from: i64,
    line_to: i64,
    content: Seq<u8>,
    f: int,
    t: int,
    k: int,
)
    requires
        (line_from as usize) as int == f,
        (line_to as usize) as int == t,
        0 <= f <= t < line_count(data),
        forall|i: int| 0 <= i < content.len() ==> content[i] != 10u8,
        t < k < line_count(data),
    ensures
        line_text(edited_bytes(data, line_from, line_to, content), k - (t - f)) == line_text(
            data,
            k,
        ),
{
    let edited = edited_bytes(data, line_from, line_to, content);
    let nl = newlines(data);
    let ne = newlines(edited);
    let p = line_begin(data, f);
    let e = line_text_end(data, t);
    let d = p + content.len() - e;
    let j = k - (t - f);
    lemma_edit_layout(data, line_from, line_to, content, f, t);
    lemma_newlines(data, data.len() as int);
    lemma_line_bounds(data, k, k);
    assert(ne[f + (k - 1 - t)] == nl[t + (k - 1 - t)] + d);
    assert(line_begin(edited, j) == line_begin(data, k) + d);
    assert(t < nl.len());
    assert(nl[t] >= e);
    assert(line_begin(data, k) >= e + 1) by {
        if k - 1 > t {
            assert(nl[k - 1] > nl[t]);
        }
    }
    if k < nl.len() {
        assert(ne[f + (k - t)] == nl[t + (k - t)] + d);
        assert(nl[k] > nl[t]);
        assert(edited[(nl[k] - 1) + d] == data[nl[k] - 1]);
    }
    assert(line_text_end(edited, j) == line_text_end(data, k) + d);
    let b = line_begin(data, k);
    let x = line_text_end(data, k);
    assert forall|i: int| 0 <= i < x - b implies edited.subrange(b + d, x + d)[i] == data.subrange(
        b,
        x,
    )[i] by {
        assert(edited[(b + i) + d] == data[b + i]);
    }
    assert(line_text(edited, j) =~= line_text(data, k));
}

/// What `EditFile` writes reads back: after lines `line_from` up to
/// `line_to` of a file were replaced by a text without line feeds (that
/// does not end in a carriage return), the lines before them read as
/// before, line `line_from` reads as that text, and the lines after them
/// read as before, each moved up by the number of lines taken out; where
/// the text is not empty, the file has that many lines fewer.
pub proof fn lemma_edit_read_back(
    data: Seq<u8>,
    line_from: i64,
    line_to: i64,
    content: Seq<u8>,
    f: int,
    t: int,
)
    requires
        (line_from as usize) as int == f,
        (line_to as usize) as int == t,
        0 <= f <= t < line_count(data),
        forall|i: int| 0 <= i < content.len() ==> content[i] != 10u8,
        content.len() == 0 || content.last() != 13u8,
    ensures
        forall|k: int|
            0 <= k < f ==> line_text(edited_bytes(data, line_from, line_to, content), k)
                == #[trigger] line_text(data, k),
        line_text(edited_bytes(data, line_from, line_to, content), f) == content,
        forall|k: int|
            t < k < line_count(data) ==> line_text(
                edited_bytes(data, line_from, line_to, content),
                k - (t - f),
            ) == #[trigger] line_text(data, k),
        content.len() > 0 ==> line_count(edited_bytes(data, line_from, line_to, content))
            == line_count(data) - (t - f),
{
    assert forall|k: int| 0 <= k < f implies line_text(
        edited_bytes(data, line_from, line_to, content),
        k,
    ) == #[trigger] line_text(data, k) by {
        lemma_edit_keeps_before(data, line_from, line_to, content, f, t, k);
    }
    lemma_edit_line(data, line_from, line_to, content, f, t);
    assert forall|k: int| t < k < line_count(data) implies line_text(
        edited_bytes(data, line_from, line_to, content),
        k - (t - f),
    ) == #[trigger] line_text(data, k) by {
        lemma_edit_keeps_after(data, line_from, line_to, content, f, t, k);
    }
    let edited = edited_bytes(data, line_from, line_to, content);
    let nl = newlines(data);
    let len = data.len() as int;
    let p = line_begin(data, f);
    let e = line_text_end(data, t);
    let c = content.len() as int;
    let d = p + c - e;
    lemma_edit_layout(data, line_from, line_to, content, f, t);
    lemma_newlines(data, len);
    if c > 0 {
        if e < len {
            assert(edited[(len - 1) + d] == data[len - 1]);
            assert(edited.last() == data.last());
        } else {
            assert(edited[p + (c - 1)] == content[c - 1]);
            if t < nl.len() {
                assert(nl[t] < len);
            }
        }
    }
}

/// The texts of lines `a` up to but not including `c`.
pub open spec fn line_texts(data: Seq<u8>, a: int, c: int) -> Seq<Seq<u8>> {
    Seq::new((c - a) as nat, |i: int| line_text(data, a + i))
}

/// Byte strings joined by line feeds.
pub open spec fn join_bytes(parts: Seq<Seq<u8>>) -> Seq<u8>
    decreases parts.len(),
{
    if parts.len() == 0 {
        Seq::empty()
    } else if parts.len() == 1 {
        parts[0]
    } else {
        join_bytes(parts.drop_last()) + seq![10u8] + parts.last()
    }
}

proof fn lemma_encode_concat(a: Seq<char>, b: Seq<char>)
    ensures
        encode_utf8(a + b) == encode_utf8(a) + encode_utf8(b),
    decreases a.len(),
{
    if a.len() == 0 {
        assert(a + b =~= b);
        assert(encode_utf8(a) == Seq::<u8>::empty());
        assert(encode_utf8(a) + encode_utf8(b) =~= encode_utf8(b));
    } else {
        lemma_encode_concat(a.drop_first(), b);
        assert((a + b).drop_first() =~= a.drop_first() + b);
        assert((a + b)[0] == a[0]);
        assert(encode_utf8(a + b) =~= encode_utf8(a) + encode_utf8(b));
    }
}

proof fn lemma_encode_newline()
    ensures
        encode_utf8("\n"@) == seq![10u8],
{
    reveal_strlit("\n");
    let c = "\n"@;
    assert(c[0] as u32 == 10u32);
    assert((10u32 & 0x7Fu32) as u8 == 10u8) by (bit_vector);
    assert(c.drop_first() =~= Seq::<char>::empty());
    assert(encode_utf8(c.drop_first()) == Seq::<u8>::empty());
    assert(has_width_1_encoding(10u32));
    assert(leading_byte_width_1(10u32) == 10u8);
    assert(encode_scalar(10u32) == seq![10u8]);
    assert(encode_utf8(c) == encode_scalar(c[0] as u32) + encode_utf8(c.drop_first()));
    assert(encode_utf8(c) =~= seq![10u8]);
}

/// The bytes of lines joined by newlines are their bytes joined by line
/// feeds.
proof fn lemma_encode_join(parts: Seq<Seq<char>>)
    ensures
        encode_utf8(join_lines(parts)) == join_bytes(parts.map_values(|p: Seq<char>| encode_utf8(p))),
    decreases parts.len(),
{
    let enc = parts.map_values(|p: Seq<char>| encode_utf8(p));
    if parts.len() == 0 {
        assert(encode_utf8(Seq::<char>::empty()) == Seq::<u8>::empty());
    } else if parts.len() == 1 {
    } else {
        lemma_encode_join(parts.drop_last());
        assert(parts.drop_last().map_values(|p: Seq<char>| encode_utf8(p)) =~= enc.drop_last());
        lemma_encode_concat(join_lines(parts.drop_last()) + "\n"@, parts.last());
        lemma_encode_concat(join_lines(parts.drop_last()), "\n"@);
        lemma_encode_newline();
    }
}

/// With `line_from` at line `a` and `line_to` at line `b` of the file, and
/// every line between them valid UTF-8, the lines shown below `n` are those
/// from `a` up to `b` and below `n`.
proof fn lemma_selected_range(data: Seq<u8>, line_from: i64, line_to: i64, a: int, b: int, n: int)
    requires
        (line_from as usize) as int == a,
        (line_to as usize) as int == b,
        0 <= a <= b < line_count(data),
        forall|l: int| a <= l <= b ==> valid_utf8(#[trigger] line_text(data, l)),
        0 <= n,
    ensures
        selected_upto(data, line_from, line_to, n) == line_texts(
            data,
            a,
            if n <= a {
                a
            } else if n <= b + 1 {
                n
            } else {
                b + 1
            },
        ).map_values(|t: Seq<u8>| decode_utf8(t)),
    decreases n,
{
    if n > 0 {
        lemma_selected_range(data, line_from, line_to, a, b, n - 1);
        let k = n - 1;
        if a <= k <= b {
            assert(valid_utf8(line_text(data, k)));
            assert(line_texts(data, a, n).map_values(|t: Seq<u8>| decode_utf8(t)) =~= line_texts(
                data,
                a,
                k,
            ).map_values(|t: Seq<u8>| decode_utf8(t)).push(decode_utf8(line_text(data, k))));
        }
    } else {
        assert(line_texts(data, a, a) =~= Seq::<Seq<u8>>::empty());
    }
}

/// What `ReadLines` shows of lines `a` up to `b`, where all are valid
/// UTF-8, is their bytes joined by line feeds.
pub proof fn lemma_read_back_bytes(data: Seq<u8>, line_from: i64, line_to: i64, a: int, b: int)
    requires
        (line_from as usize) as int == a,
        (line_to as usize) as int == b,
        0 <= a <= b < line_count(data),
        forall|l: int| a <= l <= b ==> valid_utf8(#[trigger] line_text(data, l)),
    ensures
        encode_utf8(join_lines(selected_lines(data, line_from, line_to))) == join_bytes(
            line_texts(data, a, b + 1),
        ),
{
    lemma_selected_range(data, line_from, line_to, a, b, line_count(data));
    let texts = line_texts(data, a, b + 1);
    let parts = texts.map_values(|t: Seq<u8>| decode_utf8(t));
    lemma_encode_join(parts);
    assert forall|i: int| 0 <= i < texts.len() implies #[trigger] texts[i] == encode_utf8(
        decode_utf8(texts[i]),
    ) by {
        assert(valid_utf8(line_text(data, a + i)));
        decode_utf8_encode_utf8(texts[i]);
    }
    assert(parts.map_values(|p: Seq<char>| encode_utf8(p)) =~= texts);
}

/// Appends the bytes of `src` from `start` up to `end` to `out`.
pub(crate) fn append_bytes(out: &mut Vec<u8>, src: &[u8], start: usize, end: usize)
    requires
        start <= end <= src@.len(),
    ensures
        final(out)@ == old(out)@ + src@.subrange(start as int, end as int),
{
    let ghost before = out@;
    let mut i: usize = start;
    while i < end
        invariant
            start <= i <= end <= src@.len(),
            out@ == before + src@.subrange(start as int, i as int),
        decreases end - i,
    {
        out.push(src[i]);
        proof {
            assert(out@ =~= before + src@.subrange(start as int, i + 1));
        }
        i = i + 1;
    }
}

/// Where line `k` starts, and where its text ends.
fn line_span(data: &[u8], nl: &Vec<usize>, k: usize) -> (r: (usize, usize))
    requires
        nl@.len() == newlines(data@).len(),
        forall|j: int| 0 <= j < nl@.len() ==> #[trigger] nl@[j] as int == newlines(data@)[j],
        k < line_count(data@),
    ensures
        r.0 as int == line_begin(data@, k as int),
        r.1 as int == line_text_end(data@, k as int),
        r.0 <= r.1 <= data@.len(),
{
    proof {
        lemma_line_bounds(data@, k as int, k as int);
        lemma_newlines(data@, data@.len() as int);
    }
    let len = data.len();
    let begin = if k == 0 {
        0
    } else {
        assert(nl@[k - 1] as int == newlines(data@)[k - 1]);
        assert(nl@[k - 1] < len);
        nl[k - 1] + 1
    };
    let end = if k < nl.len() {
        let e = nl[k];
        assert(nl@[k as int] as int == newlines(data@)[k as int]);
        if e > 0 && data[e - 1] == 13u8 {
            e - 1
        } else {
            e
        }
    } else {
        data.len()
    };
    (begin, end)
}

/// The lines from `line_from` up to and including `line_to` that are valid
/// UTF-8, without their line endings, joined by newlines.
pub fn select_lines(data: &[u8], line_from: i64, line_to: i64) -> (r: String)
    ensures
        r@ == join_lines(selected_lines(data@, line_from, line_to)),
{
    let nl = newline_positions(data);
    let n = count_lines(data, &nl);
    let from = line_from as usize;
    let to = line_to as usize;
    let mut out = String::new();
    let mut first = true;
    let mut k: usize = 0;
    while k < n
        invariant
            k <= n,
            n as int == line_count(data@),
            nl@.len() == newlines(data@).len(),
            forall|j: int| 0 <= j < nl@.len() ==> #[trigger] nl@[j] as int == newlines(data@)[j],
            from == line_from as usize,
            to == line_to as usize,
            out@ == join_lines(selected_upto(data@, line_from, line_to, k as int)),
            first == (selected_upto(data@, line_from, line_to, k as int).len() == 0),
        decreases n - k,
    {
        let ghost parts = selected_upto(data@, line_from, line_to, k as int);
        if k >= from && k <= to {
            let (b, e) = line_span(data, &nl, k);
            let mut bytes: Vec<u8> = Vec::new();
            append_bytes(&mut bytes, data, b, e);
            assert(bytes@ =~= line_text(data@, k as int));
            match utf8_string(bytes) {
                Some(text) => {
                    push_line(&mut out, first, Ghost(parts), text.as_str());
                    first = false;
                },
                None => {},
            }
        }
        k = k + 1;
    }
    out
}

/// The file after the lines from `line_from` up to and including `line_to`
/// were replaced by `content`; every byte outside them stays.
pub fn edit_lines(data: &[u8], line_from: i64, line_to: i64, content: &str) -> (r: Vec<u8>)
    ensures
        r@ == edited_bytes(data@, line_from, line_to, encode_utf8(content@)),
{
    let nl = newline_positions(data);
    let n = count_lines(data, &nl);
    let f = line_from as usize;
    let t = line_to as usize;
    let mut out: Vec<u8> = Vec::new();
    if f < n && f <= t {
        let last = if t < n {
            t
        } else {
            n - 1
        };
        proof {
            lemma_line_bounds(data@, f as int, last as int);
        }
        let (b, _) = line_span(data, &nl, f);
        let (_, e) = line_span(data, &nl, last);
        append_bytes(&mut out, data, 0, b);
        let c = content.as_bytes();
        append_bytes(&mut out, c, 0, c.len());
        append_bytes(&mut out, data, e, data.len());
        assert(c@.subrange(0, c@.len() as int) =~= c@);
    } else {
        append_bytes(&mut out, data, 0, data.len());
        assert(data@.subrange(0, data@.len() as int) =~= data@);
    }
    out
}

} // verus!
