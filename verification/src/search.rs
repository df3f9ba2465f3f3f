use vstd::prelude::*;

use vstd::utf8::{decode_utf8, encode_utf8, valid_utf8};

use crate::lines::{
    append_bytes, in_range, join_bytes, join_lines, lemma_read_back_bytes, lemma_line_bounds, line_texts, lemma_newlines, lemma_newlines_prefix, line_begin, line_count,
    line_text, line_text_end, newlines, newlines_upto, selected_lines, selected_upto,
};
use crate::text::{decimal, decimal_string};

verus! {

broadcast use vstd::std_specs::vec::group_vec_axioms;

/// `(b as char).is_ascii_whitespace()`: space, tab, line feed, form feed or
/// carriage return.
pub open spec fn is_ascii_ws(b: u8) -> bool {
    b == 32u8 || b == 9u8 || b == 10u8 || b == 12u8 || b == 13u8
}

/// The line, counted from 0, of byte `i`: the number of line feeds before it.
pub open spec fn line_of(data: Seq<u8>, i: int) -> int
    decreases i,
{
    if i <= 0 {
        0
    } else {
        line_of(data, i - 1) + if data[i - 1] == 10u8 {
            1int
        } else {
            0int
        }
    }
}

/// The positions, in order, of the bytes among the first `n` that are no
/// whitespace.
pub open spec fn kept_positions(data: Seq<u8>, n: int) -> Seq<int>
    decreases n,
{
    if n <= 0 {
        Seq::empty()
    } else if is_ascii_ws(data[n - 1]) {
        kept_positions(data, n - 1)
    } else {
        kept_positions(data, n - 1).push(n - 1)
    }
}

/// The positions of all bytes that are no whitespace.
pub open spec fn kept(data: Seq<u8>) -> Seq<int> {
    kept_positions(data, data.len() as int)
}

/// The bytes with all whitespace removed.
pub open spec fn stripped(data: Seq<u8>) -> Seq<u8> {
    kept(data).map_values(|i: int| data[i])
}

/// `needle` stands in `hay` from position `p` on.
pub open spec fn matches_at(hay: Seq<u8>, needle: Seq<u8>, p: int) -> bool {
    0 <= p && p + needle.len() <= hay.len() && hay.subrange(p, p + needle.len()) == needle
}

/// The positions below `n`, in order, where `needle` stands in `hay`.
pub open spec fn occurrences(hay: Seq<u8>, needle: Seq<u8>, n: int) -> Seq<int>
    decreases n,
{
    if n <= 0 {
        Seq::empty()
    } else if matches_at(hay, needle, n - 1) {
        occurrences(hay, needle, n - 1).push(n - 1)
    } else {
        occurrences(hay, needle, n - 1)
    }
}

/// Where the whitespace-free search text stands in the whitespace-free file.
pub open spec fn found_at(data: Seq<u8>, search: Seq<u8>) -> Seq<int> {
    occurrences(stripped(data), stripped(search), stripped(data).len() as int)
}

/// The search can be made: its whitespace-free text is not empty.
pub open spec fn search_fits(data: Seq<u8>, search: Seq<u8>) -> bool {
    stripped(search).len() > 0
}

/// How `{:?}` shows `std::str::from_utf8` of some bytes.
pub uninterp spec fn utf8_debug_text(bytes: Seq<u8>) -> Seq<char>;

/// Calls `std::str::from_utf8` and shows its result with `{:?}`. Trusted:
/// the text is the one that formatting gives for these bytes; what it looks
/// like is left unsaid.
#[verifier::external_body]
fn utf8_debug(bytes: &[u8]) -> (r: String)
    ensures
        r@ == utf8_debug_text(bytes@),
{
    format!("{:?}", std::str::from_utf8(bytes))
}

/// Where the snippet of the place `m` bytes long from the `p`-th byte that
/// is no whitespace ends: at the next byte that is no whitespace, or at the
/// end of the data where no such byte follows.
pub open spec fn snippet_end(data: Seq<u8>, m: int, p: int) -> int {
    if p + m < kept(data).len() {
        kept(data)[p + m]
    } else {
        data.len() as int
    }
}

/// The report of one place where the text stands, `m` bytes long from the
/// `p`-th byte that is no whitespace: its first and last line and the bytes
/// from its start up to the next byte that is no whitespace (or up to the
/// end of the data).
pub open spec fn occurrence_block(data: Seq<u8>, m: int, p: int) -> Seq<char> {
    let ks = kept(data);
    "Found an occurence on lines "@ + decimal(line_of(data, ks[p]) as nat) + "-"@ + decimal(
        line_of(data, ks[p + m - 1]) as nat,
    ) + ":\n"@ + "```\n"@ + utf8_debug_text(data.subrange(ks[p], snippet_end(data, m, p))) + "\n```"@
}

/// The reports of the places `ps`, one after the other.
pub open spec fn occurrence_blocks(data: Seq<u8>, m: int, ps: Seq<int>) -> Seq<char>
    decreases ps.len(),
{
    if ps.len() == 0 {
        Seq::empty()
    } else {
        occurrence_blocks(data, m, ps.drop_last()) + occurrence_block(data, m, ps.last())
    }
}

/// The report of a search of `search` in the file `path` that holds `data`.
pub open spec fn find_report(path: Seq<char>, data: Seq<u8>, search: Seq<u8>) -> Seq<char> {
    let ps = found_at(data, search);
    if ps.len() == 0 {
        "No occurences of search string in file "@ + path
    } else {
        occurrence_blocks(data, stripped(search).len() as int, ps)
    }
}

/// Each position of `kept_positions(data, n)` lies below `n`, and they rise.
pub proof fn lemma_kept_positions(data: Seq<u8>, n: int)
    requires
        0 <= n <= data.len(),
    ensures
        forall|k: int|
            0 <= k < kept_positions(data, n).len() ==> 0 <= #[trigger] kept_positions(data, n)[k]
                < n,
        forall|j: int, k: int|
            0 <= j < k < kept_positions(data, n).len() ==> kept_positions(data, n)[j]
                < kept_positions(data, n)[k],
        kept_positions(data, n).len() <= n,
        forall|k: int|
            0 <= k < kept_positions(data, n).len() ==> !is_ascii_ws(
                data[#[trigger] kept_positions(data, n)[k]],
            ),
    decreases n,
{
    if n > 0 {
        lemma_kept_positions(data, n - 1);
    }
}

/// Each position of `occurrences(hay, needle, n)` lies below `n`, matches,
/// and they rise.
pub proof fn lemma_occurrences(hay: Seq<u8>, needle: Seq<u8>, n: int)
    requires
        0 <= n,
    ensures
        forall|k: int|
            0 <= k < occurrences(hay, needle, n).len() ==> 0 <= #[trigger] occurrences(
                hay,
                needle,
                n,
            )[k] < n && matches_at(hay, needle, occurrences(hay, needle, n)[k]),
        forall|j: int, k: int|
            0 <= j < k < occurrences(hay, needle, n).len() ==> occurrences(hay, needle, n)[j]
                < occurrences(hay, needle, n)[k],
        occurrences(hay, needle, n).len() <= n,
    decreases n,
{
    if n > 0 {
        lemma_occurrences(hay, needle, n - 1);
    }
}

/// The places found are exactly the places where the whitespace-free
/// search text stands in the whitespace-free file (for a search text that
/// is not all whitespace).
pub proof fn lemma_found_at_exact(data: Seq<u8>, search: Seq<u8>, p: int)
    requires
        stripped(search).len() > 0,
    ensures
        found_at(data, search).contains(p) <==> matches_at(stripped(data), stripped(search), p),
{
    let hay = stripped(data);
    let needle = stripped(search);
    lemma_occurrences(hay, needle, hay.len() as int);
    if matches_at(hay, needle, p) {
        lemma_occurrences_complete(hay, needle, hay.len() as int, p);
    }
}

proof fn lemma_occurrences_complete(hay: Seq<u8>, needle: Seq<u8>, n: int, p: int)
    requires
        0 <= p < n,
        matches_at(hay, needle, p),
    ensures
        occurrences(hay, needle, n).contains(p),
    decreases n,
{
    if p < n - 1 {
        lemma_occurrences_complete(hay, needle, n - 1, p);
        let o = occurrences(hay, needle, n - 1);
        let i = choose|i: int| 0 <= i < o.len() && o[i] == p;
        if matches_at(hay, needle, n - 1) {
            assert(o.push(n - 1)[i] == p);
        }
    } else {
        let o = occurrences(hay, needle, n - 1);
        assert(o.push(n - 1)[o.len() as int] == p);
    }
}

/// The search is whitespace agnostic in its text: two search texts that
/// agree once whitespace is removed give the same report, and can be
/// reported alike.
pub proof fn lemma_search_ignores_whitespace(
    path: Seq<char>,
    data: Seq<u8>,
    search1: Seq<u8>,
    search2: Seq<u8>,
)
    requires
        stripped(search1) == stripped(search2),
    ensures
        find_report(path, data, search1) == find_report(path, data, search2),
        search_fits(data, search1) == search_fits(data, search2),
{
    assert(found_at(data, search1) == found_at(data, search2));
}

/// Where the search text is found does not depend on the whitespace of the
/// file: two files that agree once whitespace is removed have it at the same
/// places.
pub proof fn lemma_places_ignore_file_whitespace(data1: Seq<u8>, data2: Seq<u8>, search: Seq<u8>)
    requires
        stripped(data1) == stripped(data2),
    ensures
        found_at(data1, search) == found_at(data2, search),
{
}

/// The line of a byte counts the line feeds before it.
proof fn lemma_line_of_counts(data: Seq<u8>, i: int)
    requires
        0 <= i <= data.len(),
    ensures
        line_of(data, i) == newlines_upto(data, i).len(),
    decreases i,
{
    if i > 0 {
        lemma_line_of_counts(data, i - 1);
    }
}

/// The line numbers of the search are the lines of `ReadLines`: byte `i`
/// that is no whitespace lies in the text of line `line_of(data, i)`, at
/// offset `i - line_begin`.
pub proof fn lemma_line_numbers(data: Seq<u8>, i: int)
    requires
        0 <= i < data.len(),
        !is_ascii_ws(data[i]),
    ensures
        0 <= line_of(data, i) < line_count(data),
        line_begin(data, line_of(data, i)) <= i < line_text_end(data, line_of(data, i)),
        line_text(data, line_of(data, i))[i - line_begin(data, line_of(data, i))] == data[i],
{
    let l = line_of(data, i);
    let nl = newlines(data);
    let before = newlines_upto(data, i);
    lemma_line_of_counts(data, i);
    lemma_newlines(data, i);
    lemma_newlines(data, data.len() as int);
    lemma_newlines_prefix(data, i, data.len() as int);
    if l > 0 {
        assert(nl[l - 1] == nl.take(l)[l - 1]);
        assert(nl[l - 1] == before[l - 1]);
    }
    if l < nl.len() {
        assert(nl[l] >= i);
        assert(data[nl[l]] == 10u8);
    } else {
        if data.last() == 10u8 {
            let q = data.len() - 1;
            assert(nl.contains(q));
            let k = choose|k: int| 0 <= k < nl.len() && nl[k] == q;
            assert(nl[k] == nl.take(l)[k]);
            assert(before[k] < i);
        }
    }
    let b = line_begin(data, l);
    let e = line_text_end(data, l);
    assert(line_text(data, l)[i - b] == data.subrange(b, e)[i - b]);
}

/// Each line that lies in the range and is valid UTF-8 is among the lines
/// that `ReadLines` shows.
pub proof fn lemma_selected_has_line(data: Seq<u8>, line_from: i64, line_to: i64, k: int, n: int)
    requires
        0 <= k < n,
        in_range(k, line_from, line_to),
        valid_utf8(line_text(data, k)),
    ensures
        selected_upto(data, line_from, line_to, n).contains(decode_utf8(line_text(data, k))),
    decreases n,
{
    let rest = selected_upto(data, line_from, line_to, n - 1);
    if k < n - 1 {
        lemma_selected_has_line(data, line_from, line_to, k, n - 1);
        let x = choose|x: int| 0 <= x < rest.len() && rest[x] == decode_utf8(line_text(data, k));
        if in_range(n - 1, line_from, line_to) && valid_utf8(line_text(data, n - 1)) {
            assert(rest.push(decode_utf8(line_text(data, n - 1)))[x] == rest[x]);
        }
    } else {
        assert(rest.push(decode_utf8(line_text(data, k)))[rest.len() as int] == decode_utf8(
            line_text(data, k),
        ));
    }
}

proof fn lemma_line_of_rises(data: Seq<u8>, i: int, k: int)
    requires
        0 <= i <= k,
    ensures
        line_of(data, i) <= line_of(data, k),
    decreases k,
{
    if i < k {
        lemma_line_of_rises(data, i, k - 1);
    }
}

/// Each place reported lies on the lines it names, and `ReadLines` shows
/// it: every byte of the whitespace-free search text is found, at the place
/// the `k`-th block reports, in the text of a line `l` of the file from the
/// block's first line `a` to its last line `b`, as `ReadLines` counts lines;
/// where that line is valid UTF-8, `ReadLines` from `a` to `b` shows it.
pub proof fn lemma_found_lines(
    data: Seq<u8>,
    search: Seq<u8>,
    k: int,
    j: int,
    line_from: i64,
    line_to: i64,
)
    requires
        0 <= k < found_at(data, search).len(),
        0 <= j < stripped(search).len(),
        (line_from as usize) as int == line_of(
            data,
            kept(data)[found_at(data, search)[k]],
        ),
        (line_to as usize) as int == line_of(
            data,
            kept(data)[found_at(data, search)[k] + stripped(search).len() - 1],
        ),
    ensures
        ({
            let p = found_at(data, search)[k];
            let ks = kept(data);
            let i = ks[p + j];
            let l = line_of(data, i);
            &&& in_range(l, line_from, line_to)
            &&& 0 <= l < line_count(data)
            &&& line_begin(data, l) <= i < line_text_end(data, l)
            &&& line_text(data, l)[i - line_begin(data, l)] == stripped(search)[j]
            &&& valid_utf8(line_text(data, l)) ==> selected_lines(
                data,
                line_from,
                line_to,
            ).contains(decode_utf8(line_text(data, l)))
        }),
{
    let hay = stripped(data);
    let needle = stripped(search);
    lemma_occurrences(hay, needle, hay.len() as int);
    lemma_kept_positions(data, data.len() as int);
    let p = found_at(data, search)[k];
    let m = needle.len() as int;
    let ks = kept(data);
    assert(matches_at(hay, needle, p));
    assert(hay.subrange(p, p + m)[j] == needle[j]);
    assert(hay[p + j] == data[ks[p + j]]);
    if j > 0 {
        assert(ks[p] < ks[p + j]);
    }
    if j < m - 1 {
        assert(ks[p + j] < ks[p + m - 1]);
    }
    lemma_line_of_rises(data, ks[p], ks[p + j]);
    lemma_line_of_rises(data, ks[p + j], ks[p + m - 1]);
    assert(!is_ascii_ws(data[ks[p + j]]));
    lemma_line_numbers(data, ks[p + j]);
    let l = line_of(data, ks[p + j]);
    if valid_utf8(line_text(data, l)) {
        lemma_selected_has_line(data, line_from, line_to, l, line_count(data));
    }
}

/// Which bytes are kept depends only on the bytes before `n`.
proof fn lemma_kept_prefix(d1: Seq<u8>, d2: Seq<u8>, n: int)
    requires
        0 <= n <= d1.len(),
        n <= d2.len(),
        d1.subrange(0, n) == d2.subrange(0, n),
    ensures
        kept_positions(d1, n) == kept_positions(d2, n),
    decreases n,
{
    if n > 0 {
        assert(d1.subrange(0, n - 1) =~= d1.subrange(0, n).subrange(0, n - 1));
        assert(d2.subrange(0, n - 1) =~= d2.subrange(0, n).subrange(0, n - 1));
        assert(d1[n - 1] == d1.subrange(0, n)[n - 1]);
        assert(d2[n - 1] == d2.subrange(0, n)[n - 1]);
        lemma_kept_prefix(d1, d2, n - 1);
    }
}

/// The positions kept in `x + y`: those of `x`, then those of `y` moved by
/// the length of `x`.
proof fn lemma_kept_concat(x: Seq<u8>, y: Seq<u8>)
    ensures
        kept(x + y) == kept(x) + kept(y).map_values(|i: int| i + x.len()),
    decreases y.len(),
{
    if y.len() == 0 {
        assert(x + y =~= x);
        assert(kept(y) =~= Seq::<int>::empty());
        assert(kept(x) + kept(y).map_values(|i: int| i + x.len()) =~= kept(x));
    } else {
        let z = x + y;
        let y0 = y.drop_last();
        lemma_kept_concat(x, y0);
        assert(z.subrange(0, z.len() - 1) =~= (x + y0).subrange(0, z.len() - 1));
        lemma_kept_prefix(z, x + y0, z.len() - 1);
        assert((x + y0).len() == z.len() - 1);
        assert(y.subrange(0, y.len() - 1) =~= y0.subrange(0, y.len() - 1));
        lemma_kept_prefix(y, y0, y.len() - 1);
        assert(z[z.len() - 1] == y[y.len() - 1]);
        if is_ascii_ws(y[y.len() - 1]) {
        } else {
            assert(kept(y).map_values(|i: int| i + x.len()) =~= kept(y0).map_values(
                |i: int| i + x.len(),
            ).push(y.len() - 1 + x.len()));
            assert(kept(z) =~= kept(x) + kept(y).map_values(|i: int| i + x.len()));
        }
    }
}

/// Removing whitespace from `x + y` removes it from each.
pub proof fn lemma_stripped_concat(x: Seq<u8>, y: Seq<u8>)
    ensures
        stripped(x + y) == stripped(x) + stripped(y),
{
    lemma_kept_concat(x, y);
    lemma_kept_positions(x, x.len() as int);
    lemma_kept_positions(y, y.len() as int);
    let kx = kept(x);
    let ky = kept(y);
    assert forall|j: int| 0 <= j < stripped(x + y).len() implies #[trigger] stripped(x + y)[j] == (
    stripped(x) + stripped(y))[j] by {
        if j < kx.len() {
            assert(kept(x + y)[j] == kx[j]);
        } else {
            assert(kept(x + y)[j] == ky[j - kx.len()] + x.len());
        }
    }
    assert(stripped(x + y) =~= stripped(x) + stripped(y));
}

proof fn lemma_stripped_all_whitespace(x: Seq<u8>)
    requires
        forall|i: int| 0 <= i < x.len() ==> is_ascii_ws(#[trigger] x[i]),
    ensures
        stripped(x) == Seq::<u8>::empty(),
{
    lemma_kept_positions(x, x.len() as int);
    if kept(x).len() > 0 {
        assert(!is_ascii_ws(x[kept(x)[0]]));
    }
    assert(stripped(x) =~= Seq::<u8>::empty());
}

/// Lines `a` up to but not including `c`, joined by line feeds, hold the
/// same bytes that are no whitespace as the file from the start of line `a`
/// to the end of the text of line `c - 1`.
proof fn lemma_stripped_lines(data: Seq<u8>, a: int, c: int)
    requires
        0 <= a < c <= line_count(data),
    ensures
        stripped(join_bytes(line_texts(data, a, c))) == stripped(
            data.subrange(line_begin(data, a), line_text_end(data, c - 1)),
        ),
    decreases c,
{
    let parts = line_texts(data, a, c);
    if c == a + 1 {
        assert(parts.len() == 1);
        assert(join_bytes(parts) == parts[0]);
    } else {
        lemma_stripped_lines(data, a, c - 1);
        assert(parts.drop_last() =~= line_texts(data, a, c - 1));
        let j = join_bytes(line_texts(data, a, c - 1));
        let t = line_text(data, c - 1);
        assert(join_bytes(parts) == j + seq![10u8] + t);
        lemma_stripped_concat(j + seq![10u8], t);
        lemma_stripped_concat(j, seq![10u8]);
        lemma_stripped_all_whitespace(seq![10u8]);
        let nl = newlines(data);
        lemma_newlines(data, data.len() as int);
        lemma_line_bounds(data, a, c - 2);
        lemma_line_bounds(data, c - 1, c - 1);
        let s0 = line_begin(data, a);
        let e1 = line_text_end(data, c - 2);
        let s2 = line_begin(data, c - 1);
        let e2 = line_text_end(data, c - 1);
        assert(c - 2 < nl.len());
        assert(data[nl[c - 2]] == 10u8);
        let mid = data.subrange(e1, s2);
        assert forall|i: int| 0 <= i < mid.len() implies is_ascii_ws(#[trigger] mid[i]) by {
            assert(mid[i] == data[e1 + i]);
        }
        lemma_stripped_all_whitespace(mid);
        let r1 = data.subrange(s0, e1);
        assert(data.subrange(s0, e2) =~= r1 + mid + t);
        lemma_stripped_concat(r1 + mid, t);
        lemma_stripped_concat(r1, mid);
        assert(stripped(j) + Seq::<u8>::empty() =~= stripped(j));
        assert(stripped(r1) + Seq::<u8>::empty() =~= stripped(r1));
    }
}

/// FindInFile and ReadLines agree: reading back, from its first to its last
/// line, a place that the search reports gives a text that holds the
/// whitespace-free search text in one piece once its whitespace is removed,
/// wherever those lines are valid UTF-8.
pub proof fn lemma_found_text_read_back(
    data: Seq<u8>,
    search: Seq<u8>,
    k: int,
    line_from: i64,
    line_to: i64,
)
    requires
        stripped(search).len() > 0,
        0 <= k < found_at(data, search).len(),
        (line_from as usize) as int == line_of(data, kept(data)[found_at(data, search)[k]]),
        (line_to as usize) as int == line_of(
            data,
            kept(data)[found_at(data, search)[k] + stripped(search).len() - 1],
        ),
        forall|l: int|
            (line_from as usize) as int <= l <= (line_to as usize) as int ==> valid_utf8(
                #[trigger] line_text(data, l),
            ),
    ensures
        exists|q: int|
            matches_at(
                stripped(encode_utf8(join_lines(selected_lines(data, line_from, line_to)))),
                stripped(search),
                q,
            ),
{
    let hay = stripped(data);
    let needle = stripped(search);
    lemma_occurrences(hay, needle, hay.len() as int);
    lemma_kept_positions(data, data.len() as int);
    let p = found_at(data, search)[k];
    let m = needle.len() as int;
    let ks = kept(data);
    assert(matches_at(hay, needle, p));
    let a = line_of(data, ks[p]);
    let b = line_of(data, ks[p + m - 1]);
    if m > 1 {
        assert(ks[p] < ks[p + m - 1]);
    }
    lemma_line_of_rises(data, ks[p], ks[p + m - 1]);
    assert(!is_ascii_ws(data[ks[p]]));
    assert(!is_ascii_ws(data[ks[p + m - 1]]));
    lemma_line_numbers(data, ks[p]);
    lemma_line_numbers(data, ks[p + m - 1]);
    lemma_line_bounds(data, a, b);
    lemma_read_back_bytes(data, line_from, line_to, a, b);
    lemma_stripped_lines(data, a, b + 1);
    let s0 = line_begin(data, a);
    let e0 = line_text_end(data, b);
    let pre = data.subrange(0, s0);
    let mid = data.subrange(s0, e0);
    let post = data.subrange(e0, data.len() as int);
    assert(data =~= pre + mid + post);
    lemma_kept_concat(pre + mid, post);
    lemma_kept_concat(pre, mid);
    lemma_stripped_concat(pre + mid, post);
    lemma_stripped_concat(pre, mid);
    lemma_kept_positions(pre, pre.len() as int);
    lemma_kept_positions(mid, mid.len() as int);
    lemma_kept_positions(post, post.len() as int);
    let kp = kept(pre);
    let km = kept(mid);
    let kq = kept(post);
    assert(ks == kp + km.map_values(|i: int| i + pre.len()) + kq.map_values(
        |i: int| i + (pre + mid).len(),
    ));
    if p < kp.len() {
        assert(ks[p] == kp[p]);
    }
    if p + m - 1 >= kp.len() + km.len() {
        assert(ks[p + m - 1] == kq[p + m - 1 - kp.len() - km.len()] + (pre + mid).len());
    }
    let q = p - kp.len();
    let sm = stripped(mid);
    assert(hay == stripped(pre) + sm + stripped(post));
    assert(sm.subrange(q, q + m) =~= hay.subrange(p, p + m));
    assert(matches_at(sm, needle, q));
}

/// The reports of some places are the report of each place, in order.
proof fn lemma_blocks_flatten(data: Seq<u8>, m: int, ps: Seq<int>)
    ensures
        occurrence_blocks(data, m, ps) == ps.map_values(|p: int| occurrence_block(data, m, p)).flatten(),
    decreases ps.len(),
{
    let f = |p: int| occurrence_block(data, m, p);
    if ps.len() == 0 {
        assert(ps.map_values(f) =~= Seq::<Seq<char>>::empty());
    } else {
        let rest = ps.drop_last();
        lemma_blocks_flatten(data, m, rest);
        assert(rest.push(ps.last()) =~= ps);
        rest.lemma_push_map_commute(f, ps.last());
        rest.map_values(f).lemma_flatten_push(f(ps.last()));
    }
}

/// A search that finds the text reports every place where it stands: one
/// block per place where the text without whitespace stands in the file
/// without whitespace, in the order of the places, each naming the lines of
/// its own place. A search that finds nothing says so and names the file.
pub proof fn lemma_report_blocks(path: Seq<char>, data: Seq<u8>, search: Seq<u8>)
    ensures
        found_at(data, search).len() == 0 ==> find_report(path, data, search)
            == "No occurences of search string in file "@ + path,
        found_at(data, search).len() > 0 ==> find_report(path, data, search) == found_at(
            data,
            search,
        ).map_values(|p: int| occurrence_block(data, stripped(search).len() as int, p)).flatten(),
{
    lemma_blocks_flatten(data, stripped(search).len() as int, found_at(data, search));
}

/// Removes all whitespace from some bytes.
pub fn strip_whitespace(bytes: &[u8]) -> (r: Vec<u8>)
    ensures
        r@ == stripped(bytes@),
{
    let mut r: Vec<u8> = Vec::new();
    let mut i: usize = 0;
    while i < bytes.len()
        invariant
            i <= bytes@.len(),
            r@ == kept_positions(bytes@, i as int).map_values(|k: int| bytes@[k]),
        decreases bytes@.len() - i,
    {
        if !(bytes[i] == 32u8 || bytes[i] == 9u8 || bytes[i] == 10u8 || bytes[i] == 12u8 || bytes[i]
            == 13u8) {
            r.push(bytes[i]);
        }
        proof {
            assert(r@ =~= kept_positions(bytes@, i + 1).map_values(|k: int| bytes@[k]));
        }
        i = i + 1;
    }
    r
}

/// Whether `needle` stands in `hay` from position `p` on.
fn matches_here(hay: &[u8], needle: &[u8], p: usize) -> (r: bool)
    ensures
        r == matches_at(hay@, needle@, p as int),
{
    if p > hay.len() || needle.len() > hay.len() - p {
        return false;
    }
    let mut j: usize = 0;
    while j < needle.len()
        invariant
            j <= needle@.len(),
            p + needle@.len() <= hay@.len(),
            hay@.len() == hay.len(),
            forall|k: int| 0 <= k < j ==> hay@[p + k] == needle@[k],
        decreases needle@.len() - j,
    {
        if hay[p + j] != needle[j] {
            assert(hay@.subrange(p as int, p + needle@.len())[j as int] != needle@[j as int]);
            return false;
        }
        j = j + 1;
    }
    assert(hay@.subrange(p as int, p + needle@.len()) =~= needle@);
    true
}

/// The positions, in order, where `needle` stands in `hay`.
pub fn find_all(hay: &[u8], needle: &[u8]) -> (r: Vec<usize>)
    ensures
        r@.len() == occurrences(hay@, needle@, hay@.len() as int).len(),
        forall|k: int|
            0 <= k < r@.len() ==> r@[k] as int == #[trigger] occurrences(
                hay@,
                needle@,
                hay@.len() as int,
            )[k],
{
    let mut r: Vec<usize> = Vec::new();
    let mut p: usize = 0;
    while p < hay.len()
        invariant
            p <= hay@.len(),
            r@.len() == occurrences(hay@, needle@, p as int).len(),
            forall|k: int|
                0 <= k < r@.len() ==> r@[k] as int == #[trigger] occurrences(
                    hay@,
                    needle@,
                    p as int,
                )[k],
        decreases hay@.len() - p,
    {
        if matches_here(hay, needle, p) {
            r.push(p);
        }
        p = p + 1;
    }
    r
}

/// What a search learns of the file and the search text: for each byte that
/// is no whitespace its position and line, the length of the whitespace-free
/// search text, and where that text stands.
struct Scan {
    positions: Vec<usize>,
    lines: Vec<usize>,
    needle_len: usize,
    found: Vec<usize>,
}

spec fn scan_of(scan: Scan, data: Seq<u8>, search: Seq<u8>) -> bool {
    &&& scan.positions@.len() == kept(data).len()
    &&& scan.lines@.len() == kept(data).len()
    &&& forall|k: int|
        0 <= k < kept(data).len() ==> #[trigger] scan.positions@[k] as int == kept(data)[k]
            && scan.lines@[k] as int == line_of(data, kept(data)[k])
    &&& scan.needle_len as int == stripped(search).len()
    &&& scan.found@.len() == found_at(data, search).len()
    &&& forall|k: int|
        0 <= k < found_at(data, search).len() ==> #[trigger] scan.found@[k] as int == found_at(
            data,
            search,
        )[k]
}

fn scan(data: &[u8], search: &[u8]) -> (r: Scan)
    ensures
        scan_of(r, data@, search@),
{
    let mut stripped_data: Vec<u8> = Vec::new();
    let mut positions: Vec<usize> = Vec::new();
    let mut lines: Vec<usize> = Vec::new();
    let mut line_count: usize = 0;
    let mut i: usize = 0;
    while i < data.len()
        invariant
            i <= data@.len(),
            line_count as int == line_of(data@, i as int),
            line_count <= i,
            positions@.len() == kept_positions(data@, i as int).len(),
            lines@.len() == positions@.len(),
            stripped_data@ == kept_positions(data@, i as int).map_values(|k: int| data@[k]),
            forall|k: int|
                0 <= k < positions@.len() ==> #[trigger] positions@[k] as int == kept_positions(
                    data@,
                    i as int,
                )[k] && lines@[k] as int == line_of(data@, kept_positions(data@, i as int)[k]),
        decreases data@.len() - i,
    {
        let b = data[i];
        if !(b == 32u8 || b == 9u8 || b == 10u8 || b == 12u8 || b == 13u8) {
            stripped_data.push(b);
            positions.push(i);
            lines.push(line_count);
        }
        if b == 10u8 {
            line_count = line_count + 1;
        }
        proof {
            assert(stripped_data@ =~= kept_positions(data@, i + 1).map_values(|k: int| data@[k]));
        }
        i = i + 1;
    }
    let needle = strip_whitespace(search);
    assert(stripped_data@ =~= stripped(data@));
    let found = find_all(stripped_data.as_slice(), needle.as_slice());
    Scan { positions, lines, needle_len: needle.len(), found }
}

/// The report of one place, appended to `out`.
fn push_block(out: &mut String, data: &[u8], scan: &Scan, search: Ghost<Seq<u8>>, p: usize)
    requires
        scan_of(*scan, data@, search@),
        scan.needle_len > 0,
        p + scan.needle_len <= kept(data@).len(),
    ensures
        final(out)@ == old(out)@ + occurrence_block(data@, scan.needle_len as int, p as int),
{
    let ghost ks = kept(data@);
    proof {
        lemma_kept_positions(data@, data@.len() as int);
    }
    let m = scan.needle_len;
    let n = scan.positions.len();
    let first_line = scan.lines[p];
    assert(scan.positions@[p + m - 1] as int == ks[p + m - 1]);
    let last_line = scan.lines[p + (m - 1)];
    let start = scan.positions[p];
    let end = if p + m < n {
        assert(scan.positions@[p + m] as int == ks[p + m]);
        scan.positions[p + m]
    } else {
        data.len()
    };
    assert(scan.positions@[p as int] as int == ks[p as int]);
    assert(end as int == snippet_end(data@, m as int, p as int));
    assert(scan.lines@[p + m - 1] as int == line_of(data@, ks[p + m - 1]));
    let mut chunk: Vec<u8> = Vec::new();
    append_bytes(&mut chunk, data, start, end);
    assert(chunk@ =~= data@.subrange(start as int, end as int));
    out.append("Found an occurence on lines ");
    out.append(decimal_string(first_line as u64).as_str());
    out.append("-");
    out.append(decimal_string(last_line as u64).as_str());
    out.append(":\n");
    out.append("```\n");
    out.append(utf8_debug(chunk.as_slice()).as_str());
    out.append("\n```");
}

fn report(path: &str, data: &[u8], scan: &Scan, search: Ghost<Seq<u8>>) -> (r: String)
    requires
        scan_of(*scan, data@, search@),
        search_fits(data@, search@),
    ensures
        r@ == find_report(path@, data@, search@),
{
    let ghost ps = found_at(data@, search@);
    proof {
        lemma_occurrences(stripped(data@), stripped(search@), stripped(data@).len() as int);
    }
    if scan.found.len() == 0 {
        let mut r = "No occurences of search string in file ".to_owned();
        r.append(path);
        return r;
    }
    let mut out = String::new();
    let mut k: usize = 0;
    assert(ps.take(0) =~= Seq::<int>::empty());
    while k < scan.found.len()
        invariant
            k <= scan.found@.len(),
            scan_of(*scan, data@, search@),
            search_fits(data@, search@),
            ps == found_at(data@, search@),
            forall|j: int|
                0 <= j < ps.len() ==> #[trigger] matches_at(
                    stripped(data@),
                    stripped(search@),
                    ps[j],
                ),
            out@ == occurrence_blocks(data@, scan.needle_len as int, ps.take(k as int)),
        decreases scan.found@.len() - k,
    {
        let p = scan.found[k];
        assert(matches_at(stripped(data@), stripped(search@), ps[k as int]));
        assert(scan.found@[k as int] as int == ps[k as int]);
        push_block(&mut out, data, scan, search, p);
        proof {
            assert(ps.take(k + 1).drop_last() =~= ps.take(k as int));
            assert(ps.take(k + 1).last() == ps[k as int]);
        }
        k = k + 1;
    }
    assert(ps.take(ps.len() as int) =~= ps);
    out
}

/// Searches the file `path`, which holds `data`, for `search` with all
/// whitespace ignored, and reports each place where it stands, or that it
/// stands nowhere.
pub fn find_in_data(path: &str, data: &[u8], search: &str) -> (r: String)
    requires
        search_fits(data@, encode_utf8(search@)),
    ensures
        r@ == find_report(path@, data@, encode_utf8(search@)),
{
    let bytes = search.as_bytes();
    let s = scan(data, bytes);
    report(path, data, &s, Ghost(bytes@))
}

/// The same search, or `None` where it cannot be made: where the search
/// text is all whitespace.
pub fn try_find_in_data(path: &str, data: &[u8], search: &str) -> (r: Option<String>)
    ensures
        match r {
            Some(t) => search_fits(data@, encode_utf8(search@)) && t@ == find_report(
                path@,
                data@,
                encode_utf8(search@),
            ),
            None => !search_fits(data@, encode_utf8(search@)),
        },
{
    let bytes = search.as_bytes();
    let s = scan(data, bytes);
    if s.needle_len == 0 {
        return None;
    }
    Some(report(path, data, &s, Ghost(bytes@)))
}

} // verus!
