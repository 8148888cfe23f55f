//! Pagination: turning a chunk of bytes fetched from the backing store into
//! the ordered sequence of display lines that fit the viewport.
//!
//! A render pass splits the chunk on the newline byte. Every segment that is
//! followed by a newline is a complete line and becomes one row; whatever
//! follows the last newline is an incomplete line, left to be read again on
//! the next pass. At most one line per viewport row is kept, and the pass
//! reports how many bytes the kept lines (with their newlines) consumed.

use vstd::prelude::*;

verus! {

/// The byte that ends a line in the backing store.
pub const NEWLINE: u8 = 10;

/// The byte drawn on every viewport row that lies below the end of the file.
pub const SENTINEL: u8 = 126;

/// True when some byte of `s` is a newline.
pub open spec fn has_newline(s: Seq<u8>) -> bool {
    exists|i: int| 0 <= i < s.len() && s[i] == NEWLINE
}

/// Index of the first newline of `s`; `s.len()` when `s` holds none.
pub open spec fn first_newline(s: Seq<u8>) -> int
    decreases s.len(),
{
    if s.len() == 0 {
        0
    } else if s[0] == NEWLINE {
        0
    } else {
        1 + first_newline(s.skip(1))
    }
}

pub proof fn lemma_first_newline(s: Seq<u8>)
    ensures
        0 <= first_newline(s) <= s.len(),
        has_newline(s) <==> first_newline(s) < s.len(),
        first_newline(s) < s.len() ==> s[first_newline(s)] == NEWLINE,
        forall|j: int| 0 <= j < first_newline(s) ==> s[j] != NEWLINE,
    decreases s.len(),
{
    if s.len() == 0 {
    } else if s[0] == NEWLINE {
    } else {
        lemma_first_newline(s.skip(1));
        let k = first_newline(s);
        assert(k == 1 + first_newline(s.skip(1)));
        if has_newline(s) {
            let i = choose|i: int| 0 <= i < s.len() && s[i] == NEWLINE;
            assert(i >= 1);
            assert(s.skip(1)[i - 1] == NEWLINE);
            assert(has_newline(s.skip(1)));
        }
        if has_newline(s.skip(1)) {
            let i = choose|i: int| 0 <= i < s.skip(1).len() && s.skip(1)[i] == NEWLINE;
            assert(s[i + 1] == NEWLINE);
            assert(has_newline(s));
        }
        assert forall|j: int| 0 <= j < k implies s[j] != NEWLINE by {
            if j > 0 {
                assert(s.skip(1)[j - 1] != NEWLINE);
            }
        }
    }
}

/// If the bytes before `k` hold no newline and `s[k]` is one, then `k` is the
/// first newline of `s`.
pub proof fn lemma_first_newline_at(s: Seq<u8>, k: int)
    requires
        0 <= k < s.len(),
        s[k] == NEWLINE,
        forall|j: int| 0 <= j < k ==> s[j] != NEWLINE,
    ensures
        first_newline(s) == k,
{
    lemma_first_newline(s);
    let f = first_newline(s);
    assert(has_newline(s));
    if f < k {
        assert(s[f] != NEWLINE);
    }
    if f > k {
        assert(s[k] != NEWLINE);
    }
}

/// The complete lines of a chunk: the segments before each newline, in order.
/// Whatever follows the last newline is incomplete and is not included.
pub open spec fn complete_lines(s: Seq<u8>) -> Seq<Seq<u8>>
    decreases s.len()
        via complete_lines_decreases
{
    if !has_newline(s) {
        Seq::empty()
    } else {
        seq![s.take(first_newline(s))] + complete_lines(s.skip(first_newline(s) + 1))
    }
}

#[via_fn]
proof fn complete_lines_decreases(s: Seq<u8>) {
    lemma_first_newline(s);
}

/// Peeling one line off the front: if the bytes before `k` hold no newline
/// and `s[k]` is one, the complete lines are `s.take(k)` and then the
/// complete lines of what follows the newline.
pub proof fn lemma_complete_lines_step(s: Seq<u8>, k: int)
    requires
        0 <= k < s.len(),
        s[k] == NEWLINE,
        forall|j: int| 0 <= j < k ==> s[j] != NEWLINE,
    ensures
        complete_lines(s) == seq![s.take(k)] + complete_lines(s.skip(k + 1)),
{
    lemma_first_newline_at(s, k);
    lemma_first_newline(s);
    assert(has_newline(s));
}

/// A chunk without newlines has no complete line.
pub proof fn lemma_complete_lines_none(s: Seq<u8>)
    requires
        forall|j: int| 0 <= j < s.len() ==> s[j] != NEWLINE,
    ensures
        complete_lines(s) == Seq::<Seq<u8>>::empty(),
{
    assert(!has_newline(s));
}

/// No byte of a complete line is a newline.
pub proof fn lemma_complete_lines_no_newline(s: Seq<u8>)
    ensures
        forall|i: int, j: int|
            0 <= i < complete_lines(s).len() && 0 <= j < complete_lines(s)[i].len()
                ==> #[trigger] complete_lines(s)[i][j] != NEWLINE,
    decreases s.len(),
{
    lemma_first_newline(s);
    if has_newline(s) {
        let f = first_newline(s);
        lemma_complete_lines_no_newline(s.skip(f + 1));
        assert forall|i: int, j: int|
            0 <= i < complete_lines(s).len() && 0 <= j < complete_lines(s)[i].len()
                implies #[trigger] complete_lines(s)[i][j] != NEWLINE by {
            if i == 0 {
                assert(complete_lines(s)[0] == s.take(f));
                assert(s.take(f)[j] == s[j]);
            } else {
                assert(complete_lines(s)[i] == complete_lines(s.skip(f + 1))[i - 1]);
            }
        }
    }
}

/// The lines visible in a viewport of `rows` rows: the complete lines of the
/// chunk, cut off after `rows` of them.
pub open spec fn rendered_lines(chunk: Seq<u8>, rows: int) -> Seq<Seq<u8>> {
    let all = complete_lines(chunk);
    if all.len() <= rows {
        all
    } else {
        all.take(rows)
    }
}

/// Rendering never yields more lines than the viewport has rows.
pub proof fn lemma_rendered_lines_fit(chunk: Seq<u8>, rows: int)
    requires
        0 <= rows,
    ensures
        rendered_lines(chunk, rows).len() <= rows,
{
}

/// The bytes that put `lines` back into the backing store: each line followed
/// by its newline.
pub open spec fn serialized(lines: Seq<Seq<u8>>) -> Seq<u8>
    decreases lines.len(),
{
    if lines.len() == 0 {
        Seq::empty()
    } else {
        lines[0] + seq![NEWLINE] + serialized(lines.skip(1))
    }
}

/// Serializing one more line appends that line and a newline.
pub proof fn lemma_serialized_push(lines: Seq<Seq<u8>>, line: Seq<u8>)
    ensures
        serialized(lines.push(line)) == serialized(lines) + line + seq![NEWLINE],
    decreases lines.len(),
{
    let p = lines.push(line);
    if lines.len() == 0 {
        assert(p.skip(1) =~= Seq::<Seq<u8>>::empty());
        assert(serialized(p.skip(1)) == Seq::<u8>::empty());
        assert(p[0] == line);
        assert(serialized(p) == line + seq![NEWLINE] + Seq::<u8>::empty());
        assert(serialized(lines) == Seq::<u8>::empty());
        assert(line + seq![NEWLINE] + Seq::<u8>::empty()
            =~= Seq::<u8>::empty() + line + seq![NEWLINE]);
    } else {
        lemma_serialized_push(lines.skip(1), line);
        assert(p.skip(1) =~= lines.skip(1).push(line));
        assert(p[0] == lines[0]);
        assert(serialized(p)
            == lines[0] + seq![NEWLINE] + (serialized(lines.skip(1)) + line + seq![NEWLINE]));
        assert(lines[0] + seq![NEWLINE] + (serialized(lines.skip(1)) + line + seq![NEWLINE])
            =~= (lines[0] + seq![NEWLINE] + serialized(lines.skip(1))) + line + seq![NEWLINE]);
    }
}

/// Splitting the serialization of newline-free lines gives the lines back.
#[verifier::rlimit(50)]
pub proof fn lemma_serialized_splits_back(lines: Seq<Seq<u8>>)
    requires
        forall|i: int, j: int|
            0 <= i < lines.len() && 0 <= j < lines[i].len() ==> #[trigger] lines[i][j] != NEWLINE,
    ensures
        complete_lines(serialized(lines)) == lines,
    decreases lines.len(),
{
    if lines.len() == 0 {
        assert(!has_newline(serialized(lines)));
        assert(complete_lines(serialized(lines)) =~= lines);
    } else {
        let s = serialized(lines);
        let l0 = lines[0];
        let k = l0.len() as int;
        let rest = serialized(lines.skip(1));
        assert(s == l0 + seq![NEWLINE] + rest);
        assert(s[k] == NEWLINE);
        assert forall|j: int| 0 <= j < k implies s[j] != NEWLINE by {
            assert(s[j] == l0[j]);
            assert(lines[0][j] != NEWLINE);
        }
        lemma_complete_lines_step(s, k);
        assert(s.take(k) =~= l0);
        assert(s.skip(k + 1) =~= rest);
        assert forall|i: int, j: int|
            0 <= i < lines.skip(1).len() && 0 <= j < lines.skip(1)[i].len()
                implies #[trigger] lines.skip(1)[i][j] != NEWLINE by {
            assert(lines.skip(1)[i] == lines[i + 1]);
        }
        lemma_serialized_splits_back(lines.skip(1));
        assert(complete_lines(s) =~= lines);
    }
}

/// Write-back round trip: serializing a window that fits the viewport and
/// rendering the written bytes again reproduces the very same window.
pub proof fn lemma_write_back_round_trip(lines: Seq<Seq<u8>>, rows: int)
    requires
        lines.len() <= rows,
        forall|i: int, j: int|
            0 <= i < lines.len() && 0 <= j < lines[i].len() ==> #[trigger] lines[i][j] != NEWLINE,
    ensures
        rendered_lines(serialized(lines), rows) == lines,
{
    lemma_serialized_splits_back(lines);
}

/// The deep view of a byte vector is its view.
pub proof fn lemma_bytes_deep_view(v: Vec<u8>)
    ensures
        v.deep_view() == v@,
{
    assert(v.deep_view() =~= v@);
}

/// Pushing onto a vector of lines pushes the line's view onto the deep view.
pub proof fn lemma_deep_view_push(pre: Vec<Vec<u8>>, post: Vec<Vec<u8>>, line: Vec<u8>)
    requires
        post@ == pre@.push(line),
    ensures
        post.deep_view() == pre.deep_view().push(line@),
{
    lemma_bytes_deep_view(line);
    assert forall|t: int| 0 <= t < post.deep_view().len() implies post.deep_view()[t]
        == pre.deep_view().push(line@)[t] by {
        if t < pre@.len() {
            assert(post@[t] == pre@[t]);
        } else {
            assert(post@[t] == line);
        }
    }
    assert(post.deep_view() =~= pre.deep_view().push(line@));
}

/// Copies `src[from..to]` into a fresh vector.
fn copy_range(src: &Vec<u8>, from: usize, to: usize) -> (out: Vec<u8>)
    requires
        from <= to <= src@.len(),
    ensures
        out@ == src@.subrange(from as int, to as int),
{
    let mut out: Vec<u8> = Vec::new();
    let mut k: usize = from;
    while k < to
        invariant
            from <= k <= to <= src@.len(),
            out@ == src@.subrange(from as int, k as int),
        decreases to - k,
    {
        out.push(src[k]);
        proof {
            assert(out@ =~= src@.subrange(from as int, (k + 1) as int));
        }
        k = k + 1;
    }
    out
}

/// One render pass over a chunk read at the window offset: the lines that fit
/// a viewport of `rows` rows, and the number of bytes those lines (with their
/// newlines) consumed.
pub fn paginate(chunk: &Vec<u8>, rows: u16) -> (r: (Vec<Vec<u8>>, usize))
    ensures
        r.0.deep_view() == rendered_lines(chunk@, rows as int),
        r.1 == serialized(rendered_lines(chunk@, rows as int)).len(),
        r.1 <= chunk@.len(),
{
    let ghost all = complete_lines(chunk@);
    let mut lines: Vec<Vec<u8>> = Vec::new();
    let mut start: usize = 0;
    let mut i: usize = 0;
    if rows == 0 {
        proof {
            assert(rendered_lines(chunk@, 0) =~= Seq::<Seq<u8>>::empty());
            assert(lines.deep_view() =~= Seq::<Seq<u8>>::empty());
        }
        return (lines, 0);
    }
    proof {
        assert(chunk@.skip(0) =~= chunk@);
        assert(lines.deep_view() =~= Seq::<Seq<u8>>::empty());
        assert(Seq::<Seq<u8>>::empty() + complete_lines(chunk@) =~= complete_lines(chunk@));
    }
    while i < chunk.len() && lines.len() < rows as usize
        invariant
            0 < rows as usize,
            start <= i <= chunk@.len(),
            lines.deep_view().len() <= rows as int,
            all == complete_lines(chunk@),
            all == lines.deep_view() + complete_lines(chunk@.skip(start as int)),
            forall|j: int| start <= j < i ==> chunk@[j] != NEWLINE,
            serialized(lines.deep_view()).len() == start,
        decreases chunk@.len() - i,
    {
        if chunk[i] == NEWLINE {
            let line = copy_range(chunk, start, i);
            let ghost old_deep = lines.deep_view();
            proof {
                let suffix = chunk@.skip(start as int);
                assert(suffix[(i - start) as int] == NEWLINE);
                assert forall|j: int| 0 <= j < (i - start) as int implies suffix[j] != NEWLINE by {
                    assert(suffix[j] == chunk@[start + j]);
                }
                lemma_complete_lines_step(suffix, (i - start) as int);
                assert(suffix.take((i - start) as int) =~= line@);
                assert(suffix.skip((i - start) as int + 1) =~= chunk@.skip((i + 1) as int));
            }
            let ghost pre = lines;
            lines.push(line);
            proof {
                lemma_deep_view_push(pre, lines, line);
                assert(lines.deep_view() =~= old_deep.push(line@));
                assert(all =~= lines.deep_view() + complete_lines(chunk@.skip((i + 1) as int)));
                lemma_serialized_push(old_deep, line@);
                assert(serialized(lines.deep_view()).len() == i + 1);
            }
            start = i + 1;
        }
        i = i + 1;
    }
    proof {
        if lines.deep_view().len() == rows as int {
            assert(all.take(rows as int) =~= lines.deep_view());
            assert(all.len() >= rows as int);
            assert(rendered_lines(chunk@, rows as int) == lines.deep_view());
        } else {
            assert(i == chunk@.len());
            let suffix = chunk@.skip(start as int);
            assert forall|j: int| 0 <= j < suffix.len() implies suffix[j] != NEWLINE by {
                assert(suffix[j] == chunk@[start + j]);
            }
            lemma_complete_lines_none(suffix);
            assert(all =~= lines.deep_view());
            assert(rendered_lines(chunk@, rows as int) == lines.deep_view());
        }
    }
    (lines, start)
}

/// The full viewport grid: the rendered lines, then one sentinel row for each
/// viewport row below the end of the file.
pub open spec fn padded_rows(lines: Seq<Seq<u8>>, rows: int) -> Seq<Seq<u8>> {
    lines + Seq::new((rows - lines.len()) as nat, |i: int| seq![SENTINEL])
}

/// Pads the rendered lines with sentinel rows up to the viewport height.
pub fn display_rows(lines: &Vec<Vec<u8>>, rows: u16) -> (out: Vec<Vec<u8>>)
    requires
        lines@.len() <= rows as int,
    ensures
        out.deep_view() == padded_rows(lines.deep_view(), rows as int),
        out@.len() == rows as int,
{
    let mut out: Vec<Vec<u8>> = Vec::new();
    let mut i: usize = 0;
    proof {
        assert(out.deep_view() =~= lines.deep_view().take(0));
    }
    while i < lines.len()
        invariant
            i <= lines@.len() <= rows as int,
            out@.len() == i,
            out.deep_view() == lines.deep_view().take(i as int),
        decreases lines@.len() - i,
    {
        let row = copy_range(&lines[i], 0, lines[i].len());
        let ghost pre = out;
        out.push(row);
        proof {
            lemma_deep_view_push(pre, out, row);
            lemma_bytes_deep_view(lines@[i as int]);
            assert(row@ =~= lines@[i as int]@);
            assert(out.deep_view() =~= lines.deep_view().take((i + 1) as int));
        }
        i = i + 1;
    }
    proof {
        assert(lines.deep_view().take(lines@.len() as int) =~= lines.deep_view());
    }
    while out.len() < rows as usize
        invariant
            lines@.len() <= out@.len() <= rows as int,
            out.deep_view() == lines.deep_view()
                + Seq::new((out@.len() - lines@.len()) as nat, |q: int| seq![SENTINEL]),
        decreases rows as int - out@.len(),
    {
        let mut pad: Vec<u8> = Vec::new();
        pad.push(SENTINEL);
        let ghost pre = out;
        out.push(pad);
        proof {
            lemma_deep_view_push(pre, out, pad);
            assert(pad@ =~= seq![SENTINEL]);
            assert(out.deep_view() =~= lines.deep_view()
                + Seq::new((out@.len() - lines@.len()) as nat, |q: int| seq![SENTINEL]));
        }
    }
    proof {
        assert(out.deep_view() =~= padded_rows(lines.deep_view(), rows as int));
    }
    out
}

} // verus!
