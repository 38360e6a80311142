//! Counting the work a frame describes: source lines, shapes and vertices.
use vstd::prelude::*;
use vstd::string::StrSliceExecFns;

use crate::bundle::{line_end, lines_from, lines_of, strip_cr};
use crate::text::{is_space, space};

verus! {

/// Segments a circle is drawn with.
pub const SEGS: usize = 64;

/// The kind of a queued shape.
#[derive(Clone, Copy, Debug, PartialEq, Eq, Structural)]
pub enum ShapeKind {
    Rect,
    Circle,
    Line,
}

/// Vertices a shape of kind `k` is drawn with: two triangles for a rectangle or
/// a line, `SEGS` triangles for a circle.
pub open spec fn vertices_of(k: ShapeKind) -> nat {
    match k {
        ShapeKind::Rect => 6,
        ShapeKind::Circle => (SEGS * 3) as nat,
        ShapeKind::Line => 6,
    }
}

/// Vertices of all the shapes `ks`.
pub open spec fn total_vertices_of(ks: Seq<ShapeKind>) -> nat
    decreases ks.len(),
{
    if ks.len() == 0 {
        0
    } else {
        total_vertices_of(ks.drop_last()) + vertices_of(ks.last())
    }
}

/// Vertices a shape of kind `k` is drawn with.
pub fn vertex_count(k: ShapeKind) -> (n: usize)
    ensures
        n == vertices_of(k),
{
    match k {
        ShapeKind::Rect => 6,
        ShapeKind::Circle => SEGS * 3,
        ShapeKind::Line => 6,
    }
}

proof fn lemma_total_vertices_bound(ks: Seq<ShapeKind>)
    ensures
        total_vertices_of(ks) <= ks.len() * 192,
    decreases ks.len(),
{
    if ks.len() > 0 {
        lemma_total_vertices_bound(ks.drop_last());
    }
}

/// Vertices of all the shapes `ks`, as the frame report gives them.
pub fn total_vertices(ks: &Vec<ShapeKind>) -> (n: usize)
    requires
        ks@.len() * 192 <= usize::MAX,
    ensures
        n == total_vertices_of(ks@),
{
    let len = ks.len();
    let mut total: usize = 0;
    let mut i: usize = 0;
    while i < len
        invariant
            len == ks@.len(),
            len * 192 <= usize::MAX,
            i <= len,
            total == total_vertices_of(ks@.take(i as int)),
        decreases len - i,
    {
        proof {
            lemma_total_vertices_bound(ks@.take(i as int));
            assert(ks@.take(i + 1).drop_last() == ks@.take(i as int));
            assert(ks@.take(i + 1).last() == ks@[i as int]);
            assert(i * 192 + 192 <= len * 192) by (nonlinear_arith)
                requires
                    i < len,
            ;
        }
        total = total + vertex_count(ks[i]);
        i = i + 1;
    }
    proof {
        assert(ks@.take(len as int) == ks@);
    }
    total
}

/// Lines of `s`, split at `\n`, that hold a character other than white space;
/// `has_text` says whether the line already begun holds one.
pub open spec fn nonblank_lines_from(s: Seq<char>, has_text: bool) -> nat
    decreases s.len(),
{
    if s.len() == 0 {
        if has_text {
            1
        } else {
            0
        }
    } else if s[0] == '\n' {
        (if has_text {
            1nat
        } else {
            0nat
        }) + nonblank_lines_from(s.drop_first(), false)
    } else {
        nonblank_lines_from(s.drop_first(), has_text || !is_space(s[0]))
    }
}

/// Number of lines of `s` that are not blank (hold a character other than white space).
pub open spec fn nonblank_lines(s: Seq<char>) -> nat {
    nonblank_lines_from(s, false)
}

proof fn lemma_nonblank_bound(s: Seq<char>, has_text: bool)
    ensures
        nonblank_lines_from(s, has_text) <= s.len() + 1,
    decreases s.len(),
{
    if s.len() > 0 {
        lemma_nonblank_bound(s.drop_first(), false);
        lemma_nonblank_bound(s.drop_first(), has_text || !is_space(s[0]));
    }
}

/// Number of non-blank lines of a program's source text.
pub fn count_nonblank_lines(source: &str) -> (n: usize)
    ensures
        n == nonblank_lines(source@),
{
    let mut count: usize = 0;
    let mut seen = false;
    let ghost s = source@;
    let total = source.unicode_len();
    proof {
        assert(s.skip(0) == s);
    }
    for c in it: source.chars()
        invariant
            it.seq() == s,
            count + nonblank_lines_from(s.skip(it.index() as int), seen) == nonblank_lines(s),
            count + (if seen { 1int } else { 0int }) <= it.index(),
            total == s.len(),
    {
        let ghost i = it.index();
        proof {
            assert(s.skip(i)[0] == c);
            assert(s.skip(i).drop_first() == s.skip(i + 1));
            lemma_nonblank_bound(s.skip(i + 1), false);
        }
        if c == '\n' {
            if seen {
                count = count + 1;
            }
            seen = false;
        } else if !seen && !space(c) {
            seen = true;
        }
    }
    proof {
        assert(s.skip(s.len() as int).len() == 0);
    }
    if seen {
        count = count + 1;
    }
    count
}

/// The line holds a character other than white space, i.e. it is not empty once trimmed.
pub open spec fn has_text(l: Seq<char>) -> bool {
    exists|i: int| 0 <= i < l.len() && !is_space(#[trigger] l[i])
}

/// Number of the lines `ls` that are not blank.
pub open spec fn count_text_lines(ls: Seq<Seq<char>>) -> nat
    decreases ls.len(),
{
    if ls.len() == 0 {
        0
    } else {
        (if has_text(ls[0]) {
            1nat
        } else {
            0nat
        }) + count_text_lines(ls.drop_first())
    }
}

proof fn lemma_line_end_scan(s: Seq<char>, k: int)
    requires
        0 <= k <= s.len(),
    ensures
        k <= line_end(s, k) <= s.len(),
        forall|j: int| k <= j < line_end(s, k) ==> s[j] != '\n',
        forall|j: int| k <= j <= line_end(s, k) ==> line_end(s, j) == line_end(s, k),
        line_end(s, k) < s.len() ==> s[line_end(s, k)] == '\n',
    decreases s.len() - k,
{
    if k < s.len() && s[k] != '\n' {
        lemma_line_end_scan(s, k + 1);
    }
}

proof fn lemma_scan_line(s: Seq<char>, j: int, e: int, h: bool)
    requires
        0 <= j <= e <= s.len(),
        forall|m: int| j <= m < e ==> s[m] != '\n',
    ensures
        nonblank_lines_from(s.skip(j), h) == nonblank_lines_from(
            s.skip(e),
            h || has_text(s.subrange(j, e)),
        ),
    decreases e - j,
{
    if j == e {
        assert(!has_text(s.subrange(j, e)));
    } else {
        let h2 = h || !is_space(s[j]);
        lemma_scan_line(s, j + 1, e, h2);
        assert(s.skip(j)[0] == s[j]);
        assert(s.skip(j).drop_first() == s.skip(j + 1));
        let r = s.subrange(j, e);
        let r1 = s.subrange(j + 1, e);
        assert(has_text(r) == (!is_space(s[j]) || has_text(r1))) by {
            if has_text(r1) {
                let i = choose|i: int| 0 <= i < r1.len() && !is_space(#[trigger] r1[i]);
                assert(r[i + 1] == r1[i]);
            }
            if !is_space(s[j]) {
                assert(r[0] == s[j]);
            }
            if has_text(r) {
                let i = choose|i: int| 0 <= i < r.len() && !is_space(#[trigger] r[i]);
                if i > 0 {
                    assert(r1[i - 1] == r[i]);
                }
            }
        }
    }
}

proof fn lemma_nonblank_lines_from(s: Seq<char>, k: int)
    requires
        0 <= k <= s.len(),
    ensures
        nonblank_lines_from(s.skip(k), false) == count_text_lines(lines_from(s, k)),
    decreases s.len() - k,
{
    if k == s.len() {
        assert(s.skip(k).len() == 0);
    } else {
        lemma_line_end_scan(s, k);
        let e = line_end(s, k);
        let raw = s.subrange(k, e);
        lemma_scan_line(s, k, e, false);
        let ls = lines_from(s, k);
        let line = if e < s.len() { strip_cr(raw) } else { raw };
        assert(ls == seq![line] + lines_from(s, e + 1));
        assert(ls[0] == line);
        assert(ls.drop_first() == lines_from(s, e + 1));
        assert(has_text(line) == has_text(raw)) by {
            if has_text(raw) && line != raw {
                let i = choose|i: int| 0 <= i < raw.len() && !is_space(#[trigger] raw[i]);
                assert(raw.last() == '\r');
                assert(is_space(raw.last()));
                assert(i < raw.len() - 1);
                assert(line[i] == raw[i]);
            }
            if has_text(line) && line != raw {
                let i = choose|i: int| 0 <= i < line.len() && !is_space(#[trigger] line[i]);
                assert(raw[i] == line[i]);
            }
        }
        if e < s.len() {
            assert(s.skip(e)[0] == '\n');
            assert(s.skip(e).drop_first() == s.skip(e + 1));
            lemma_nonblank_lines_from(s, e + 1);
            assert(nonblank_lines_from(s.skip(e), has_text(raw)) == (if has_text(raw) {
                1nat
            } else {
                0nat
            }) + nonblank_lines_from(s.skip(e + 1), false));
        } else {
            assert(s.skip(e).len() == 0);
            assert(lines_from(s, e + 1).len() == 0);
            assert(count_text_lines(lines_from(s, e + 1)) == 0);
        }
        assert(count_text_lines(ls) == (if has_text(line) {
            1nat
        } else {
            0nat
        }) + count_text_lines(ls.drop_first()));
    }
}

/// The count is the number of the source's lines, as std's `str::lines` splits
/// them, that are not blank once trimmed; a line of white space only (a `\r`
/// before its `\n` included) never counts.
pub proof fn lemma_nonblank_counts_std_lines(s: Seq<char>)
    ensures
        nonblank_lines(s) == count_text_lines(lines_of(s)),
{
    assert(s.skip(0) == s);
    lemma_nonblank_lines_from(s, 0);
}

} // verus!
