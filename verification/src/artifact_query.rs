//! Querying the artifacts of an instance: listing, viewing, searching, the timeline,
//! and the line diff between two executions of a node.
use vstd::prelude::*;
use crate::executor::concat_all;
use crate::state::{clone_opt, TraceEvent};
use crate::text::{
    chars_of, decimal, lines, lines_of, opt_str_view, opt_view, push_decimal, push_str, str_eq, views,
};

verus! {

// ---------------------------------------------------------------------------
// Line diff

/// One line of a diff: kept, added, removed, or a gap where unchanged lines were left out.
#[derive(Debug)]
pub enum DiffLine {
    Context(String),
    Added(String),
    Removed(String),
    Separator,
}

/// What a diff line says, as a value.
pub enum DiffView {
    Context(Seq<char>),
    Added(Seq<char>),
    Removed(Seq<char>),
    Separator,
}

impl View for DiffLine {
    type V = DiffView;

    open spec fn view(&self) -> DiffView {
        match self {
            DiffLine::Context(s) => DiffView::Context(s@),
            DiffLine::Added(s) => DiffView::Added(s@),
            DiffLine::Removed(s) => DiffView::Removed(s@),
            DiffLine::Separator => DiffView::Separator,
        }
    }
}

/// The lines of a diff, as values.
pub open spec fn diff_view(d: Seq<DiffLine>) -> Seq<DiffView> {
    d.map_values(|l: DiffLine| l@)
}

/// Length of a longest common subsequence of `a[..i]` and `b[..j]`.
pub open spec fn lcs(a: Seq<Seq<char>>, b: Seq<Seq<char>>, i: int, j: int) -> int
    decreases i + j,
{
    if i <= 0 || j <= 0 {
        0
    } else if a[i - 1] == b[j - 1] {
        lcs(a, b, i - 1, j - 1) + 1
    } else {
        vstd::math::max(lcs(a, b, i - 1, j), lcs(a, b, i, j - 1))
    }
}

/// The diff of `a[..i]` against `b[..j]` along a longest common subsequence: equal last
/// lines are kept; otherwise the last line of `b` is added when that loses nothing,
/// else the last line of `a` is removed.
pub open spec fn diff_script(a: Seq<Seq<char>>, b: Seq<Seq<char>>, i: int, j: int) -> Seq<DiffView>
    decreases i + j,
{
    if i < 0 || j < 0 {
        seq![]
    } else if i > 0 && j > 0 && a[i - 1] == b[j - 1] {
        diff_script(a, b, i - 1, j - 1).push(DiffView::Context(a[i - 1]))
    } else if j > 0 && (i <= 0 || lcs(a, b, i, j - 1) >= lcs(a, b, i - 1, j)) {
        diff_script(a, b, i, j - 1).push(DiffView::Added(b[j - 1]))
    } else if i > 0 {
        diff_script(a, b, i - 1, j).push(DiffView::Removed(a[i - 1]))
    } else {
        seq![]
    }
}

/// The line diff of `old` against `new`.
pub open spec fn line_diff(old: Seq<char>, new: Seq<char>) -> Seq<DiffView> {
    let a = lines(old);
    let b = lines(new);
    diff_script(a, b, a.len() as int, b.len() as int)
}

/// The common-subsequence length of two prefixes lies between 0 and the shorter prefix.
pub proof fn lemma_lcs_bounds(a: Seq<Seq<char>>, b: Seq<Seq<char>>, i: int, j: int)
    requires
        0 <= i,
        0 <= j,
    ensures
        0 <= lcs(a, b, i, j) <= i,
        lcs(a, b, i, j) <= j,
    decreases i + j,
{
    if i > 0 && j > 0 {
        lemma_lcs_bounds(a, b, i - 1, j - 1);
        lemma_lcs_bounds(a, b, i - 1, j);
        lemma_lcs_bounds(a, b, i, j - 1);
    }
}

fn clone_diff_line(l: &DiffLine) -> (r: DiffLine)
    ensures
        r@ == l@,
{
    match l {
        DiffLine::Context(s) => DiffLine::Context(s.clone()),
        DiffLine::Added(s) => DiffLine::Added(s.clone()),
        DiffLine::Removed(s) => DiffLine::Removed(s.clone()),
        DiffLine::Separator => DiffLine::Separator,
    }
}

/// `row[..upto]` holds `lcs(a, b, r, c)` for each column `c`.
pub open spec fn row_holds(row: Seq<usize>, a: Seq<Seq<char>>, b: Seq<Seq<char>>, r: int, upto: int) -> bool {
    forall|c: int| 0 <= c < upto ==> #[trigger] row[c] == lcs(a, b, r, c)
}

/// The first `rows` rows of `dp` hold the LCS table, each with `n + 1` columns.
pub open spec fn table_holds(dp: Seq<Vec<usize>>, a: Seq<Seq<char>>, b: Seq<Seq<char>>, rows: int, n: int) -> bool {
    forall|r: int|
        0 <= r < rows ==> #[trigger] dp[r]@.len() == n + 1 && row_holds(dp[r]@, a, b, r, n + 1)
}

/// The table of `lcs(a, b, i, j)` for all `i <= a.len()`, `j <= b.len()`.
fn lcs_table(a: &Vec<String>, b: &Vec<String>) -> (dp: Vec<Vec<usize>>)
    ensures
        dp@.len() == a@.len() + 1,
        table_holds(dp@, views(a@), views(b@), a@.len() + 1 as int, b@.len() as int),
{
    let ghost av = views(a@);
    let ghost bv = views(b@);
    let n = b.len();
    let m = a.len();
    let mut dp: Vec<Vec<usize>> = Vec::new();
    let mut row0: Vec<usize> = Vec::new();
    row0.push(0);
    let mut k: usize = 0;
    while k < n
        invariant
            n == b@.len(),
            k <= n,
            row0@.len() == k + 1,
            forall|c: int| 0 <= c <= k ==> #[trigger] row0@[c] == 0,
        decreases n - k,
    {
        row0.push(0);
        k = k + 1;
    }
    proof {
        assert forall|c: int| 0 <= c < n + 1 implies #[trigger] row0@[c] == lcs(av, bv, 0, c) by {}
    }
    dp.push(row0);
    let mut i: usize = 0;
    while i < m
        invariant
            n == b@.len(),
            m == a@.len(),
            av == views(a@),
            bv == views(b@),
            i <= m,
            dp@.len() == i + 1,
            table_holds(dp@, av, bv, i + 1, n as int),
        decreases m - i,
    {
        let mut row: Vec<usize> = Vec::new();
        row.push(0);
        let mut j: usize = 0;
        while j < n
            invariant
                n == b@.len(),
                m == a@.len(),
                av == views(a@),
                bv == views(b@),
                i < m,
                dp@.len() == i + 1,
                table_holds(dp@, av, bv, i + 1, n as int),
                j <= n,
                row@.len() == j + 1,
                row_holds(row@, av, bv, i + 1, j + 1),
            decreases n - j,
        {
            proof {
                lemma_lcs_bounds(av, bv, i as int, j as int);
                assert(dp@[i as int]@.len() == n + 1 && row_holds(dp@[i as int]@, av, bv, i as int, n + 1));
                assert(dp@[i as int]@[j as int] == lcs(av, bv, i as int, j as int));
                assert(dp@[i as int]@[j + 1] == lcs(av, bv, i as int, j + 1));
                assert(row@[j as int] == lcs(av, bv, i + 1, j as int));
                assert(av[i as int] == a@[i as int]@ && bv[j as int] == b@[j as int]@);
            }
            let v = if a[i] == b[j] {
                dp[i][j] + 1
            } else {
                let up = dp[i][j + 1];
                let left = row[j];
                if up >= left {
                    up
                } else {
                    left
                }
            };
            let ghost prev_row = row@;
            row.push(v);
            proof {
                assert forall|c: int| 0 <= c < j + 2 implies #[trigger] row@[c] == lcs(av, bv, i + 1, c) by {
                    if c < j + 1 {
                        assert(row@[c] == prev_row[c]);
                    }
                }
            }
            j = j + 1;
        }
        dp.push(row);
        proof {
            assert forall|r: int| 0 <= r < i + 2 implies #[trigger] dp@[r]@.len() == n + 1 && row_holds(dp@[r]@, av, bv, r, n + 1) by {
                if r < i + 1 {
                }
            }
        }
        i = i + 1;
    }
    dp
}

/// The diff of the lines of `old` against those of `new`, along a longest common
/// subsequence of lines.
pub fn compute_diff(old: &str, new: &str) -> (r: Vec<DiffLine>)
    ensures
        diff_view(r@) == line_diff(old@, new@),
{
    let old_lines = lines_of(old);
    let new_lines = lines_of(new);
    let ghost av = views(old_lines@);
    let ghost bv = views(new_lines@);
    let m = old_lines.len();
    let n = new_lines.len();
    let dp = lcs_table(&old_lines, &new_lines);
    let mut tail: Vec<DiffLine> = Vec::new();
    let ghost mut rest: Seq<DiffView> = seq![];
    let mut i = m;
    let mut j = n;
    while i > 0 || j > 0
        invariant
            av == views(old_lines@),
            bv == views(new_lines@),
            m == old_lines@.len(),
            n == new_lines@.len(),
            i <= m,
            j <= n,
            dp@.len() == m + 1,
            table_holds(dp@, av, bv, m + 1, n as int),
            diff_script(av, bv, m as int, n as int) == diff_script(av, bv, i as int, j as int) + rest,
            tail@.len() == rest.len(),
            forall|k: int| 0 <= k < rest.len() ==> #[trigger] tail@[k]@ == rest[rest.len() - 1 - k],
        decreases i + j,
    {
        let ghost before = rest;
        let ghost (i0, j0) = (i as int, j as int);
        proof {
            if i > 0 {
                assert(av[i - 1] == old_lines@[i - 1]@);
                assert(row_holds(dp@[i as int]@, av, bv, i as int, n + 1));
                assert(row_holds(dp@[i - 1]@, av, bv, i - 1, n + 1));
                assert(dp@[i - 1]@[j as int] == lcs(av, bv, i - 1, j as int));
            }
            if j > 0 {
                assert(bv[j - 1] == new_lines@[j - 1]@);
                assert(row_holds(dp@[i as int]@, av, bv, i as int, n + 1));
                assert(dp@[i as int]@[j - 1] == lcs(av, bv, i as int, j - 1));
            }
        }
        let line = if i > 0 && j > 0 && old_lines[i - 1] == new_lines[j - 1] {
            let l = DiffLine::Context(old_lines[i - 1].clone());
            proof {
                assert(diff_script(av, bv, i0, j0) == diff_script(av, bv, i0 - 1, j0 - 1).push(l@));
            }
            i = i - 1;
            j = j - 1;
            l
        } else if j > 0 && (i == 0 || dp[i][j - 1] >= dp[i - 1][j]) {
            let l = DiffLine::Added(new_lines[j - 1].clone());
            proof {
                assert(diff_script(av, bv, i0, j0) == diff_script(av, bv, i0, j0 - 1).push(l@));
            }
            j = j - 1;
            l
        } else {
            let l = DiffLine::Removed(old_lines[i - 1].clone());
            proof {
                assert(diff_script(av, bv, i0, j0) == diff_script(av, bv, i0 - 1, j0).push(l@));
            }
            i = i - 1;
            l
        };
        proof {
            rest = seq![line@] + before;
            assert(diff_script(av, bv, i as int, j as int) + rest =~= diff_script(
                av,
                bv,
                i as int,
                j as int,
            ).push(line@) + before);
        }
        let ghost tb = tail@;
        tail.push(line);
        proof {
            assert forall|k: int| 0 <= k < rest.len() implies #[trigger] tail@[k]@ == rest[rest.len()
                - 1 - k] by {
                if k < before.len() {
                    assert(tail@[k] == tb[k]);
                    assert(rest[rest.len() - 1 - k] == before[before.len() - 1 - k]);
                }
            }
        }
    }
    proof {
        assert(diff_script(av, bv, 0, 0) =~= Seq::<DiffView>::empty());
        assert(rest =~= diff_script(av, bv, m as int, n as int));
    }
    let ghost total = rest;
    let mut out: Vec<DiffLine> = Vec::new();
    while tail.len() > 0
        invariant
            total == diff_view(out@) + rest,
            tail@.len() == rest.len(),
            forall|k: int| 0 <= k < rest.len() ==> #[trigger] tail@[k]@ == rest[rest.len() - 1 - k],
        decreases tail@.len(),
    {
        let ghost before = rest;
        let ghost tb = tail@;
        let line = tail.pop().unwrap();
        proof {
            assert(line@ == before[0]);
            rest = before.drop_first();
            assert(diff_view(out@.push(line)) =~= diff_view(out@).push(line@));
            assert(diff_view(out@).push(line@) + rest =~= diff_view(out@) + before);
            assert forall|k: int| 0 <= k < rest.len() implies #[trigger] tail@[k]@ == rest[rest.len()
                - 1 - k] by {
                assert(tail@[k] == tb[k]);
                assert(rest[rest.len() - 1 - k] == before[before.len() - 1 - k]);
            }
        }
        out.push(line);
    }
    proof {
        assert(diff_view(out@) + rest =~= diff_view(out@));
    }
    out
}

} // verus!

verus! {

/// The lines of the old text that a diff shows: kept and removed ones, in order.
pub open spec fn old_side(d: Seq<DiffView>) -> Seq<Seq<char>>
    decreases d.len(),
{
    if d.len() == 0 {
        seq![]
    } else {
        let r = old_side(d.drop_last());
        match d.last() {
            DiffView::Context(l) => r.push(l),
            DiffView::Removed(l) => r.push(l),
            _ => r,
        }
    }
}

/// The lines of the new text that a diff shows: kept and added ones, in order.
pub open spec fn new_side(d: Seq<DiffView>) -> Seq<Seq<char>>
    decreases d.len(),
{
    if d.len() == 0 {
        seq![]
    } else {
        let r = new_side(d.drop_last());
        match d.last() {
            DiffView::Context(l) => r.push(l),
            DiffView::Added(l) => r.push(l),
            _ => r,
        }
    }
}

/// The number of kept lines in a diff.
pub open spec fn kept_count(d: Seq<DiffView>) -> int
    decreases d.len(),
{
    if d.len() == 0 {
        0
    } else {
        kept_count(d.drop_last()) + if d.last() is Context {
            1int
        } else {
            0int
        }
    }
}

proof fn lemma_script_sides(a: Seq<Seq<char>>, b: Seq<Seq<char>>, i: int, j: int)
    requires
        0 <= i <= a.len(),
        0 <= j <= b.len(),
    ensures
        old_side(diff_script(a, b, i, j)) == a.take(i),
        new_side(diff_script(a, b, i, j)) == b.take(j),
        kept_count(diff_script(a, b, i, j)) == lcs(a, b, i, j),
    decreases i + j,
{
    let d = diff_script(a, b, i, j);
    if i > 0 && j > 0 && a[i - 1] == b[j - 1] {
        lemma_script_sides(a, b, i - 1, j - 1);
        assert(d.drop_last() == diff_script(a, b, i - 1, j - 1));
        assert(a.take(i - 1).push(a[i - 1]) =~= a.take(i));
        assert(b.take(j - 1).push(b[j - 1]) =~= b.take(j));
    } else if j > 0 && (i <= 0 || lcs(a, b, i, j - 1) >= lcs(a, b, i - 1, j)) {
        lemma_script_sides(a, b, i, j - 1);
        assert(d.drop_last() == diff_script(a, b, i, j - 1));
        assert(b.take(j - 1).push(b[j - 1]) =~= b.take(j));
    } else if i > 0 {
        lemma_script_sides(a, b, i - 1, j);
        assert(d.drop_last() == diff_script(a, b, i - 1, j));
        assert(a.take(i - 1).push(a[i - 1]) =~= a.take(i));
    } else {
        assert(a.take(0) =~= Seq::<Seq<char>>::empty());
        assert(b.take(0) =~= Seq::<Seq<char>>::empty());
    }
}

/// A diff loses no line: its kept and removed lines, in order, are the lines of the old
/// text, its kept and added lines are those of the new text, and it keeps as many lines
/// as a longest common subsequence of the two has.
pub proof fn law_diff_reconstructs(old: Seq<char>, new: Seq<char>)
    ensures
        old_side(line_diff(old, new)) == lines(old),
        new_side(line_diff(old, new)) == lines(new),
        kept_count(line_diff(old, new)) == lcs(
            lines(old),
            lines(new),
            lines(old).len() as int,
            lines(new).len() as int,
        ),
{
    let a = lines(old);
    let b = lines(new);
    lemma_script_sides(a, b, a.len() as int, b.len() as int);
    assert(a.take(a.len() as int) =~= a);
    assert(b.take(b.len() as int) =~= b);
}

/// The diff of `a[..i]` with itself keeps every line.
proof fn lemma_script_same(a: Seq<Seq<char>>, i: int)
    requires
        0 <= i <= a.len(),
    ensures
        forall|k: int|
            0 <= k < diff_script(a, a, i, i).len() ==> #[trigger] diff_script(a, a, i, i)[k]
                is Context,
        diff_script(a, a, i, i).len() == i,
    decreases i,
{
    if i > 0 {
        lemma_script_same(a, i - 1);
    }
}

/// A text compared with itself shows no change: every line of the diff is kept.
pub proof fn law_diff_of_same_text_keeps_all(text: Seq<char>)
    ensures
        forall|k: int|
            0 <= k < line_diff(text, text).len() ==> #[trigger] line_diff(text, text)[k] is Context,
        line_diff(text, text).len() == lines(text).len(),
{
    lemma_script_same(lines(text), lines(text).len() as int);
}

} // verus!

verus! {

/// A line that is not kept: added, removed, or a gap.
pub open spec fn is_change(l: DiffView) -> bool {
    !(l is Context)
}

/// Position `k` lies within `ctx` lines of some change in `d`.
pub open spec fn near_change(d: Seq<DiffView>, ctx: int, k: int) -> bool {
    exists|c: int| 0 <= c < d.len() && #[trigger] is_change(d[c]) && c - ctx <= k <= c + ctx
}

/// Near position `k`, the change at `c` lies within `ctx` lines among the first `upto` lines.
pub open spec fn near_change_before(d: Seq<DiffView>, ctx: int, k: int, upto: int) -> bool {
    exists|c: int| 0 <= c < upto && #[trigger] is_change(d[c]) && c - ctx <= k <= c + ctx
}

/// The lines from `k` on that lie near a change, with one gap marker in place of each run
/// of lines left out after a shown line (`prev`: the line before `k` was shown).
pub open spec fn windowed(d: Seq<DiffView>, ctx: int, k: int, prev: bool) -> Seq<DiffView>
    decreases d.len() - k,
{
    if k < 0 || k >= d.len() {
        seq![]
    } else if near_change(d, ctx, k) {
        seq![d[k]] + windowed(d, ctx, k + 1, true)
    } else if prev {
        seq![DiffView::Separator] + windowed(d, ctx, k + 1, false)
    } else {
        windowed(d, ctx, k + 1, false)
    }
}

/// The diff cut down to the changes and `ctx` lines around each: nothing when nothing
/// changed, and no gap marker at the end.
pub open spec fn context_window(d: Seq<DiffView>, ctx: int) -> Seq<DiffView> {
    if !(exists|c: int| 0 <= c < d.len() && #[trigger] is_change(d[c])) {
        seq![]
    } else {
        let w = windowed(d, ctx, 0, false);
        if w.len() > 0 && w.last() is Separator {
            w.drop_last()
        } else {
            w
        }
    }
}

/// The added and removed lines of `s`, in order.
pub open spec fn edits(s: Seq<DiffView>) -> Seq<DiffView>
    decreases s.len(),
{
    if s.len() == 0 {
        seq![]
    } else {
        (if s[0] is Added || s[0] is Removed {
            seq![s[0]]
        } else {
            seq![]
        }) + edits(s.drop_first())
    }
}

proof fn lemma_edits_append(a: Seq<DiffView>, b: Seq<DiffView>)
    ensures
        edits(a + b) == edits(a) + edits(b),
    decreases a.len(),
{
    if a.len() == 0 {
        assert(a + b =~= b);
        assert(edits(a) =~= Seq::<DiffView>::empty());
        assert(edits(a) + edits(b) =~= edits(b));
    } else {
        lemma_edits_append(a.drop_first(), b);
        assert((a + b).drop_first() =~= a.drop_first() + b);
        assert((a + b)[0] == a[0]);
        assert(edits(a + b) =~= edits(a) + edits(b));
    }
}

proof fn lemma_edits_one(x: DiffView)
    ensures
        edits(seq![x]) == (if x is Added || x is Removed {
            seq![x]
        } else {
            Seq::<DiffView>::empty()
        }),
{
    let s = seq![x];
    assert(s.drop_first() =~= Seq::<DiffView>::empty());
    assert(edits(s.drop_first()) =~= Seq::<DiffView>::empty());
    assert(s[0] == x);
    if x is Added || x is Removed {
        assert(edits(s) =~= seq![x]);
    } else {
        assert(edits(s) =~= Seq::<DiffView>::empty());
    }
}

proof fn lemma_windowed_edits(d: Seq<DiffView>, ctx: int, k: int, prev: bool)
    requires
        ctx >= 0,
        0 <= k <= d.len(),
    ensures
        edits(windowed(d, ctx, k, prev)) == edits(d.skip(k)),
    decreases d.len() - k,
{
    if k == d.len() {
        assert(d.skip(k) =~= Seq::<DiffView>::empty());
    } else {
        let x = d[k];
        let sk = d.skip(k);
        assert(sk.drop_first() =~= d.skip(k + 1));
        assert(sk[0] == x);
        lemma_edits_one(x);
        assert(edits(sk) == edits(seq![x]) + edits(d.skip(k + 1)));
        if is_change(x) {
            assert(near_change(d, ctx, k));
        }
        if near_change(d, ctx, k) {
            lemma_windowed_edits(d, ctx, k + 1, true);
            lemma_edits_append(seq![x], windowed(d, ctx, k + 1, true));
        } else if prev {
            lemma_windowed_edits(d, ctx, k + 1, false);
            lemma_edits_append(seq![DiffView::Separator], windowed(d, ctx, k + 1, false));
            lemma_edits_one(DiffView::Separator);
            assert(edits(seq![x]) =~= Seq::<DiffView>::empty());
            assert(edits(windowed(d, ctx, k, prev)) =~= edits(d.skip(k)));
        } else {
            lemma_windowed_edits(d, ctx, k + 1, false);
            assert(edits(seq![x]) =~= Seq::<DiffView>::empty());
            assert(edits(d.skip(k)) =~= edits(d.skip(k + 1)));
        }
    }
}

/// Cutting a diff down to the lines around its changes drops no change: its added and
/// removed lines are those of the whole diff, in the same order.
pub proof fn law_context_limit_keeps_edits(d: Seq<DiffView>, ctx: int)
    requires
        ctx >= 0,
    ensures
        edits(context_window(d, ctx)) == edits(d),
{
    assert(d.skip(0) =~= d);
    lemma_windowed_edits(d, ctx, 0, false);
    if !(exists|c: int| 0 <= c < d.len() && #[trigger] is_change(d[c])) {
        lemma_no_edits(d);
    } else {
        let w = windowed(d, ctx, 0, false);
        if w.len() > 0 && w.last() is Separator {
            assert(w =~= w.drop_last() + seq![w.last()]);
            lemma_edits_append(w.drop_last(), seq![w.last()]);
            lemma_edits_one(w.last());
            assert(edits(w.drop_last()) + Seq::<DiffView>::empty() =~= edits(w.drop_last()));
        }
    }
}

proof fn lemma_no_edits(d: Seq<DiffView>)
    requires
        forall|c: int| 0 <= c < d.len() ==> !is_change(#[trigger] d[c]),
    ensures
        edits(d) == Seq::<DiffView>::empty(),
    decreases d.len(),
{
    if d.len() > 0 {
        assert(!is_change(d[0]));
        assert forall|c: int| 0 <= c < d.drop_first().len() implies !is_change(#[trigger] d.drop_first()[c]) by {
            assert(d.drop_first()[c] == d[c + 1]);
        }
        lemma_no_edits(d.drop_first());
        assert(edits(d) =~= Seq::<DiffView>::empty());
    }
}

fn line_is_change(l: &DiffLine) -> (r: bool)
    ensures
        r == is_change(l@),
{
    match l {
        DiffLine::Context(_) => false,
        _ => true,
    }
}

/// The diff cut down to its changes and `context` lines around each, with a gap marker
/// where lines were left out between them.
pub fn apply_context_limit(diff: &[DiffLine], context: usize) -> (r: Vec<DiffLine>)
    requires
        diff@.len() + context < usize::MAX,
    ensures
        diff_view(r@) == context_window(diff_view(diff@), context as int),
{
    let ghost d = diff_view(diff@);
    let n = diff.len();
    let ghost ctx = context as int;
    let mut any = false;
    let mut shown: Vec<bool> = Vec::new();
    let mut k: usize = 0;
    while k < n
        invariant
            n == diff@.len(),
            k <= n,
            shown@.len() == k,
            forall|m: int| 0 <= m < k ==> !#[trigger] shown@[m],
        decreases n - k,
    {
        shown.push(false);
        k = k + 1;
    }
    let mut c: usize = 0;
    while c < n
        invariant
            n == diff@.len(),
            d == diff_view(diff@),
            ctx == context as int,
            n + context < usize::MAX,
            c <= n,
            shown@.len() == n,
            forall|m: int| 0 <= m < n ==> #[trigger] shown@[m] == near_change_before(d, ctx, m, c as int),
            any == (exists|x: int| 0 <= x < c && #[trigger] is_change(d[x])),
        decreases n - c,
    {
        let ghost prev_inc = shown@;
        assert(d[c as int] == diff@[c as int]@);
        if line_is_change(&diff[c]) {
            any = true;
            let start = if c >= context {
                c - context
            } else {
                0
            };
            let end = if c + context + 1 <= n {
                c + context + 1
            } else {
                n
            };
            let mut m = start;
            while m < end
                invariant
                    shown@.len() == n,
                    start <= end <= n,
                    start <= m <= end,
                    forall|x: int| 0 <= x < n ==> #[trigger] shown@[x] == (prev_inc[x] || (start
                        <= x < m)),
                decreases end - m,
            {
                shown.set(m, true);
                m = m + 1;
            }
        }
        proof {
            assert forall|x: int| 0 <= x < n implies #[trigger] shown@[x] == near_change_before(
                d,
                ctx,
                x,
                c + 1,
            ) by {
                if near_change_before(d, ctx, x, c + 1) {
                    let w = choose|w: int| 0 <= w < c + 1 && #[trigger] is_change(d[w]) && w - ctx <= x
                        <= w + ctx;
                    if w < c {
                        assert(near_change_before(d, ctx, x, c as int));
                    }
                }
                if near_change_before(d, ctx, x, c as int) {
                    let w = choose|w: int| 0 <= w < c && #[trigger] is_change(d[w]) && w - ctx <= x <= w
                        + ctx;
                    assert(0 <= w < c + 1 && is_change(d[w]) && w - ctx <= x <= w + ctx);
                }
                if is_change(d[c as int]) && c - ctx <= x <= c + ctx {
                    assert(0 <= c < c + 1 && is_change(d[c as int]));
                }
            }
            if is_change(d[c as int]) {
                assert(0 <= c < c + 1 && is_change(d[c as int]));
            }
            if exists|x: int| 0 <= x < c + 1 && #[trigger] is_change(d[x]) {
                let w = choose|w: int| 0 <= w < c + 1 && #[trigger] is_change(d[w]);
                if w < c {
                    assert(exists|x: int| 0 <= x < c && #[trigger] is_change(d[x]));
                }
            }
        }
        c = c + 1;
    }
    let mut out: Vec<DiffLine> = Vec::new();
    if !any {
        proof {
            assert(diff_view(out@) =~= Seq::<DiffView>::empty());
        }
        return out;
    }
    proof {
        assert forall|m: int| 0 <= m < n implies #[trigger] shown@[m] == near_change(d, ctx, m) by {
            if near_change(d, ctx, m) {
                let w = choose|w: int| 0 <= w < d.len() && #[trigger] is_change(d[w]) && w - ctx <= m <= w + ctx;
                assert(near_change_before(d, ctx, m, n as int));
            }
        }
    }
    let mut prev = false;
    let mut i: usize = 0;
    while i < n
        invariant
            n == diff@.len(),
            d == diff_view(diff@),
            ctx == context as int,
            i <= n,
            shown@.len() == n,
            forall|m: int| 0 <= m < n ==> #[trigger] shown@[m] == near_change(d, ctx, m),
            windowed(d, ctx, 0, false) == diff_view(out@) + windowed(d, ctx, i as int, prev),
        decreases n - i,
    {
        let ghost o = diff_view(out@);
        let ghost p0 = prev;
        assert(d[i as int] == diff@[i as int]@);
        if shown[i] {
            let l = clone_diff_line(&diff[i]);
            out.push(l);
            prev = true;
            proof {
                assert(diff_view(out@) =~= o.push(d[i as int]));
                assert(windowed(d, ctx, i as int, p0) == seq![d[i as int]] + windowed(d, ctx, i + 1, true));
                assert(diff_view(out@) + windowed(d, ctx, i + 1, prev) =~= o + windowed(d, ctx, i as int, p0));
            }
        } else if prev {
            out.push(DiffLine::Separator);
            prev = false;
            proof {
                assert(diff_view(out@) =~= o.push(DiffView::Separator));
                assert(windowed(d, ctx, i as int, p0) == seq![DiffView::Separator] + windowed(d, ctx, i + 1, false));
                assert(diff_view(out@) + windowed(d, ctx, i + 1, prev) =~= o + windowed(d, ctx, i as int, p0));
            }
        } else {
            proof {
                assert(windowed(d, ctx, i as int, p0) == windowed(d, ctx, i + 1, false));
            }
        }
        i = i + 1;
    }
    proof {
        assert(diff_view(out@) + windowed(d, ctx, n as int, prev) =~= diff_view(out@));
        assert(exists|x: int| 0 <= x < d.len() && #[trigger] is_change(d[x]));
    }
    if out.len() > 0 {
        let last_is_gap = match &out[out.len() - 1] {
            DiffLine::Separator => true,
            _ => false,
        };
        if last_is_gap {
            let ghost o = diff_view(out@);
            out.pop();
            proof {
                assert(diff_view(out@) =~= o.drop_last());
            }
        }
    }
    out
}

} // verus!

verus! {

// ---------------------------------------------------------------------------
// Artifact entries

/// What an execution left behind: its artifact, an error, or nothing.
#[derive(Debug, Clone, Copy, PartialEq, Eq, Structural)]
pub enum ArtifactType {
    Detail,
    Error,
    Absent,
}

/// The name an artifact type is shown under.
pub open spec fn kind_name(t: ArtifactType) -> Seq<char> {
    match t {
        ArtifactType::Detail => "detail"@,
        ArtifactType::Error => "error"@,
        ArtifactType::Absent => "none"@,
    }
}

impl ArtifactType {
    /// The name of this kind (see `kind_name`).
    pub fn as_str(&self) -> (r: &'static str)
        ensures
            r@ == kind_name(*self),
    {
        match self {
            ArtifactType::Detail => "detail",
            ArtifactType::Error => "error",
            ArtifactType::Absent => "none",
        }
    }
}

/// The kind of artifact of an execution: none for the end node's `-`; otherwise a
/// non-empty `detail.md` before a non-empty `error.md`, and none when neither has content.
pub open spec fn kind_of(invoke: Seq<char>, detail_nonempty: bool, error_nonempty: bool) -> ArtifactType {
    if invoke == "-"@ {
        ArtifactType::Absent
    } else if detail_nonempty {
        ArtifactType::Detail
    } else if error_nonempty {
        ArtifactType::Error
    } else {
        ArtifactType::Absent
    }
}

/// The kind of artifact of an execution (see `kind_of`).
pub fn artifact_kind(invoke: &str, detail_nonempty: bool, error_nonempty: bool) -> (r: ArtifactType)
    ensures
        r == kind_of(invoke@, detail_nonempty, error_nonempty),
{
    if str_eq(invoke, "-") {
        ArtifactType::Absent
    } else if detail_nonempty {
        ArtifactType::Detail
    } else if error_nonempty {
        ArtifactType::Error
    } else {
        ArtifactType::Absent
    }
}

/// One execution of the trace with its artifact kind, numbered from 1.
#[derive(Debug)]
pub struct ArtifactEntry {
    pub order: usize,
    pub node: String,
    pub invoke: String,
    pub artifact_type: ArtifactType,
    pub status: String,
    pub time: String,
    pub branch: Option<String>,
}

/// The entry for trace row `e` at position `order`.
pub fn entry_of(order: usize, e: &TraceEvent, kind: ArtifactType) -> (r: ArtifactEntry)
    ensures
        r.order == order,
        r.node@ == e.node@,
        r.invoke@ == e.invoke@,
        r.artifact_type == kind,
        r.status@ == e.status@,
        r.time@ == e.time@,
        opt_view(r.branch) == opt_view(e.branch),
{
    ArtifactEntry {
        order,
        node: e.node.clone(),
        invoke: e.invoke.clone(),
        artifact_type: kind,
        status: e.status.clone(),
        time: e.time.clone(),
        branch: clone_opt(&e.branch),
    }
}

/// A node as shown with its branch: `node(branch)`.
pub open spec fn display_of(node: Seq<char>, branch: Option<Seq<char>>) -> Seq<char> {
    match branch {
        Some(b) => node + "("@ + b + ")"@,
        None => node,
    }
}

/// A node as shown with its branch (see `display_of`).
pub fn node_display(node: &str, branch: &Option<String>) -> (r: String)
    ensures
        r@ == display_of(node@, opt_view(*branch)),
{
    let mut s = String::from_str(node);
    match branch {
        Some(b) => {
            push_str(&mut s, "(");
            push_str(&mut s, b.as_str());
            push_str(&mut s, ")");
        },
        None => {},
    }
    s
}

/// The table row of an entry.
pub open spec fn entry_row(e: ArtifactEntry) -> Seq<char> {
    "| "@ + decimal(e.order as nat) + " | "@ + display_of(e.node@, opt_view(e.branch)) + " | "@
        + e.invoke@ + " | "@ + kind_name(e.artifact_type) + " | "@ + e.status@ + " | "@ + e.time@
        + " |\n"@
}

/// The header of the artifact tables.
pub open spec fn entries_header() -> Seq<char> {
    "| # | 节点 | 执行ID | 类型 | 状态 | 执行时间 |\n|---|------|--------|------|------|---------|\n"@
}

/// The artifact table of `es`: the header, then one row per entry.
pub open spec fn entries_table(es: Seq<ArtifactEntry>) -> Seq<char> {
    entries_header() + concat_all(Seq::new(es.len(), |i: int| entry_row(es[i])))
}

fn push_entry_row(s: &mut String, e: &ArtifactEntry)
    ensures
        final(s)@ == old(s)@ + entry_row(*e),
{
    let disp = node_display(e.node.as_str(), &e.branch);
    push_str(s, "| ");
    push_decimal(s, e.order);
    push_str(s, " | ");
    push_str(s, disp.as_str());
    push_str(s, " | ");
    push_str(s, e.invoke.as_str());
    push_str(s, " | ");
    push_str(s, e.artifact_type.as_str());
    push_str(s, " | ");
    push_str(s, e.status.as_str());
    push_str(s, " | ");
    push_str(s, e.time.as_str());
    push_str(s, " |\n");
    proof {
        assert(final(s)@ =~= old(s)@ + entry_row(*e));
    }
}

/// Appends the artifact table of `es` (see `entries_table`).
fn push_entries_table(s: &mut String, es: &[ArtifactEntry])
    ensures
        final(s)@ == old(s)@ + entries_table(es@),
{
    push_str(s, "| # | 节点 | 执行ID | 类型 | 状态 | 执行时间 |\n|---|------|--------|------|------|---------|\n");
    let ghost head = s@;
    let ghost rows = Seq::new(es@.len(), |i: int| entry_row(es@[i]));
    let mut i: usize = 0;
    while i < es.len()
        invariant
            i <= es.len(),
            rows == Seq::new(es@.len(), |i: int| entry_row(es@[i])),
            s@ == head + concat_all(rows.take(i as int)),
        decreases es.len() - i,
    {
        push_entry_row(s, &es[i]);
        proof {
            assert(rows.take(i + 1).drop_last() =~= rows.take(i as int));
            assert(rows.take(i + 1).last() == rows[i as int]);
        }
        i = i + 1;
    }
    proof {
        assert(rows.take(es@.len() as int) =~= rows);
        assert(s@ =~= old(s)@ + entries_table(es@));
    }
}

/// The artifact table of the entries (`artifact list`).
pub fn list_text(entries: &[ArtifactEntry]) -> (r: String)
    ensures
        r@ == entries_table(entries@),
{
    let mut s = String::new();
    push_entries_table(&mut s, entries);
    proof {
        assert(s@ =~= entries_table(entries@));
    }
    s
}

} // verus!

verus! {

/// The indices `k < upto` of `es` whose entry satisfies `p`, in order.
pub open spec fn picked(es: Seq<ArtifactEntry>, p: spec_fn(ArtifactEntry) -> bool, upto: int) -> Seq<int>
    decreases upto,
{
    if upto <= 0 || upto > es.len() {
        seq![]
    } else if p(es[upto - 1]) {
        picked(es, p, upto - 1).push(upto - 1)
    } else {
        picked(es, p, upto - 1)
    }
}

/// The entry is an execution with id `inv`.
pub open spec fn invoke_is(inv: Seq<char>) -> spec_fn(ArtifactEntry) -> bool {
    |e: ArtifactEntry| e.invoke@ == inv
}

/// The entry is an execution of node `n`.
pub open spec fn node_is(n: Seq<char>) -> spec_fn(ArtifactEntry) -> bool {
    |e: ArtifactEntry| e.node@ == n
}

/// The indices of the entries that satisfy `p` (see `picked`), for an exec test `p`
/// given as the sequence of its answers.
fn pick(es: &[ArtifactEntry], by_invoke: bool, key: &str) -> (r: Vec<usize>)
    ensures
        r@.map_values(|k: usize| k as int) == picked(
            es@,
            if by_invoke {
                invoke_is(key@)
            } else {
                node_is(key@)
            },
            es@.len() as int,
        ),
        forall|i: int| 0 <= i < r@.len() ==> #[trigger] r@[i] < es@.len(),
{
    let ghost p = if by_invoke {
        invoke_is(key@)
    } else {
        node_is(key@)
    };
    let mut r: Vec<usize> = Vec::new();
    let mut k: usize = 0;
    while k < es.len()
        invariant
            k <= es.len(),
            p == (if by_invoke {
                invoke_is(key@)
            } else {
                node_is(key@)
            }),
            r@.map_values(|k: usize| k as int) == picked(es@, p, k as int),
            forall|i: int| 0 <= i < r@.len() ==> #[trigger] r@[i] < k,
        decreases es.len() - k,
    {
        let hit = if by_invoke {
            str_eq(es[k].invoke.as_str(), key)
        } else {
            str_eq(es[k].node.as_str(), key)
        };
        let ghost before = r@;
        if hit {
            r.push(k);
            proof {
                assert(r@.map_values(|k: usize| k as int) =~= before.map_values(|k: usize| k as int).push(
                    k as int,
                ));
            }
        }
        k = k + 1;
    }
    r
}

/// The entries `artifact view` shows: those of execution `invoke` when given, else those
/// of node `node`; an error when neither is given or nothing matches.
pub open spec fn view_pick(es: Seq<ArtifactEntry>, node: Option<Seq<char>>, invoke: Option<Seq<char>>) -> Result<Seq<int>, Seq<char>> {
    match invoke {
        Some(inv) => {
            let m = picked(es, invoke_is(inv), es.len() as int);
            if m.len() == 0 {
                Err("未找到执行ID: "@ + inv)
            } else {
                Ok(m)
            }
        },
        None => match node {
            Some(n) => {
                let m = picked(es, node_is(n), es.len() as int);
                if m.len() == 0 {
                    Err("未找到节点: "@ + n)
                } else {
                    Ok(m)
                }
            },
            None => Err("请通过 --node 或 --invoke 指定要查看的产物"@),
        },
    }
}

/// The indices of the entries `artifact view` shows (see `view_pick`).
pub fn view_select(entries: &[ArtifactEntry], node: Option<&str>, invoke: Option<&str>) -> (r: Result<Vec<usize>, String>)
    ensures
        match (r, view_pick(entries@, opt_str_view(node), opt_str_view(invoke))) {
            (Ok(a), Ok(b)) => a@.map_values(|k: usize| k as int) == b,
            (Err(a), Err(b)) => a@ == b,
            _ => false,
        },
        r matches Ok(a) ==> forall|i: int| 0 <= i < a@.len() ==> #[trigger] a@[i] < entries@.len(),
{
    match invoke {
        Some(inv) => {
            let m = pick(entries, true, inv);
            if m.len() == 0 {
                let mut e = String::from_str("未找到执行ID: ");
                push_str(&mut e, inv);
                return Err(e);
            }
            Ok(m)
        },
        None => match node {
            Some(n) => {
                let m = pick(entries, false, n);
                if m.len() == 0 {
                    let mut e = String::from_str("未找到节点: ");
                    push_str(&mut e, n);
                    return Err(e);
                }
                Ok(m)
            },
            None => Err(String::from_str("请通过 --node 或 --invoke 指定要查看的产物")),
        },
    }
}

/// The content of an artifact, as values.
pub open spec fn content_view(c: Option<(ArtifactType, String)>) -> Option<(ArtifactType, Seq<char>)> {
    match c {
        Some((t, s)) => Some((t, s@)),
        None => None,
    }
}

/// `t`, ending with a line break.
pub open spec fn with_newline(t: Seq<char>) -> Seq<char> {
    if t.len() > 0 && t.last() == '\n' {
        t
    } else {
        t.push('\n')
    }
}

fn push_with_newline(s: &mut String, t: &str)
    ensures
        final(s)@ == old(s)@ + with_newline(t@),
{
    let v = chars_of(t);
    push_str(s, t);
    if !(v.len() > 0 && v[v.len() - 1] == '\n') {
        crate::text::push_char(s, '\n');
        proof {
            assert(old(s)@ + t@.push('\n') =~= (old(s)@ + t@).push('\n'));
        }
    }
}

/// The head line of an artifact's content: its kind, status and time.
pub open spec fn kind_line(kind: Seq<char>, e: ArtifactEntry) -> Seq<char> {
    "> 类型: "@ + kind + " | 状态: "@ + e.status@ + " | 时间: "@ + e.time@ + "\n\n"@
}

/// The heading of the block of `artifact view` for the `i`-th of `total` shown entries.
pub open spec fn view_head(i: int, total: int, e: ArtifactEntry) -> Seq<char> {
    "## ["@ + decimal((i + 1) as nat) + "/"@ + decimal(total as nat) + "] "@ + display_of(
        e.node@,
        opt_view(e.branch),
    ) + " ("@ + e.invoke@ + ")\n"@
}

/// What the block shows of an artifact's content.
pub open spec fn view_body(e: ArtifactEntry, c: Option<(ArtifactType, Seq<char>)>, missing: Seq<char>) -> Seq<char> {
    match c {
        Some((t, text)) => kind_line(kind_name(t), e) + with_newline(text),
        None => kind_line("none"@, e) + missing,
    }
}

/// The block of `artifact view` for the `i`-th of `total` shown entries.
pub open spec fn view_block(i: int, total: int, e: ArtifactEntry, c: Option<(ArtifactType, Seq<char>)>) -> Seq<char> {
    view_head(i, total, e) + view_body(e, c, "> 该执行无产物\n"@) + if i + 1 < total {
        "\n---\n\n"@
    } else {
        seq![]
    }
}

/// The text of `artifact view`: one block per shown entry, separated by rules.
pub open spec fn view_page(es: Seq<ArtifactEntry>, idx: Seq<usize>, contents: Seq<Option<(ArtifactType, String)>>) -> Seq<char> {
    concat_all(
        Seq::new(
            idx.len(),
            |i: int| view_block(i, idx.len() as int, es[idx[i] as int], content_view(contents[i])),
        ),
    )
}

fn push_kind_line(s: &mut String, kind: &str, e: &ArtifactEntry)
    ensures
        final(s)@ == old(s)@ + kind_line(kind@, *e),
{
    push_str(s, "> 类型: ");
    push_str(s, kind);
    push_str(s, " | 状态: ");
    push_str(s, e.status.as_str());
    push_str(s, " | 时间: ");
    push_str(s, e.time.as_str());
    push_str(s, "\n\n");
    proof {
        assert(final(s)@ =~= old(s)@ + kind_line(kind@, *e));
    }
}

fn push_view_head(s: &mut String, i: usize, total: usize, e: &ArtifactEntry)
    requires
        i < total,
    ensures
        final(s)@ == old(s)@ + view_head(i as int, total as int, *e),
{
    let disp = node_display(e.node.as_str(), &e.branch);
    push_str(s, "## [");
    push_decimal(s, i + 1);
    push_str(s, "/");
    push_decimal(s, total);
    push_str(s, "] ");
    push_str(s, disp.as_str());
    push_str(s, " (");
    push_str(s, e.invoke.as_str());
    push_str(s, ")\n");
    proof {
        assert(final(s)@ =~= old(s)@ + view_head(i as int, total as int, *e));
    }
}

fn push_view_body(s: &mut String, e: &ArtifactEntry, c: &Option<(ArtifactType, String)>, missing: &str)
    ensures
        final(s)@ == old(s)@ + view_body(*e, content_view(*c), missing@),
{
    match c {
        Some((t, text)) => {
            push_kind_line(s, t.as_str(), e);
            push_with_newline(s, text.as_str());
        },
        None => {
            push_kind_line(s, "none", e);
            push_str(s, missing);
        },
    }
    proof {
        assert(final(s)@ =~= old(s)@ + view_body(*e, content_view(*c), missing@));
    }
}

fn push_view_block(s: &mut String, i: usize, total: usize, e: &ArtifactEntry, c: &Option<(ArtifactType, String)>)
    requires
        i < total,
    ensures
        final(s)@ == old(s)@ + view_block(i as int, total as int, *e, content_view(*c)),
{
    push_view_head(s, i, total, e);
    push_view_body(s, e, c, "> 该执行无产物\n");
    if i + 1 < total {
        push_str(s, "\n---\n\n");
    }
    proof {
        assert(final(s)@ =~= old(s)@ + view_block(i as int, total as int, *e, content_view(*c)));
    }
}

/// The text of `artifact view` for the entries at `idx`, whose contents are `contents`
/// (see `view_page`).
pub fn view_text(entries: &[ArtifactEntry], idx: &[usize], contents: &[Option<(ArtifactType, String)>]) -> (r: String)
    requires
        idx@.len() == contents@.len(),
        forall|i: int| 0 <= i < idx@.len() ==> #[trigger] idx@[i] < entries@.len(),
    ensures
        r@ == view_page(entries@, idx@, contents@),
{
    let total = idx.len();
    let ghost blocks = Seq::new(
        idx@.len(),
        |i: int| view_block(i, idx@.len() as int, entries@[idx@[i] as int], content_view(contents@[i])),
    );
    let mut s = String::new();
    let mut i: usize = 0;
    while i < total
        invariant
            total == idx@.len(),
            idx@.len() == contents@.len(),
            forall|i: int| 0 <= i < idx@.len() ==> #[trigger] idx@[i] < entries@.len(),
            i <= total,
            blocks == Seq::new(
                idx@.len(),
                |i: int| view_block(i, idx@.len() as int, entries@[idx@[i] as int], content_view(contents@[i])),
            ),
            s@ == concat_all(blocks.take(i as int)),
        decreases total - i,
    {
        push_view_block(&mut s, i, total, &entries[idx[i]], &contents[i]);
        proof {
            assert(blocks.take(i + 1).drop_last() =~= blocks.take(i as int));
            assert(blocks.take(i + 1).last() == blocks[i as int]);
        }
        i = i + 1;
    }
    proof {
        assert(blocks.take(total as int) =~= blocks);
    }
    s
}

} // verus!

verus! {

/// The artifact table of the entries at `idx`: the header, then their rows.
pub open spec fn entries_table_at(es: Seq<ArtifactEntry>, idx: Seq<usize>) -> Seq<char> {
    entries_header() + concat_all(Seq::new(idx.len(), |i: int| entry_row(es[idx[i] as int])))
}

/// The artifact table of the entries at `idx` (`artifact search`).
pub fn table_text_at(entries: &[ArtifactEntry], idx: &[usize]) -> (r: String)
    requires
        forall|i: int| 0 <= i < idx@.len() ==> #[trigger] idx@[i] < entries@.len(),
    ensures
        r@ == entries_table_at(entries@, idx@),
{
    let mut s = String::from_str(
        "| # | 节点 | 执行ID | 类型 | 状态 | 执行时间 |\n|---|------|--------|------|------|---------|\n",
    );
    let ghost head = s@;
    let ghost rows = Seq::new(idx@.len(), |i: int| entry_row(entries@[idx@[i] as int]));
    let mut i: usize = 0;
    while i < idx.len()
        invariant
            i <= idx.len(),
            forall|i: int| 0 <= i < idx@.len() ==> #[trigger] idx@[i] < entries@.len(),
            rows == Seq::new(idx@.len(), |i: int| entry_row(entries@[idx@[i] as int])),
            s@ == head + concat_all(rows.take(i as int)),
        decreases idx.len() - i,
    {
        push_entry_row(&mut s, &entries[idx[i]]);
        proof {
            assert(rows.take(i + 1).drop_last() =~= rows.take(i as int));
            assert(rows.take(i + 1).last() == rows[i as int]);
        }
        i = i + 1;
    }
    proof {
        assert(rows.take(idx@.len() as int) =~= rows);
    }
    s
}

/// `artifact search` needs a keyword.
pub fn search_check(keyword: &str) -> (r: Result<(), String>)
    ensures
        r is Ok <==> keyword@.len() > 0,
        r matches Err(m) ==> m@ == "搜索关键词不能为空"@,
{
    if keyword.is_empty() {
        Err(String::from_str("搜索关键词不能为空"))
    } else {
        Ok(())
    }
}

/// The entry is a real execution whose artifact contains `kw`.
pub open spec fn is_hit(e: ArtifactEntry, c: Option<(ArtifactType, Seq<char>)>, kw: Seq<char>) -> bool {
    e.invoke@ != "-"@ && match c {
        Some((_, t)) => crate::text::find_from(t, kw, 0) is Some,
        None => false,
    }
}

/// The indices `k < upto` of the entries that `is_hit`, in order.
pub open spec fn hits(es: Seq<ArtifactEntry>, cs: Seq<Option<(ArtifactType, String)>>, kw: Seq<char>, upto: int) -> Seq<int>
    decreases upto,
{
    if upto <= 0 {
        seq![]
    } else if is_hit(es[upto - 1], content_view(cs[upto - 1]), kw) {
        hits(es, cs, kw, upto - 1).push(upto - 1)
    } else {
        hits(es, cs, kw, upto - 1)
    }
}

/// The entries whose artifact (`contents`, one per entry) contains `keyword`.
pub fn search_hits(entries: &[ArtifactEntry], contents: &[Option<(ArtifactType, String)>], keyword: &str) -> (r: Vec<usize>)
    requires
        entries@.len() == contents@.len(),
    ensures
        r@.map_values(|k: usize| k as int) == hits(entries@, contents@, keyword@, entries@.len() as int),
        forall|i: int| 0 <= i < r@.len() ==> #[trigger] r@[i] < entries@.len(),
{
    let kv = chars_of(keyword);
    let mut r: Vec<usize> = Vec::new();
    let mut k: usize = 0;
    while k < entries.len()
        invariant
            entries@.len() == contents@.len(),
            kv@ == keyword@,
            k <= entries.len(),
            r@.map_values(|k: usize| k as int) == hits(entries@, contents@, keyword@, k as int),
            forall|i: int| 0 <= i < r@.len() ==> #[trigger] r@[i] < k,
        decreases entries.len() - k,
    {
        let hit = if str_eq(entries[k].invoke.as_str(), "-") {
            false
        } else {
            match &contents[k] {
                Some((_, text)) => {
                    let tv = chars_of(text.as_str());
                    crate::text::find_seq(&tv, &kv, 0).is_some()
                },
                None => false,
            }
        };
        let ghost before = r@;
        if hit {
            r.push(k);
            proof {
                assert(r@.map_values(|k: usize| k as int) =~= before.map_values(|k: usize| k as int).push(
                    k as int,
                ));
            }
        }
        k = k + 1;
    }
    r
}

/// The block of the timeline for one entry.
pub open spec fn timeline_block(e: ArtifactEntry, c: Option<(ArtifactType, Seq<char>)>) -> Seq<char> {
    "### ["@ + decimal(e.order as nat) + "] "@ + display_of(e.node@, opt_view(e.branch)) + " ("@
        + e.invoke@ + ")\n"@ + view_body(e, c, "> 无产物\n"@) + "\n"@
}

/// The timeline of an instance: what it is, its initial task and its saved context
/// (when not empty), the table of all executions, then each execution's artifact.
pub open spec fn timeline_page(
    id: Seq<char>,
    workflow: Seq<char>,
    status: crate::state::Status,
    input: Option<Seq<char>>,
    context: Option<Seq<char>>,
    es: Seq<ArtifactEntry>,
    cs: Seq<Option<(ArtifactType, String)>>,
) -> Seq<char> {
    "# 实例: "@ + id + "\n# 工作流: "@ + workflow + "\n# 状态: "@ + crate::state::status_name(status)
        + "\n"@ + match input {
        Some(x) => "# 初始任务: "@ + x + "\n"@,
        None => seq![],
    } + match context {
        Some(c) => if c.len() > 0 {
            "\n## 上下文\n\n"@ + with_newline(c)
        } else {
            seq![]
        },
        None => seq![],
    } + "\n## 执行时间线\n\n"@ + entries_table(es) + "\n## 产物详情\n\n"@ + concat_all(
        Seq::new(es.len(), |i: int| timeline_block(es[i], content_view(cs[i]))),
    )
}

fn push_timeline_block(s: &mut String, e: &ArtifactEntry, c: &Option<(ArtifactType, String)>)
    ensures
        final(s)@ == old(s)@ + timeline_block(*e, content_view(*c)),
{
    let disp = node_display(e.node.as_str(), &e.branch);
    push_str(s, "### [");
    push_decimal(s, e.order);
    push_str(s, "] ");
    push_str(s, disp.as_str());
    push_str(s, " (");
    push_str(s, e.invoke.as_str());
    push_str(s, ")\n");
    push_view_body(s, e, c, "> 无产物\n");
    push_str(s, "\n");
    proof {
        assert(final(s)@ =~= old(s)@ + timeline_block(*e, content_view(*c)));
    }
}

/// The text of `artifact timeline` (see `timeline_page`); `contents` has one item per entry.
pub fn timeline_text(
    instance_id: &str,
    workflow: &str,
    status: crate::state::Status,
    input: Option<&str>,
    context: Option<&str>,
    entries: &[ArtifactEntry],
    contents: &[Option<(ArtifactType, String)>],
) -> (r: String)
    requires
        entries@.len() == contents@.len(),
    ensures
        r@ == timeline_page(
            instance_id@,
            workflow@,
            status,
            opt_str_view(input),
            opt_str_view(context),
            entries@,
            contents@,
        ),
{
    let mut s = String::from_str("# 实例: ");
    push_str(&mut s, instance_id);
    push_str(&mut s, "\n# 工作流: ");
    push_str(&mut s, workflow);
    push_str(&mut s, "\n# 状态: ");
    push_str(&mut s, status.as_str());
    push_str(&mut s, "\n");
    let ghost a = s@;
    match input {
        Some(x) => {
            push_str(&mut s, "# 初始任务: ");
            push_str(&mut s, x);
            push_str(&mut s, "\n");
        },
        None => {},
    }
    let ghost b = s@;
    match context {
        Some(c) => {
            if !c.is_empty() {
                push_str(&mut s, "\n## 上下文\n\n");
                push_with_newline(&mut s, c);
            }
        },
        None => {},
    }
    let ghost c0 = s@;
    push_str(&mut s, "\n## 执行时间线\n\n");
    push_entries_table(&mut s, entries);
    push_str(&mut s, "\n## 产物详情\n\n");
    let ghost head = s@;
    let ghost blocks = Seq::new(entries@.len(), |i: int| timeline_block(entries@[i], content_view(contents@[i])));
    let mut i: usize = 0;
    while i < entries.len()
        invariant
            i <= entries.len(),
            entries@.len() == contents@.len(),
            blocks == Seq::new(entries@.len(), |i: int| timeline_block(entries@[i], content_view(contents@[i]))),
            s@ == head + concat_all(blocks.take(i as int)),
        decreases entries.len() - i,
    {
        push_timeline_block(&mut s, &entries[i], &contents[i]);
        proof {
            assert(blocks.take(i + 1).drop_last() =~= blocks.take(i as int));
            assert(blocks.take(i + 1).last() == blocks[i as int]);
        }
        i = i + 1;
    }
    proof {
        assert(blocks.take(entries@.len() as int) =~= blocks);
        let inp = match opt_str_view(input) {
            Some(x) => "# 初始任务: "@ + x + "\n"@,
            None => seq![],
        };
        assert(b =~= a + inp);
        let ctx = match opt_str_view(context) {
            Some(c) => if c.len() > 0 {
                "\n## 上下文\n\n"@ + with_newline(c)
            } else {
                seq![]
            },
            None => seq![],
        };
        assert(c0 =~= b + ctx);
        assert(s@ =~= timeline_page(
            instance_id@,
            workflow@,
            status,
            opt_str_view(input),
            opt_str_view(context),
            entries@,
            contents@,
        ));
    }
    s
}

} // verus!

verus! {

/// The executions of `node` that `artifact diff` compares: there must be at least two.
pub open spec fn diff_pick(es: Seq<ArtifactEntry>, node: Seq<char>) -> Result<Seq<int>, Seq<char>> {
    let m = picked(es, node_is(node), es.len() as int);
    if m.len() < 2 {
        Err("节点 "@ + node + " 仅执行 "@ + decimal(m.len()) + " 次，需至少 2 次才能对比"@)
    } else {
        Ok(m)
    }
}

/// The indices of the executions of `node` to compare (see `diff_pick`).
pub fn diff_select(entries: &[ArtifactEntry], node: &str) -> (r: Result<Vec<usize>, String>)
    ensures
        match (r, diff_pick(entries@, node@)) {
            (Ok(a), Ok(b)) => a@.map_values(|k: usize| k as int) == b,
            (Err(a), Err(b)) => a@ == b,
            _ => false,
        },
        r matches Ok(a) ==> a@.len() >= 2 && forall|i: int| 0 <= i < a@.len() ==> #[trigger] a@[i]
            < entries@.len(),
{
    let m = pick(entries, false, node);
    if m.len() < 2 {
        let mut e = String::from_str("节点 ");
        push_str(&mut e, node);
        push_str(&mut e, " 仅执行 ");
        push_decimal(&mut e, m.len());
        push_str(&mut e, " 次，需至少 2 次才能对比");
        proof {
            assert(m@.map_values(|k: usize| k as int).len() == m@.len());
        }
        return Err(e);
    }
    Ok(m)
}

/// The text of an artifact, empty when there is none.
pub open spec fn text_of(c: Option<String>) -> Seq<char> {
    match c {
        Some(t) => t@,
        None => seq![],
    }
}

/// The most lines an artifact may have for `artifact diff`.
pub open spec fn max_diff_lines() -> int {
    5000
}

/// The diff of two artifacts as shown: whole, or cut down to `ctx` lines around changes.
pub open spec fn shown_diff(a: Seq<char>, b: Seq<char>, ctx: int, full: bool) -> Seq<DiffView> {
    if full {
        line_diff(a, b)
    } else {
        context_window(line_diff(a, b), ctx)
    }
}

/// The diffs between each two consecutive artifacts `ts`; an error when any of them
/// has more than `max_diff_lines` lines.
pub open spec fn diffs_of(ts: Seq<Option<String>>, ctx: int, full: bool) -> Result<Seq<Seq<DiffView>>, Seq<char>> {
    if exists|i: int|
        0 <= i < ts.len() - 1 && (lines(text_of(#[trigger] ts[i])).len() > max_diff_lines() || lines(
            text_of(ts[i + 1]),
        ).len() > max_diff_lines()) {
        Err("产物行数超过 5000 行上限，已跳过 diff 计算"@)
    } else {
        Ok(
            Seq::new(
                (ts.len() - 1) as nat,
                |i: int| shown_diff(text_of(ts[i]), text_of(ts[i + 1]), ctx, full),
            ),
        )
    }
}

proof fn lemma_script_len(a: Seq<Seq<char>>, b: Seq<Seq<char>>, i: int, j: int)
    requires
        0 <= i,
        0 <= j,
    ensures
        diff_script(a, b, i, j).len() <= i + j,
    decreases i + j,
{
    if i > 0 && j > 0 && a[i - 1] == b[j - 1] {
        lemma_script_len(a, b, i - 1, j - 1);
    } else if j > 0 && (i <= 0 || lcs(a, b, i, j - 1) >= lcs(a, b, i - 1, j)) {
        lemma_script_len(a, b, i, j - 1);
    } else if i > 0 {
        lemma_script_len(a, b, i - 1, j);
    }
}

fn text_ref(c: &Option<String>) -> (r: &str)
    ensures
        r@ == text_of(*c),
{
    proof {
        reveal_strlit("");
    }
    match c {
        Some(t) => t.as_str(),
        None => "",
    }
}

/// The `i`-th pair of consecutive artifacts is within the line limit.
pub open spec fn pair_within(ts: Seq<Option<String>>, i: int) -> bool {
    !(lines(text_of(ts[i])).len() > max_diff_lines() || lines(text_of(ts[i + 1])).len() > max_diff_lines())
}

/// Cutting the diffs down to `ctx` lines of context stays within `usize`: for every pair
/// that is diffed (all pairs up to it within the line limit), the diff's length and `ctx`
/// together stay below `usize::MAX`. Nothing is cut down for a full diff.
pub open spec fn context_fits(ts: Seq<Option<String>>, ctx: int, full: bool) -> bool {
    full || forall|i: int|
        0 <= i < ts.len() - 1 && (forall|k: int| 0 <= k <= i ==> #[trigger] pair_within(ts, k)) ==> line_diff(
            text_of(#[trigger] ts[i]),
            text_of(ts[i + 1]),
        ).len() + ctx < usize::MAX
}

/// The diffs between each two consecutive artifacts (see `diffs_of`).
pub fn diff_pairs(texts: &[Option<String>], context: usize, full: bool) -> (r: Result<Vec<Vec<DiffLine>>, String>)
    requires
        texts@.len() >= 1,
        context_fits(texts@, context as int, full),
    ensures
        match (r, diffs_of(texts@, context as int, full)) {
            (Ok(a), Ok(b)) => a@.len() == b.len() && forall|i: int|
                0 <= i < b.len() ==> #[trigger] diff_view(a@[i]@) == b[i],
            (Err(a), Err(b)) => a@ == b,
            _ => false,
        },
{
    proof {
        reveal_strlit("");
    }
    let mut out: Vec<Vec<DiffLine>> = Vec::new();
    let mut i: usize = 0;
    let last = texts.len() - 1;
    while i < last
        invariant
            last == texts@.len() - 1,
            texts@.len() >= 1,
            context_fits(texts@, context as int, full),
            i + 1 <= texts@.len(),
            out@.len() == i,
            forall|k: int|
                0 <= k < i ==> #[trigger] diff_view(out@[k]@) == shown_diff(
                    text_of(texts@[k]),
                    text_of(texts@[k + 1]),
                    context as int,
                    full,
                ),
            forall|k: int|
                0 <= k < i ==> !(lines(text_of(#[trigger] texts@[k])).len() > max_diff_lines() || lines(
                    text_of(texts@[k + 1]),
                ).len() > max_diff_lines()),
            forall|k: int| 0 <= k < i ==> #[trigger] pair_within(texts@, k),
        decreases texts@.len() - i,
    {
        let t1 = text_ref(&texts[i]);
        let t2 = text_ref(&texts[i + 1]);
        let n1 = lines_of(t1).len();
        let n2 = lines_of(t2).len();
        if n1 > 5000 || n2 > 5000 {
            return Err(String::from_str("产物行数超过 5000 行上限，已跳过 diff 计算"));
        }
        let raw = compute_diff(t1, t2);
        let shown = if full {
            raw
        } else {
            proof {
                assert(pair_within(texts@, i as int));
                assert(forall|k: int| 0 <= k <= i ==> #[trigger] pair_within(texts@, k));
                assert(diff_view(raw@).len() == raw@.len());
                assert(raw@.len() + context < usize::MAX);
            }
            apply_context_limit(raw.as_slice(), context)
        };
        out.push(shown);
        i = i + 1;
    }
    proof {
        let b = Seq::new(
            (texts@.len() - 1) as nat,
            |i: int| shown_diff(text_of(texts@[i]), text_of(texts@[i + 1]), context as int, full),
        );
        assert(out@.len() == b.len());
    }
    Ok(out)
}

/// How a diff line is printed: two spaces before a kept line, `+ ` before an added one,
/// `- ` before a removed one, `...` for a gap.
pub open spec fn diff_line_text(l: DiffView) -> Seq<char> {
    match l {
        DiffView::Context(t) => "  "@ + t + "\n"@,
        DiffView::Added(t) => "+ "@ + t + "\n"@,
        DiffView::Removed(t) => "- "@ + t + "\n"@,
        DiffView::Separator => "...\n"@,
    }
}

/// The body of one diff: `无变更` when empty, otherwise its lines in a diff block.
pub open spec fn diff_body(d: Seq<DiffView>) -> Seq<char> {
    if d.len() == 0 {
        "无变更\n"@
    } else {
        "```diff\n"@ + concat_all(Seq::new(d.len(), |j: int| diff_line_text(d[j]))) + "```\n"@
    }
}

/// The title line of the `k`-th diff block, naming the pair `k+1 → k+2` and the first execution.
pub open spec fn diff_title(k: int, e1: ArtifactEntry) -> Seq<char> {
    "## ["@ + decimal((k + 1) as nat) + "→"@ + decimal((k + 2) as nat) + "] "@ + display_of(
        e1.node@,
        opt_view(e1.branch),
    ) + " ("@ + e1.invoke@ + ")\n"@
}

/// The line naming the two compared executions, with their statuses and times.
pub open spec fn diff_pair_line(e1: ArtifactEntry, e2: ArtifactEntry) -> Seq<char> {
    "> 对比: "@ + e1.invoke@ + " ("@ + e1.status@ + ", "@ + e1.time@ + ") → "@ + e2.invoke@ + " ("@
        + e2.status@ + ", "@ + e2.time@ + ")\n\n"@
}

/// The block for the `k`-th of `total` diffs, from execution `e1` to `e2`.
pub open spec fn diff_block(k: int, total: int, e1: ArtifactEntry, e2: ArtifactEntry, d: Seq<DiffView>) -> Seq<char> {
    diff_title(k, e1) + diff_pair_line(e1, e2) + diff_body(d) + if k + 1 < total {
        "\n"@
    } else {
        seq![]
    }
}

/// The text of `artifact diff`: one block per consecutive pair of the executions at `idx`.
pub open spec fn diff_page(es: Seq<ArtifactEntry>, idx: Seq<usize>, diffs: Seq<Vec<DiffLine>>) -> Seq<char> {
    concat_all(
        Seq::new(
            diffs.len(),
            |k: int| diff_block(k, diffs.len() as int, es[idx[k] as int], es[idx[k + 1] as int], diff_view(diffs[k]@)),
        ),
    )
}

fn push_diff_body(s: &mut String, d: &Vec<DiffLine>)
    ensures
        final(s)@ == old(s)@ + diff_body(diff_view(d@)),
{
    if d.len() == 0 {
        push_str(s, "无变更\n");
        return;
    }
    push_str(s, "```diff\n");
    let ghost head = s@;
    let ghost ls = Seq::new(d@.len(), |j: int| diff_line_text(diff_view(d@)[j]));
    let mut j: usize = 0;
    while j < d.len()
        invariant
            j <= d.len(),
            ls == Seq::new(d@.len(), |j: int| diff_line_text(diff_view(d@)[j])),
            s@ == head + concat_all(ls.take(j as int)),
        decreases d.len() - j,
    {
        let ghost before = s@;
        match &d[j] {
            DiffLine::Context(t) => {
                push_str(s, "  ");
                push_str(s, t.as_str());
                push_str(s, "\n");
            },
            DiffLine::Added(t) => {
                push_str(s, "+ ");
                push_str(s, t.as_str());
                push_str(s, "\n");
            },
            DiffLine::Removed(t) => {
                push_str(s, "- ");
                push_str(s, t.as_str());
                push_str(s, "\n");
            },
            DiffLine::Separator => {
                push_str(s, "...\n");
            },
        }
        proof {
            assert(diff_view(d@)[j as int] == d@[j as int]@);
            assert(s@ =~= before + ls[j as int]);
            assert(ls.take(j + 1).drop_last() =~= ls.take(j as int));
            assert(ls.take(j + 1).last() == ls[j as int]);
        }
        j = j + 1;
    }
    push_str(s, "```\n");
    proof {
        assert(ls.take(d@.len() as int) =~= ls);
        assert(diff_view(d@).len() == d@.len());
        assert(final(s)@ =~= old(s)@ + diff_body(diff_view(d@)));
    }
}

fn push_diff_title(s: &mut String, k: usize, e1: &ArtifactEntry)
    requires
        k + 2 <= usize::MAX,
    ensures
        final(s)@ == old(s)@ + diff_title(k as int, *e1),
{
    let disp = node_display(e1.node.as_str(), &e1.branch);
    push_str(s, "## [");
    push_decimal(s, k + 1);
    push_str(s, "→");
    push_decimal(s, k + 2);
    push_str(s, "] ");
    push_str(s, disp.as_str());
    push_str(s, " (");
    push_str(s, e1.invoke.as_str());
    push_str(s, ")\n");
    proof {
        assert(final(s)@ =~= old(s)@ + diff_title(k as int, *e1));
    }
}

fn push_diff_pair_line(s: &mut String, e1: &ArtifactEntry, e2: &ArtifactEntry)
    ensures
        final(s)@ == old(s)@ + diff_pair_line(*e1, *e2),
{
    push_str(s, "> 对比: ");
    push_str(s, e1.invoke.as_str());
    push_str(s, " (");
    push_str(s, e1.status.as_str());
    push_str(s, ", ");
    push_str(s, e1.time.as_str());
    push_str(s, ") → ");
    push_str(s, e2.invoke.as_str());
    push_str(s, " (");
    push_str(s, e2.status.as_str());
    push_str(s, ", ");
    push_str(s, e2.time.as_str());
    push_str(s, ")\n\n");
    proof {
        assert(final(s)@ =~= old(s)@ + diff_pair_line(*e1, *e2));
    }
}

fn push_diff_block(s: &mut String, k: usize, total: usize, e1: &ArtifactEntry, e2: &ArtifactEntry, d: &Vec<DiffLine>)
    requires
        k < total,
        total < usize::MAX,
    ensures
        final(s)@ == old(s)@ + diff_block(k as int, total as int, *e1, *e2, diff_view(d@)),
{
    push_diff_title(s, k, e1);
    push_diff_pair_line(s, e1, e2);
    push_diff_body(s, d);
    if k + 1 < total {
        push_str(s, "\n");
    }
    proof {
        assert(final(s)@ =~= old(s)@ + diff_block(k as int, total as int, *e1, *e2, diff_view(d@)));
    }
}

/// The text of `artifact diff` (see `diff_page`).
pub fn diff_text(entries: &[ArtifactEntry], idx: &[usize], diffs: &[Vec<DiffLine>]) -> (r: String)
    requires
        idx@.len() == diffs@.len() + 1,
        forall|i: int| 0 <= i < idx@.len() ==> #[trigger] idx@[i] < entries@.len(),
    ensures
        r@ == diff_page(entries@, idx@, diffs@),
{
    let total = diffs.len();
    let n = idx.len();
    let ghost blocks = Seq::new(
        diffs@.len(),
        |k: int| diff_block(k, diffs@.len() as int, entries@[idx@[k] as int], entries@[idx@[k + 1] as int], diff_view(diffs@[k]@)),
    );
    let mut s = String::new();
    let mut k: usize = 0;
    while k < total
        invariant
            total == diffs@.len(),
            n == idx@.len(),
            idx@.len() == diffs@.len() + 1,
            forall|i: int| 0 <= i < idx@.len() ==> #[trigger] idx@[i] < entries@.len(),
            k <= total,
            blocks == Seq::new(
                diffs@.len(),
                |k: int| diff_block(k, diffs@.len() as int, entries@[idx@[k] as int], entries@[idx@[k + 1] as int], diff_view(diffs@[k]@)),
            ),
            s@ == concat_all(blocks.take(k as int)),
        decreases total - k,
    {
        push_diff_block(&mut s, k, total, &entries[idx[k]], &entries[idx[k + 1]], &diffs[k]);
        proof {
            assert(blocks.take(k + 1).drop_last() =~= blocks.take(k as int));
            assert(blocks.take(k + 1).last() == blocks[k as int]);
        }
        k = k + 1;
    }
    proof {
        assert(blocks.take(total as int) =~= blocks);
    }
    s
}

/// `s` with every line break (`'\n'` or `'\r'`) replaced by a space.
pub open spec fn one_line(s: Seq<char>) -> Seq<char> {
    s.map_values(|c: char| if c == '\n' || c == '\r' { ' ' } else { c })
}

/// The entry `context set` appends to the context file, stamped `time`; topic and content
/// must not be empty, and the topic is kept on one line.
pub open spec fn context_entry_of(topic: Seq<char>, content: Seq<char>, time: Seq<char>) -> Result<Seq<char>, Seq<char>> {
    if topic.len() == 0 {
        Err("topic 不能为空"@)
    } else if content.len() == 0 {
        Err("content 不能为空"@)
    } else {
        Ok("## ["@ + time + "] "@ + one_line(topic) + "\n\n"@ + content + "\n"@)
    }
}

/// The topic of a context entry stays on its heading line: it keeps its length and holds
/// no line break.
pub proof fn law_context_topic_one_line(topic: Seq<char>)
    ensures
        one_line(topic).len() == topic.len(),
        forall|k: int| 0 <= k < topic.len() ==> #[trigger] one_line(topic)[k] != '\n' && one_line(topic)[k] != '\r',
{
}

/// The entry `context set` appends (see `context_entry_of`).
pub fn context_entry(topic: &str, content: &str, time: &str) -> (r: Result<String, String>)
    ensures
        match (r, context_entry_of(topic@, content@, time@)) {
            (Ok(a), Ok(b)) => a@ == b,
            (Err(a), Err(b)) => a@ == b,
            _ => false,
        },
{
    if topic.is_empty() {
        return Err(String::from_str("topic 不能为空"));
    }
    if content.is_empty() {
        return Err(String::from_str("content 不能为空"));
    }
    let tv = chars_of(topic);
    let mut one = String::new();
    let mut i: usize = 0;
    while i < tv.len()
        invariant
            i <= tv.len(),
            tv@ == topic@,
            one@ == one_line(tv@.take(i as int)),
        decreases tv.len() - i,
    {
        let c = tv[i];
        let d = if c == '\n' || c == '\r' {
            ' '
        } else {
            c
        };
        crate::text::push_char(&mut one, d);
        proof {
            assert(one_line(tv@.take(i + 1)) =~= one_line(tv@.take(i as int)).push(d));
        }
        i = i + 1;
    }
    proof {
        assert(tv@.take(tv@.len() as int) =~= tv@);
    }
    let mut s = String::from_str("## [");
    push_str(&mut s, time);
    push_str(&mut s, "] ");
    push_str(&mut s, one.as_str());
    push_str(&mut s, "\n\n");
    push_str(&mut s, content);
    push_str(&mut s, "\n");
    proof {
        assert(s@ =~= "## ["@ + time@ + "] "@ + one_line(topic@) + "\n\n"@ + content@ + "\n"@);
    }
    Ok(s)
}

} // verus!

verus! {

/// The entry `context set` appends, stamped with the current local time
/// (`%Y-%m-%d %H:%M:%S`; see `context_entry_of`).
pub fn context_entry_now(topic: &str, content: &str) -> (r: Result<String, String>)
    ensures
        exists|time: Seq<char>|
            crate::clock::shows_time(time, "%Y-%m-%d %H:%M:%S"@) && match (
                r,
                #[trigger] context_entry_of(topic@, content@, time),
            ) {
                (Ok(a), Ok(b)) => a@ == b,
                (Err(a), Err(b)) => a@ == b,
                _ => false,
            },
{
    proof {
        crate::clock::lemma_other_patterns();
    }
    let time = crate::clock::local_timestamp("%Y-%m-%d %H:%M:%S");
    context_entry(topic, content, time.as_str())
}

} // verus!

verus! {

/// The name of a diff line's kind in the JSON output.
pub open spec fn line_tag(l: DiffView) -> Seq<char> {
    match l {
        DiffView::Context(_) => "context"@,
        DiffView::Added(_) => "added"@,
        DiffView::Removed(_) => "removed"@,
        DiffView::Separator => "separator"@,
    }
}

/// The text of a diff line in the JSON output; a gap reads `...`.
pub open spec fn line_value(l: DiffView) -> Seq<char> {
    match l {
        DiffView::Context(t) => t,
        DiffView::Added(t) => t,
        DiffView::Removed(t) => t,
        DiffView::Separator => "..."@,
    }
}

impl DiffLine {
    /// The kind of this line (see `line_tag`).
    pub fn tag(&self) -> (r: &'static str)
        ensures
            r@ == line_tag(self@),
    {
        match self {
            DiffLine::Context(_) => "context",
            DiffLine::Added(_) => "added",
            DiffLine::Removed(_) => "removed",
            DiffLine::Separator => "separator",
        }
    }

    /// The text of this line (see `line_value`).
    pub fn value(&self) -> (r: &str)
        ensures
            r@ == line_value(self@),
    {
        match self {
            DiffLine::Context(s) => s.as_str(),
            DiffLine::Added(s) => s.as_str(),
            DiffLine::Removed(s) => s.as_str(),
            DiffLine::Separator => "...",
        }
    }
}

/// What an execution's artifact shows: `detail.md` when it is not empty, else
/// `error.md` when that is not empty, else nothing (`None` for a missing file).
pub open spec fn content_of(detail: Option<Seq<char>>, error: Option<Seq<char>>) -> Option<(ArtifactType, Seq<char>)> {
    match detail {
        Some(d) if d.len() > 0 => Some((ArtifactType::Detail, d)),
        _ => match error {
            Some(e) if e.len() > 0 => Some((ArtifactType::Error, e)),
            _ => None,
        },
    }
}

/// The artifact of an execution from its two files (see `content_of`).
pub fn artifact_content(detail: Option<String>, error: Option<String>) -> (r: Option<(ArtifactType, String)>)
    ensures
        content_view(r) == content_of(opt_view(detail), opt_view(error)),
{
    match detail {
        Some(d) if !d.as_str().is_empty() => Some((ArtifactType::Detail, d)),
        _ => match error {
            Some(e) if !e.as_str().is_empty() => Some((ArtifactType::Error, e)),
            _ => None,
        },
    }
}

} // verus!

verus! {

/// `kw` occurs somewhere in `t`.
pub open spec fn mentions(t: Seq<char>, kw: Seq<char>) -> bool {
    exists|i: int| crate::text::occurs_at(t, kw, i)
}

/// The text of an artifact, whatever its kind.
pub open spec fn artifact_text(c: Option<(ArtifactType, String)>) -> Option<Seq<char>> {
    match c {
        Some((_, t)) => Some(t@),
        None => None,
    }
}

proof fn lemma_hits(es: Seq<ArtifactEntry>, cs: Seq<Option<(ArtifactType, String)>>, kw: Seq<char>, upto: int)
    requires
        0 <= upto <= es.len(),
        es.len() == cs.len(),
    ensures
        forall|k: int|
            #![trigger hits(es, cs, kw, upto).contains(k)]
            hits(es, cs, kw, upto).contains(k) <==> (0 <= k < upto && is_hit(es[k], content_view(cs[k]), kw)),
        forall|a: int, b: int|
            0 <= a < b < hits(es, cs, kw, upto).len() ==> #[trigger] hits(es, cs, kw, upto)[a] < #[trigger] hits(
                es,
                cs,
                kw,
                upto,
            )[b],
        forall|a: int| 0 <= a < hits(es, cs, kw, upto).len() ==> 0 <= #[trigger] hits(es, cs, kw, upto)[a] < upto,
    decreases upto,
{
    if upto > 0 {
        lemma_hits(es, cs, kw, upto - 1);
        let h = hits(es, cs, kw, upto - 1);
        let g = hits(es, cs, kw, upto);
        if is_hit(es[upto - 1], content_view(cs[upto - 1]), kw) {
            assert(g == h.push(upto - 1));
            assert forall|k: int| g.contains(k) <==> (0 <= k < upto && is_hit(es[k], content_view(cs[k]), kw)) by {
                if g.contains(k) {
                    let m = choose|m: int| 0 <= m < g.len() && g[m] == k;
                    if m < h.len() {
                        assert(h[m] == k);
                        assert(h.contains(k));
                    }
                }
                if 0 <= k < upto && is_hit(es[k], content_view(cs[k]), kw) {
                    if k < upto - 1 {
                        assert(h.contains(k));
                        let m = choose|m: int| 0 <= m < h.len() && h[m] == k;
                        assert(g[m] == k);
                    } else {
                        assert(g[h.len() as int] == k);
                    }
                }
            }
        } else {
            assert(g == h);
        }
    }
}

/// `artifact search` finds every execution whose artifact mentions the keyword, whether
/// the artifact is a result (`detail.md`) or an error (`error.md`), and nothing else
/// (the end node, `-`, has no artifact); the hits come in the order of the executions.
pub proof fn law_search_finds_every_mention(es: Seq<ArtifactEntry>, cs: Seq<Option<(ArtifactType, String)>>, kw: Seq<char>)
    requires
        es.len() == cs.len(),
    ensures
        forall|k: int|
            0 <= k < es.len() ==> (hits(es, cs, kw, es.len() as int).contains(k) <==> (es[k].invoke@ != "-"@
                && #[trigger] artifact_text(cs[k]) is Some && mentions(artifact_text(cs[k])->0, kw))),
        forall|a: int, b: int|
            0 <= a < b < hits(es, cs, kw, es.len() as int).len() ==> #[trigger] hits(es, cs, kw, es.len() as int)[a]
                < #[trigger] hits(es, cs, kw, es.len() as int)[b],
{
    lemma_hits(es, cs, kw, es.len() as int);
    assert forall|k: int|
        0 <= k < es.len() implies (hits(es, cs, kw, es.len() as int).contains(k) <==> (es[k].invoke@ != "-"@
            && #[trigger] artifact_text(cs[k]) is Some && mentions(artifact_text(cs[k])->0, kw))) by {
        assert(hits(es, cs, kw, es.len() as int).contains(k) <==> is_hit(es[k], content_view(cs[k]), kw));
        if let Some((_, t)) = cs[k] {
            crate::text::lemma_find_from(t@, kw, 0);
            if mentions(t@, kw) {
                let i = choose|i: int| crate::text::occurs_at(t@, kw, i);
                assert(i >= 0);
            }
        }
    }
}

/// `artifact diff` compares each execution with the next one: read whole, the `k`-th
/// diff's kept and removed lines are the lines of the `k`-th artifact and its kept and
/// added lines those of the `(k+1)`-th; cut down to the lines around the changes, it
/// holds the same added and removed lines. There is one diff per consecutive pair.
pub proof fn law_diffs_compare_consecutive(ts: Seq<Option<String>>, ctx: int)
    requires
        ts.len() >= 1,
        ctx >= 0,
    ensures
        diffs_of(ts, ctx, true) matches Ok(d) ==> d.len() == ts.len() - 1 && forall|k: int|
            0 <= k < ts.len() - 1 ==> old_side(#[trigger] d[k]) == lines(text_of(ts[k])) && new_side(d[k])
                == lines(text_of(ts[k + 1])),
        diffs_of(ts, ctx, false) matches Ok(d) ==> d.len() == ts.len() - 1 && forall|k: int|
            0 <= k < ts.len() - 1 ==> edits(#[trigger] d[k]) == edits(diffs_of(ts, ctx, true)->Ok_0[k]),
        diffs_of(ts, ctx, true) is Ok <==> diffs_of(ts, ctx, false) is Ok,
{
    if let Ok(d) = diffs_of(ts, ctx, true) {
        assert forall|k: int| 0 <= k < ts.len() - 1 implies old_side(#[trigger] d[k]) == lines(text_of(ts[k]))
            && new_side(d[k]) == lines(text_of(ts[k + 1])) by {
            law_diff_reconstructs(text_of(ts[k]), text_of(ts[k + 1]));
        }
    }
    if let Ok(d) = diffs_of(ts, ctx, false) {
        assert forall|k: int| 0 <= k < ts.len() - 1 implies edits(#[trigger] d[k]) == edits(
            diffs_of(ts, ctx, true)->Ok_0[k],
        ) by {
            law_context_limit_keeps_edits(line_diff(text_of(ts[k]), text_of(ts[k + 1])), ctx);
        }
    }
}

} // verus!
