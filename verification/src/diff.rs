//! The diff of two tokenised texts: the backtrace that turns the filled
//! table into an edit script, and the report that renders the script.
//!
//! Token identity is the FxHasher digest, as documented in [`crate::lcs`]:
//! the table is filled over the digest sequences and the backtrace compares
//! digests, so one policy governs the whole computation.

use crate::grid::Grid;
use crate::lcs::{
    hash_tokens, lcs_grid, lcs_len, lemma_lcs_len_step, lemma_lcs_len_symmetric, token_hashes,
};
use vstd::prelude::*;
use vstd::string::StringExecFns;

verus! {

/// One step of an edit script. `Added` and `Removed` carry the position of
/// the line they speak of — `Added(j)` names line `j` of the modified text,
/// `Removed(i)` names line `i` of the original text — so an operation never
/// copies a line.
#[derive(Clone, Copy)]
pub enum Edit {
    Unchanged,
    Added(usize),
    Removed(usize),
}

/// The edit script of the backtrace from cell `(i, j)`, in forward (original
/// document) order. The walk keeps a matched pair when the two last digests
/// agree; otherwise it prefers the addition whenever the two shorter prefix
/// pairs tie or favour it — the documented tie-break rule.
pub open spec fn spec_script(a: Seq<u64>, b: Seq<u64>, i: nat, j: nat) -> Seq<Edit>
    decreases i + j,
{
    if i > 0 && j > 0 && a[i - 1] == b[j - 1] {
        spec_script(a, b, (i - 1) as nat, (j - 1) as nat).push(Edit::Unchanged)
    } else if j > 0 && (i == 0 || lcs_len(a.take(i as int), b.take(j - 1)) >= lcs_len(
        a.take(i - 1),
        b.take(j as int),
    )) {
        spec_script(a, b, i, (j - 1) as nat).push(Edit::Added((j - 1) as usize))
    } else if i > 0 {
        spec_script(a, b, (i - 1) as nat, j).push(Edit::Removed((i - 1) as usize))
    } else {
        Seq::empty()
    }
}

/// What one operation contributes to the report: an unchanged line nothing,
/// an added line `"> "` and the line, a removed line `"< "` and the line,
/// each followed by a newline.
pub open spec fn render_edit(a: Seq<Seq<char>>, b: Seq<Seq<char>>, e: Edit) -> Seq<char> {
    match e {
        Edit::Unchanged => Seq::empty(),
        Edit::Added(j) => seq!['>', ' '] + b[j as int] + seq!['\n'],
        Edit::Removed(i) => seq!['<', ' '] + a[i as int] + seq!['\n'],
    }
}

/// The report text of an edit script: the operations' renderings, in script
/// order.
pub open spec fn render(a: Seq<Seq<char>>, b: Seq<Seq<char>>, ops: Seq<Edit>) -> Seq<char>
    decreases ops.len(),
{
    if ops.len() == 0 {
        Seq::empty()
    } else {
        render_edit(a, b, ops[0]) + render(a, b, ops.drop_first())
    }
}

/// The full report for original lines `a` and modified lines `b`: the
/// rendered edit script of their digest sequences.
pub open spec fn spec_diff_report(a: Seq<Seq<char>>, b: Seq<Seq<char>>) -> Seq<char> {
    render(a, b, spec_script(token_hashes(a), token_hashes(b), a.len(), b.len()))
}

/// How many operations of the script leave a line unchanged.
pub open spec fn count_unchanged(ops: Seq<Edit>) -> nat
    decreases ops.len(),
{
    if ops.len() == 0 {
        0
    } else {
        count_unchanged(ops.drop_last()) + (if ops.last() is Unchanged {
            1nat
        } else {
            0
        })
    }
}

/// How many operations of the script add a line.
pub open spec fn count_added(ops: Seq<Edit>) -> nat
    decreases ops.len(),
{
    if ops.len() == 0 {
        0
    } else {
        count_added(ops.drop_last()) + (if ops.last() is Added {
            1nat
        } else {
            0
        })
    }
}

/// How many operations of the script remove a line.
pub open spec fn count_removed(ops: Seq<Edit>) -> nat
    decreases ops.len(),
{
    if ops.len() == 0 {
        0
    } else {
        count_removed(ops.drop_last()) + (if ops.last() is Removed {
            1nat
        } else {
            0
        })
    }
}

/// Every line position an edit operation names lies inside the prefix pair
/// the backtrace started from.
pub open spec fn edit_in_bounds(e: Edit, i: int, j: int) -> bool {
    match e {
        Edit::Unchanged => true,
        Edit::Added(x) => x < j,
        Edit::Removed(x) => x < i,
    }
}

proof fn lemma_script_in_bounds(a: Seq<u64>, b: Seq<u64>, i: nat, j: nat)
    requires
        i <= a.len(),
        j <= b.len(),
    ensures
        forall|t: int|
            0 <= t < spec_script(a, b, i, j).len() ==> edit_in_bounds(
                #[trigger] spec_script(a, b, i, j)[t],
                i as int,
                j as int,
            ),
    decreases i + j,
{
    let s = spec_script(a, b, i, j);
    if i > 0 && j > 0 && a[i - 1] == b[j - 1] {
        let sub = spec_script(a, b, (i - 1) as nat, (j - 1) as nat);
        lemma_script_in_bounds(a, b, (i - 1) as nat, (j - 1) as nat);
        assert forall|t: int| 0 <= t < s.len() implies edit_in_bounds(
            s[t],
            i as int,
            j as int,
        ) by {
            if t < sub.len() {
                assert(s[t] == sub[t]);
                assert(edit_in_bounds(sub[t], i - 1, j - 1));
            }
        }
    } else if j > 0 && (i == 0 || lcs_len(a.take(i as int), b.take(j - 1)) >= lcs_len(
        a.take(i - 1),
        b.take(j as int),
    )) {
        let sub = spec_script(a, b, i, (j - 1) as nat);
        lemma_script_in_bounds(a, b, i, (j - 1) as nat);
        assert forall|t: int| 0 <= t < s.len() implies edit_in_bounds(
            s[t],
            i as int,
            j as int,
        ) by {
            if t < sub.len() {
                assert(s[t] == sub[t]);
                assert(edit_in_bounds(sub[t], i as int, j - 1));
            }
        }
    } else if i > 0 {
        let sub = spec_script(a, b, (i - 1) as nat, j);
        lemma_script_in_bounds(a, b, (i - 1) as nat, j);
        assert forall|t: int| 0 <= t < s.len() implies edit_in_bounds(
            s[t],
            i as int,
            j as int,
        ) by {
            if t < sub.len() {
                assert(s[t] == sub[t]);
                assert(edit_in_bounds(sub[t], i - 1, j as int));
            }
        }
    }
}

/// The counts of an edit script tie to the longest common subsequence of the
/// prefix pair it was traced from: the unchanged operations are exactly an
/// LCS, and each side's remaining lines are its removals or additions.
proof fn lemma_script_counts(a: Seq<u64>, b: Seq<u64>, i: nat, j: nat)
    requires
        i <= a.len(),
        j <= b.len(),
    ensures
        count_unchanged(spec_script(a, b, i, j)) == lcs_len(a.take(i as int), b.take(j as int)),
        count_removed(spec_script(a, b, i, j)) + lcs_len(a.take(i as int), b.take(j as int)) == i,
        count_added(spec_script(a, b, i, j)) + lcs_len(a.take(i as int), b.take(j as int)) == j,
    decreases i + j,
{
    let s = spec_script(a, b, i, j);
    if i > 0 && j > 0 && a[i - 1] == b[j - 1] {
        lemma_script_counts(a, b, (i - 1) as nat, (j - 1) as nat);
        lemma_lcs_len_step(a, b, i as int, j as int);
        assert(s.drop_last() =~= spec_script(a, b, (i - 1) as nat, (j - 1) as nat));
    } else if j > 0 && (i == 0 || lcs_len(a.take(i as int), b.take(j - 1)) >= lcs_len(
        a.take(i - 1),
        b.take(j as int),
    )) {
        lemma_script_counts(a, b, i, (j - 1) as nat);
        if i == 0 {
            assert(lcs_len(a.take(0), b.take(j as int)) == 0);
            assert(lcs_len(a.take(0), b.take(j - 1)) == 0);
        } else {
            lemma_lcs_len_step(a, b, i as int, j as int);
        }
        assert(s.drop_last() =~= spec_script(a, b, i, (j - 1) as nat));
    } else if i > 0 {
        lemma_script_counts(a, b, (i - 1) as nat, j);
        if j == 0 {
            assert(lcs_len(a.take(i as int), b.take(0)) == 0);
            assert(lcs_len(a.take(i - 1), b.take(0)) == 0);
        } else {
            lemma_lcs_len_step(a, b, i as int, j as int);
        }
        assert(s.drop_last() =~= spec_script(a, b, (i - 1) as nat, j));
    } else {
        assert(lcs_len(a.take(0), b.take(0)) == 0);
    }
}

/// The number of `Unchanged` operations in the full edit script of two
/// digest sequences equals the length of their longest common subsequence —
/// the value the filled table reports in its bottom-right cell.
pub proof fn lemma_unchanged_count_is_lcs_len(a: Seq<u64>, b: Seq<u64>)
    ensures
        count_unchanged(spec_script(a, b, a.len(), b.len())) == lcs_len(a, b),
{
    lemma_script_counts(a, b, a.len(), b.len());
    assert(a.take(a.len() as int) =~= a);
    assert(b.take(b.len() as int) =~= b);
}

/// Swapping the two inputs swaps the roles of the markers: the swapped diff
/// has exactly as many additions as the original diff has removals, and
/// conversely. (The scripts may still pair different lines, because the
/// tie-break keeps favouring additions in both directions.)
pub proof fn lemma_swap_exchanges_change_counts(a: Seq<u64>, b: Seq<u64>)
    ensures
        count_added(spec_script(a, b, a.len(), b.len())) == count_removed(
            spec_script(b, a, b.len(), a.len()),
        ),
        count_removed(spec_script(a, b, a.len(), b.len())) == count_added(
            spec_script(b, a, b.len(), a.len()),
        ),
{
    lemma_script_counts(a, b, a.len(), b.len());
    lemma_script_counts(b, a, b.len(), a.len());
    lemma_lcs_len_symmetric(a, b);
    assert(a.take(a.len() as int) =~= a);
    assert(b.take(b.len() as int) =~= b);
}

proof fn lemma_script_self(h: Seq<u64>, k: nat)
    requires
        k <= h.len(),
    ensures
        spec_script(h, h, k, k) == Seq::new(k, |t: int| Edit::Unchanged),
    decreases k,
{
    if k > 0 {
        lemma_script_self(h, (k - 1) as nat);
        assert(spec_script(h, h, k, k) =~= Seq::new(k, |t: int| Edit::Unchanged));
    } else {
        assert(spec_script(h, h, 0, 0) =~= Seq::new(0nat, |t: int| Edit::Unchanged));
    }
}

proof fn lemma_render_all_unchanged(a: Seq<Seq<char>>, b: Seq<Seq<char>>, ops: Seq<Edit>)
    requires
        forall|t: int| 0 <= t < ops.len() ==> ops[t] is Unchanged,
    ensures
        render(a, b, ops) == Seq::<char>::empty(),
    decreases ops.len(),
{
    if ops.len() > 0 {
        lemma_render_all_unchanged(a, b, ops.drop_first());
        assert(render(a, b, ops) =~= Seq::<char>::empty());
    }
}

/// Diffing a sequence of lines against itself yields the empty report: the
/// script keeps every line and renders to nothing.
pub proof fn lemma_diff_self_is_empty(lines: Seq<Seq<char>>)
    ensures
        spec_diff_report(lines, lines) == Seq::<char>::empty(),
{
    let h = token_hashes(lines);
    lemma_script_self(h, h.len());
    lemma_render_all_unchanged(lines, lines, spec_script(h, h, h.len(), h.len()));
}

/// The report that removes every line of `lines`, in order: `"< "`, the
/// line, a newline, for each line in turn.
pub open spec fn all_removed_report(lines: Seq<Seq<char>>) -> Seq<char>
    decreases lines.len(),
{
    if lines.len() == 0 {
        Seq::empty()
    } else {
        seq!['<', ' '] + lines[0] + seq!['\n'] + all_removed_report(lines.drop_first())
    }
}

/// The report that adds every line of `lines`, in order: `"> "`, the line, a
/// newline, for each line in turn.
pub open spec fn all_added_report(lines: Seq<Seq<char>>) -> Seq<char>
    decreases lines.len(),
{
    if lines.len() == 0 {
        Seq::empty()
    } else {
        seq!['>', ' '] + lines[0] + seq!['\n'] + all_added_report(lines.drop_first())
    }
}

/// Diffing against an empty sequence touches every line of the other side:
/// with an empty modified text the script removes each original line and the
/// report lists them all under `"< "`, in original order; with an empty
/// original text the script adds each modified line and the report lists
/// them all under `"> "`, in original order.
pub proof fn lemma_diff_against_empty(lines: Seq<Seq<char>>)
    requires
        lines.len() <= usize::MAX,
    ensures
        spec_script(token_hashes(lines), token_hashes(Seq::empty()), lines.len(), 0) == Seq::new(
            lines.len(),
            |t: int| Edit::Removed(t as usize),
        ),
        spec_script(token_hashes(Seq::empty()), token_hashes(lines), 0, lines.len()) == Seq::new(
            lines.len(),
            |t: int| Edit::Added(t as usize),
        ),
        spec_diff_report(lines, Seq::empty()) == all_removed_report(lines),
        spec_diff_report(Seq::empty(), lines) == all_added_report(lines),
{
    let h = token_hashes(lines);
    let he = token_hashes(Seq::empty());
    lemma_script_all_removed(h, he, lines.len());
    lemma_script_all_added(h, he, lines.len());
    lemma_render_removed_from(lines, Seq::empty(), 0);
    assert(lines.skip(0) =~= lines);
    assert(Seq::new(lines.len(), |t: int| Edit::Removed((0 + t) as usize)) =~= Seq::new(
        lines.len(),
        |t: int| Edit::Removed(t as usize),
    ));
    lemma_render_added_from(Seq::empty(), lines, 0);
    assert(Seq::new(lines.len(), |t: int| Edit::Added((0 + t) as usize)) =~= Seq::new(
        lines.len(),
        |t: int| Edit::Added(t as usize),
    ));
}

proof fn lemma_render_removed_from(a: Seq<Seq<char>>, b: Seq<Seq<char>>, base: nat)
    requires
        base <= a.len(),
        a.len() <= usize::MAX,
    ensures
        render(
            a,
            b,
            Seq::new((a.len() - base) as nat, |t: int| Edit::Removed((base + t) as usize)),
        ) == all_removed_report(a.skip(base as int)),
    decreases a.len() - base,
{
    let ops = Seq::new((a.len() - base) as nat, |t: int| Edit::Removed((base + t) as usize));
    let rest = a.skip(base as int);
    if base < a.len() {
        lemma_render_removed_from(a, b, base + 1);
        assert(ops[0] == Edit::Removed(base as usize));
        assert(ops.drop_first() =~= Seq::new(
            (a.len() - base - 1) as nat,
            |t: int| Edit::Removed((base + 1 + t) as usize),
        ));
        assert(rest.drop_first() =~= a.skip(base as int + 1));
        assert(rest[0] == a[base as int]);
        assert(render(a, b, ops) =~= all_removed_report(rest));
    } else {
        assert(ops =~= Seq::<Edit>::empty());
        assert(rest =~= Seq::<Seq<char>>::empty());
    }
}

proof fn lemma_render_added_from(a: Seq<Seq<char>>, b: Seq<Seq<char>>, base: nat)
    requires
        base <= b.len(),
        b.len() <= usize::MAX,
    ensures
        render(
            a,
            b,
            Seq::new((b.len() - base) as nat, |t: int| Edit::Added((base + t) as usize)),
        ) == all_added_report(b.skip(base as int)),
    decreases b.len() - base,
{
    let ops = Seq::new((b.len() - base) as nat, |t: int| Edit::Added((base + t) as usize));
    let rest = b.skip(base as int);
    if base < b.len() {
        lemma_render_added_from(a, b, base + 1);
        assert(ops[0] == Edit::Added(base as usize));
        assert(ops.drop_first() =~= Seq::new(
            (b.len() - base - 1) as nat,
            |t: int| Edit::Added((base + 1 + t) as usize),
        ));
        assert(rest.drop_first() =~= b.skip(base as int + 1));
        assert(rest[0] == b[base as int]);
        assert(render(a, b, ops) =~= all_added_report(rest));
    } else {
        assert(ops =~= Seq::<Edit>::empty());
        assert(rest =~= Seq::<Seq<char>>::empty());
    }
}

proof fn lemma_script_all_removed(a: Seq<u64>, e: Seq<u64>, i: nat)
    requires
        e.len() == 0,
        i <= a.len(),
    ensures
        spec_script(a, e, i, 0) == Seq::new(i, |t: int| Edit::Removed(t as usize)),
    decreases i,
{
    if i > 0 {
        lemma_script_all_removed(a, e, (i - 1) as nat);
        assert(spec_script(a, e, i, 0) =~= Seq::new(i, |t: int| Edit::Removed(t as usize)));
    } else {
        assert(spec_script(a, e, 0, 0) =~= Seq::new(0nat, |t: int| Edit::Removed(t as usize)));
    }
}

proof fn lemma_script_all_added(a: Seq<u64>, e: Seq<u64>, j: nat)
    requires
        e.len() == 0,
        j <= a.len(),
    ensures
        spec_script(e, a, 0, j) == Seq::new(j, |t: int| Edit::Added(t as usize)),
    decreases j,
{
    if j > 0 {
        lemma_script_all_added(a, e, (j - 1) as nat);
        assert(lcs_len(e.take(0), a.take(j - 1)) == 0);
        assert(spec_script(e, a, 0, j) =~= Seq::new(j, |t: int| Edit::Added(t as usize)));
    } else {
        assert(spec_script(e, a, 0, 0) =~= Seq::new(0nat, |t: int| Edit::Added(t as usize)));
    }
}

proof fn lemma_render_push(a: Seq<Seq<char>>, b: Seq<Seq<char>>, ops: Seq<Edit>, e: Edit)
    ensures
        render(a, b, ops.push(e)) == render(a, b, ops) + render_edit(a, b, e),
    decreases ops.len(),
{
    if ops.len() == 0 {
        let l = ops.push(e);
        assert(l[0] == e);
        assert(l.drop_first() =~= Seq::<Edit>::empty());
        assert(render(a, b, l.drop_first()) == Seq::<char>::empty());
        assert(render(a, b, ops) == Seq::<char>::empty());
        assert(render(a, b, l) == render_edit(a, b, e) + render(a, b, l.drop_first()));
        assert(render(a, b, l) =~= render(a, b, ops) + render_edit(a, b, e));
    } else {
        let l = ops.push(e);
        assert(l.drop_first() =~= ops.drop_first().push(e));
        lemma_render_push(a, b, ops.drop_first(), e);
        assert(l[0] == ops[0]);
        assert(render(a, b, l) == render_edit(a, b, ops[0]) + render(a, b, l.drop_first()));
        assert(render(a, b, ops) == render_edit(a, b, ops[0]) + render(a, b, ops.drop_first()));
        assert(render(a, b, l) =~= render(a, b, ops) + render_edit(a, b, e));
    }
}

/// The state of one diff computation: the two borrowed token sequences,
/// their digests, and the filled table. The inputs stay with the caller —
/// the diff only borrows them.
pub struct Diff<'a> {
    grid: Grid,
    original: &'a [&'a str],
    modified: &'a [&'a str],
    original_hashed: Vec<u64>,
    modified_hashed: Vec<u64>,
}

impl<'a> Diff<'a> {
    /// The original text, line by line.
    pub closed spec fn original_lines(self) -> Seq<Seq<char>> {
        self.original.deep_view()
    }

    /// The modified text, line by line.
    pub closed spec fn modified_lines(self) -> Seq<Seq<char>> {
        self.modified.deep_view()
    }

    /// The digests stored beside each text are the texts' digests, and the
    /// table holds the longest-common-subsequence length of every prefix
    /// pair of the digest sequences.
    pub closed spec fn wf(self) -> bool {
        &&& self.original_hashed@ == token_hashes(self.original_lines())
        &&& self.modified_hashed@ == token_hashes(self.modified_lines())
        &&& self.grid.wf()
        &&& self.grid.spec_rows() == self.original_lines().len() + 1
        &&& self.grid.spec_cols() == self.modified_lines().len() + 1
        &&& forall|i: int, j: int|
            0 <= i <= self.original_lines().len() && 0 <= j <= self.modified_lines().len()
                ==> self.grid.cell(i, j) as nat == lcs_len(
                self.original_hashed@.take(i),
                self.modified_hashed@.take(j),
            )
    }

    /// Builds the diff state for two tokenised texts: digests both, then
    /// fills the table over the digests.
    pub fn new(original: &'a [&'a str], modified: &'a [&'a str]) -> (d: Diff<'a>)
        requires
            (original@.len() + 1) * (modified@.len() + 1) <= usize::MAX,
        ensures
            d.wf(),
            d.original_lines() == original.deep_view(),
            d.modified_lines() == modified.deep_view(),
    {
        let original_hashed = hash_tokens(original);
        let modified_hashed = hash_tokens(modified);
        let grid = lcs_grid(&original_hashed, &modified_hashed);
        Diff { grid, original, modified, original_hashed, modified_hashed }
    }

    /// The filled table.
    pub(crate) fn grid(&self) -> (g: &Grid)
        ensures
            *g == self.spec_grid(),
    {
        &self.grid
    }

    /// The two borrowed token sequences.
    pub(crate) fn contents(&self) -> (c: (&'a [&'a str], &'a [&'a str]))
        ensures
            c.0.deep_view() == self.original_lines(),
            c.1.deep_view() == self.modified_lines(),
    {
        (self.original, self.modified)
    }

    pub closed spec fn spec_grid(self) -> Grid {
        self.grid
    }
}

/// The lazy backtrace: a cursor on the table that starts at the
/// bottom-right corner and hands out one edit operation per step, in
/// reverse (nearest-to-end first) order, until it reaches the origin.
struct DiffIterator<'a, 'b> {
    diff: &'b Diff<'a>,
    i: usize,
    j: usize,
}

impl<'a, 'b> DiffIterator<'a, 'b> {
    spec fn wf(self) -> bool {
        &&& self.diff.wf()
        &&& self.i <= self.diff.original_lines().len()
        &&& self.j <= self.diff.modified_lines().len()
    }

    /// The part of the script the cursor has not yet handed out.
    spec fn script_at(self) -> Seq<Edit> {
        spec_script(
            self.diff.original_hashed@,
            self.diff.modified_hashed@,
            self.i as nat,
            self.j as nat,
        )
    }

    /// One backtrace step: keep the pair when the digests at the cursor
    /// agree, otherwise prefer the addition on a tie, per the documented
    /// tie-break.
    fn next(&mut self) -> (r: Option<Edit>)
        requires
            old(self).wf(),
        ensures
            final(self).wf(),
            final(self).diff == old(self).diff,
            match r {
                Option::None => *final(self) == *old(self) && old(self).i == 0 && old(self).j
                    == 0,
                Option::Some(e) => old(self).script_at() == final(self).script_at().push(e)
                    && final(self).i + final(self).j < old(self).i + old(self).j,
            },
    {
        let i = self.i;
        let j = self.j;
        if i == 0 && j == 0 {
            return None;
        }
        let ghost a = self.diff.original_hashed@;
        let ghost b = self.diff.modified_hashed@;
        if i > 0 && j > 0 && self.diff.original_hashed[i - 1] == self.diff.modified_hashed[j - 1] {
            self.i = i - 1;
            self.j = j - 1;
            Some(Edit::Unchanged)
        } else if j > 0 && (i == 0 || self.diff.grid().get(i, j - 1) >= self.diff.grid().get(
            i - 1,
            j,
        )) {
            proof {
                if i > 0 {
                    assert(lcs_len(a.take(i as int), b.take(j - 1)) >= lcs_len(
                        a.take(i - 1),
                        b.take(j as int),
                    ));
                }
            }
            self.j = j - 1;
            Some(Edit::Added(j - 1))
        } else {
            proof {
                assert(i > 0);
                if j > 0 {
                    assert(lcs_len(a.take(i as int), b.take(j - 1)) < lcs_len(
                        a.take(i - 1),
                        b.take(j as int),
                    ));
                }
            }
            self.i = i - 1;
            Some(Edit::Removed(i - 1))
        }
    }
}

/// A rendered diff report.
pub struct DiffReport(String);

impl View for DiffReport {
    type V = Seq<char>;

    closed spec fn view(&self) -> Seq<char> {
        self.0@
    }
}

impl DiffReport {
    /// Renders the diff: walks the backtrace to the origin, then folds the
    /// operations, oldest first, into the report text.
    pub fn create(diff: Diff<'_>) -> (r: DiffReport)
        requires
            diff.wf(),
        ensures
            r@ == spec_diff_report(diff.original_lines(), diff.modified_lines()),
    {
        let (original, modified) = diff.contents();
        let m = original.len();
        let n = modified.len();
        let ghost a = diff.original_lines();
        let ghost b = diff.modified_lines();
        let ghost script = spec_script(
            diff.original_hashed@,
            diff.modified_hashed@,
            m as nat,
            n as nat,
        );
        proof {
            lemma_script_in_bounds(diff.original_hashed@, diff.modified_hashed@, m as nat, n as nat);
        }
        let mut it = DiffIterator { diff: &diff, i: m, j: n };
        let mut ops: Vec<Edit> = Vec::new();
        while it.i > 0 || it.j > 0
            invariant
                it.wf(),
                *it.diff == diff,
                diff.wf(),
                script == it.script_at() + ops@.reverse(),
            decreases it.i + it.j,
        {
            let ghost before = it.script_at();
            let ghost ops_before = ops@;
            match it.next() {
                Option::Some(op) => {
                    ops.push(op);
                    proof {
                        assert(ops@.reverse() =~= seq![op] + ops_before.reverse());
                        assert(it.script_at() + ops@.reverse() =~= before + ops_before.reverse());
                    }
                },
                Option::None => {
                    proof {
                        assert(false);
                    }
                },
            }
        }
        proof {
            assert(it.script_at() =~= Seq::<Edit>::empty());
            assert(script =~= ops@.reverse());
        }
        let total = ops.len();
        let mut report = DiffReport::builder();
        let mut t: usize = 0;
        while t < total
            invariant
                t <= total,
                total == ops@.len(),
                diff.wf(),
                a == diff.original_lines(),
                b == diff.modified_lines(),
                a == original.deep_view(),
                b == modified.deep_view(),
                m == a.len(),
                n == b.len(),
                m == original@.len(),
                n == modified@.len(),
                script == ops@.reverse(),
                script == spec_script(
                    diff.original_hashed@,
                    diff.modified_hashed@,
                    m as nat,
                    n as nat,
                ),
                forall|x: int|
                    0 <= x < script.len() ==> edit_in_bounds(
                        #[trigger] script[x],
                        m as int,
                        n as int,
                    ),
                report@ == render(a, b, script.take(t as int)),
            decreases total - t,
        {
            let op = ops[total - 1 - t];
            proof {
                assert(op == script[t as int]);
                assert(script.take(t + 1) =~= script.take(t as int).push(op));
                lemma_render_push(a, b, script.take(t as int), op);
            }
            match op {
                Edit::Unchanged => {
                    proof {
                        assert(report@ =~= render(a, b, script.take(t + 1)));
                    }
                },
                Edit::Added(x) => {
                    proof {
                        assert(edit_in_bounds(script[t as int], m as int, n as int));
                        assert(b[x as int] == modified@[x as int].deep_view());
                    }
                    let line: &str = modified[x];
                    report = report.added(line);
                    proof {
                        assert(line@ == b[x as int]);
                        assert(report@ =~= render(a, b, script.take(t + 1)));
                    }
                },
                Edit::Removed(x) => {
                    proof {
                        assert(edit_in_bounds(script[t as int], m as int, n as int));
                        assert(a[x as int] == original@[x as int].deep_view());
                    }
                    let line: &str = original[x];
                    report = report.changed(line);
                    proof {
                        assert(line@ == a[x as int]);
                        assert(report@ =~= render(a, b, script.take(t + 1)));
                    }
                },
            }
            t = t + 1;
        }
        proof {
            assert(script.take(total as int) =~= script);
        }
        report
    }

    /// An empty report, to be grown one operation at a time.
    pub(crate) fn builder() -> (r: DiffReport)
        ensures
            r@ == Seq::<char>::empty(),
    {
        DiffReport(String::new())
    }

    /// Appends a removed line: the `"< "` marker, the line, a newline.
    pub(crate) fn changed(self, line: &str) -> (r: DiffReport)
        ensures
            r@ == self@ + seq!['<', ' '] + line@ + seq!['\n'],
    {
        proof {
            reveal_strlit("< ");
            reveal_strlit("\n");
        }
        let mut s = self.0;
        s.append("< ");
        s.append(line);
        s.append("\n");
        DiffReport(s)
    }

    /// Appends an added line: the `"> "` marker, the line, a newline.
    pub(crate) fn added(self, line: &str) -> (r: DiffReport)
        ensures
            r@ == self@ + seq!['>', ' '] + line@ + seq!['\n'],
    {
        proof {
            reveal_strlit("> ");
            reveal_strlit("\n");
        }
        let mut s = self.0;
        s.append("> ");
        s.append(line);
        s.append("\n");
        DiffReport(s)
    }

    /// The rendered report text.
    pub fn text(&self) -> (s: &String)
        ensures
            s@ == self@,
    {
        &self.0
    }
}

} // verus!
