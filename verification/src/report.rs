//! The report: one row of figures for each scope that has completed a call,
//! the scopes in the order of a depth-first walk, laid out as a table.
//!
//! Shares of the whole and frequencies are taken of the measurement window,
//! the time that has passed since the profiler was made or last reset, not
//! of the sum of the roots' durations: time spent outside every scope
//! counts.

use crate::figures::{
    fixed2, fixed2_string, indent, indented, ratio_string, ratio_text, scientific,
    scientific_string, sqrt_floor,
};
use crate::forest::{Forest, ScopeModel};
use crate::profiler::{positions, Profiler};
use crate::stats::least;
use crate::table::{
    column_count, layout, lemma_layout_columns, row_cells, row_new, row_with_cell, table_add_row,
    table_new, table_rows, table_spec, table_text, table_to_string,
};
use tabular::{Row, Table};
use vstd::prelude::*;

verus! {

/// A sum of durations of at most this many nanoseconds counts as no time.
pub const NEGLIGIBLE_NANOS: u64 = 10;

/// The nanoseconds in a hundredth of a millisecond.
pub const CENTI_MILLI: u64 = 10_000;

/// The hundredths of a percent in the whole.
pub const WHOLE: u64 = 10_000;

/// The nanoseconds in a second, times one hundred.
pub const CENTI_HERTZ: u64 = 100_000_000_000;

/// The sum of the durations of the scopes of `list` from position `k` on.
pub open spec fn sum_of(nodes: Seq<ScopeModel>, list: Seq<int>, k: int) -> nat
    decreases list.len() - k,
{
    if k < 0 || k >= list.len() {
        0
    } else {
        nodes[list[k]].stats.sum + sum_of(nodes, list, k + 1)
    }
}

/// The sum of the durations of the first `k` scopes of `list`.
pub open spec fn sum_to(nodes: Seq<ScopeModel>, list: Seq<int>, k: int) -> nat
    decreases k,
{
    if k <= 0 || k > list.len() {
        0
    } else {
        sum_to(nodes, list, k - 1) + nodes[list[k - 1]].stats.sum
    }
}

/// Summing from the front and summing from the back agree.
pub proof fn lemma_sum_split(nodes: Seq<ScopeModel>, list: Seq<int>, k: int)
    requires
        0 <= k <= list.len(),
    ensures
        sum_to(nodes, list, k) + sum_of(nodes, list, k) == sum_of(nodes, list, 0),
    decreases k,
{
    if k > 0 {
        lemma_sum_split(nodes, list, k - 1);
    }
}

/// The share of its own time that a scope did not spend in its children,
/// in hundredths of a percent; the whole where its time is negligible.
pub open spec fn self_text(sum: nat, kids: nat) -> Seq<char> {
    if sum <= NEGLIGIBLE_NANOS {
        fixed2(WHOLE as nat)
    } else if kids >= sum {
        ratio_text(0, sum)
    } else {
        ratio_text((sum - kids) as nat * WHOLE as nat, sum)
    }
}

/// The headings of the columns.
pub open spec fn header_row() -> Seq<Seq<char>> {
    seq![
        ""@,
        "global[%]"@,
        "local[%]"@,
        "self[%]"@,
        "mean[ms]"@,
        "last[ms]"@,
        "min[ms]"@,
        "max[ms]"@,
        "std[ms]"@,
        "f[Hz]"@,
        "calls"@,
    ]
}

/// The row of scope `i` at `depth`, in a measurement window of `total`
/// nanoseconds: its indented name; its share of the window, of its parent's
/// time (of the window for a root) and of itself outside its children, in
/// percent; the mean, last, smallest and largest duration and the standard
/// deviation, in milliseconds; the calls per second, an open call counted;
/// the number of completed calls.
pub open spec fn row_of(f: Forest, i: int, depth: nat, total: nat) -> Seq<Seq<char>> {
    let node = f.nodes[i];
    let s = node.stats;
    let whole = match node.parent {
        Some(p) => f.nodes[p].stats.sum,
        None => total,
    };
    let begun = if node.active {
        s.calls + 1
    } else {
        s.calls
    };
    seq![
        indent(depth) + node.name,
        ratio_text(s.sum * WHOLE as nat, total),
        ratio_text(s.sum * WHOLE as nat, whole),
        self_text(s.sum, sum_of(f.nodes, node.children, 0)),
        ratio_text(s.sum, s.calls * CENTI_MILLI as nat),
        ratio_text(s.last, CENTI_MILLI as nat),
        ratio_text(s.min, CENTI_MILLI as nat),
        ratio_text(s.max, CENTI_MILLI as nat),
        ratio_text(sqrt_floor(s.m2 / s.calls), CENTI_MILLI as nat),
        ratio_text(begun * CENTI_HERTZ as nat, total),
        scientific(s.calls),
    ]
}

/// The rows of the children of scope `i` from the `k`-th on, each followed
/// by the rows of its own descendants.
pub open spec fn rows_below(f: Forest, i: int, k: int, depth: nat, total: nat) -> Seq<
    Seq<Seq<char>>,
>
    decreases f.nodes.len() - i, f.nodes[i].children.len() - k,
{
    if i < 0 || i >= f.nodes.len() || k < 0 || k >= f.nodes[i].children.len() {
        Seq::empty()
    } else {
        let c = f.nodes[i].children[k];
        let first = if i < c < f.nodes.len() {
            rows_at(f, c, depth, total)
        } else {
            Seq::empty()
        };
        first + rows_below(f, i, k + 1, depth, total)
    }
}

/// The row of scope `i`, unless it has completed no call, followed by the
/// rows of its descendants one level deeper.
pub open spec fn rows_at(f: Forest, i: int, depth: nat, total: nat) -> Seq<Seq<Seq<char>>>
    decreases f.nodes.len() - i, f.nodes[i].children.len() + 1,
{
    if i < 0 || i >= f.nodes.len() {
        Seq::empty()
    } else {
        let own = if f.nodes[i].stats.calls > 0 {
            seq![row_of(f, i, depth, total)]
        } else {
            Seq::empty()
        };
        own + rows_below(f, i, 0, depth + 1, total)
    }
}

/// The rows of the roots from the `k`-th on, each followed by the rows of
/// its descendants.
pub open spec fn rows_from(f: Forest, k: int, total: nat) -> Seq<Seq<Seq<char>>>
    decreases f.roots.len() - k,
{
    if k < 0 || k >= f.roots.len() {
        Seq::empty()
    } else {
        rows_at(f, f.roots[k], 0, total) + rows_from(f, k + 1, total)
    }
}

/// All rows of a report: the headings, then the scopes.
pub open spec fn report_rows(f: Forest, total: nat) -> Seq<Seq<Seq<char>>> {
    seq![header_row()] + rows_from(f, 0, total)
}

/// The text of a report on the forest `f` in a measurement window of
/// `total` nanoseconds.
pub open spec fn report_text(f: Forest, total: nat) -> Seq<char> {
    table_text(layout(), report_rows(f, total))
}

/// The headings as a row.
fn header() -> (row: Row)
    ensures
        row_cells(row) == header_row(),
{
    let row = row_new();
    let row = row_with_cell(row, "");
    let row = row_with_cell(row, "global[%]");
    let row = row_with_cell(row, "local[%]");
    let row = row_with_cell(row, "self[%]");
    let row = row_with_cell(row, "mean[ms]");
    let row = row_with_cell(row, "last[ms]");
    let row = row_with_cell(row, "min[ms]");
    let row = row_with_cell(row, "max[ms]");
    let row = row_with_cell(row, "std[ms]");
    let row = row_with_cell(row, "f[Hz]");
    let row = row_with_cell(row, "calls");
    assert(row_cells(row) =~= header_row());
    row
}

impl Profiler {
    /// The sum of the durations of the children of scope `id`, stopping at
    /// the largest `u64`.
    fn children_sum(&self, id: usize) -> (sum: u64)
        requires
            self.wf(),
            id < self@.nodes.len(),
        ensures
            sum as nat == least(
                sum_of(self@.nodes, self@.nodes[id as int].children, 0),
                u64::MAX as nat,
            ),
    {
        let kids = self.scope(id).children();
        let ghost list = self@.nodes[id as int].children;
        let ghost nodes = self@.nodes;
        let mut sum: u64 = 0;
        let mut k: usize = 0;
        assert(self@.node_wf(id as int));
        while k < kids.len()
            invariant
                k <= kids.len(),
                self.wf(),
                nodes == self@.nodes,
                list == positions(kids@),
                self@.list_wf(list, Some(id as int)),
                sum as nat == least(sum_to(nodes, list, k as int), u64::MAX as nat),
            decreases kids.len() - k,
        {
            let c: usize = kids[k];
            assert(list[k as int] == c);
            sum = sum.saturating_add(self.scope(c).stats().dur_sum());
            k += 1;
        }
        proof {
            lemma_sum_split(nodes, list, k as int);
        }
        sum
    }

    /// The row of scope `id`, which has completed a call, at `depth`.
    fn row_for(&self, id: usize, depth: usize, total: u64) -> (row: Row)
        requires
            self.wf(),
            id < self@.nodes.len(),
            self@.nodes[id as int].stats.calls > 0,
        ensures
            row_cells(row) == row_of(self@, id as int, depth as nat, total as nat),
    {
        let scope = self.scope(id);
        let s = scope.stats();
        assert(self@.node_wf(id as int));
        let sum: u64 = s.dur_sum();
        let calls: u64 = s.num_calls();
        let whole: u64 = match scope.parent() {
            Some(p) => self.scope(p).stats().dur_sum(),
            None => total,
        };
        let begun: u128 = if scope.is_active() {
            calls as u128 + 1
        } else {
            calls as u128
        };
        let kids: u64 = self.children_sum(id);
        let name = indented(depth, scope.name().as_str());
        let global = ratio_string(sum as u128 * WHOLE as u128, total as u128);
        let local = ratio_string(sum as u128 * WHOLE as u128, whole as u128);
        let own = if sum <= NEGLIGIBLE_NANOS {
            fixed2_string(WHOLE as u128)
        } else if kids >= sum {
            ratio_string(0, sum as u128)
        } else {
            ratio_string((sum - kids) as u128 * WHOLE as u128, sum as u128)
        };
        let mean = ratio_string(sum as u128, calls as u128 * CENTI_MILLI as u128);
        let last = ratio_string(s.dur_last() as u128, CENTI_MILLI as u128);
        let min = ratio_string(s.dur_min() as u128, CENTI_MILLI as u128);
        let max = ratio_string(s.dur_max() as u128, CENTI_MILLI as u128);
        let std = ratio_string(s.std_dev() as u128, CENTI_MILLI as u128);
        let freq = ratio_string(begun * CENTI_HERTZ as u128, total as u128);
        let count = scientific_string(calls);
        let row = row_new();
        let row = row_with_cell(row, name.as_str());
        let row = row_with_cell(row, global.as_str());
        let row = row_with_cell(row, local.as_str());
        let row = row_with_cell(row, own.as_str());
        let row = row_with_cell(row, mean.as_str());
        let row = row_with_cell(row, last.as_str());
        let row = row_with_cell(row, min.as_str());
        let row = row_with_cell(row, max.as_str());
        let row = row_with_cell(row, std.as_str());
        let row = row_with_cell(row, freq.as_str());
        let row = row_with_cell(row, count.as_str());
        assert(row_cells(row) =~= row_of(self@, id as int, depth as nat, total as nat));
        row
    }

    /// Adds the row of scope `id`, unless it has completed no call, and
    /// then the rows of its descendants, one level deeper, to `table`.
    pub(crate) fn write_recursive(&self, id: usize, depth: usize, total: u64, table: &mut Table)
        requires
            self.wf(),
            id < self@.nodes.len(),
            depth <= id,
            column_count(table_spec(*old(table)), 0) == Some(11nat),
        ensures
            table_spec(*final(table)) == table_spec(*old(table)),
            table_rows(*final(table)) == table_rows(*old(table)) + rows_at(
                self@,
                id as int,
                depth as nat,
                total as nat,
            ),
        decreases self@.nodes.len() - id,
    {
        let ghost start = table_rows(*table);
        let ghost spec = table_spec(*table);
        let ghost goal = start + rows_at(self@, id as int, depth as nat, total as nat);
        let scope = self.scope(id);
        if scope.num_calls() > 0 {
            let row = self.row_for(id, depth, total);
            table_add_row(table, row);
        }
        let kids = scope.children();
        assert(self@.node_wf(id as int));
        assert(table_rows(*table) + rows_below(
            self@,
            id as int,
            0,
            (depth + 1) as nat,
            total as nat,
        ) =~= goal);
        let mut k: usize = 0;
        while k < kids.len()
            invariant
                k <= kids.len(),
                self.wf(),
                id < self@.nodes.len(),
                depth <= id,
                positions(kids@) == self@.nodes[id as int].children,
                self@.list_wf(self@.nodes[id as int].children, Some(id as int)),
                table_spec(*table) == spec,
                column_count(spec, 0) == Some(11nat),
                table_rows(*table) + rows_below(
                    self@,
                    id as int,
                    k as int,
                    (depth + 1) as nat,
                    total as nat,
                ) == goal,
            decreases kids.len() - k,
        {
            let c: usize = kids[k];
            let ghost now = table_rows(*table);
            assert(self@.nodes[id as int].children[k as int] == c);
            self.write_recursive(c, depth + 1, total, table);
            assert(table_rows(*table) + rows_below(
                self@,
                id as int,
                k as int + 1,
                (depth + 1) as nat,
                total as nat,
            ) =~= now + rows_below(
                self@,
                id as int,
                k as int,
                (depth + 1) as nat,
                total as nat,
            ));
            k += 1;
        }
        assert(table_rows(*table) =~= goal);
    }

    /// The report on a measurement window of `total` nanoseconds: the
    /// headings, then a row for each scope that has completed a call, the
    /// roots in the order of their first call, each scope followed by its
    /// descendants.
    pub fn report(&self, total: u64) -> (text: String)
        requires
            self.wf(),
        ensures
            text@ == report_text(self@, total as nat),
    {
        proof {
            lemma_layout_columns();
        }
        let mut table = table_new("{:<} | {:>} {:>} {:>} | {:>} {:>} {:>} {:>} {:>} | {:>} {:>}");
        table_add_row(&mut table, header());
        let ghost goal = report_rows(self@, total as nat);
        assert(table_rows(table) + rows_from(self@, 0, total as nat) =~= goal);
        let n: usize = self.num_roots();
        let mut k: usize = 0;
        while k < n
            invariant
                k <= n,
                n == self@.roots.len(),
                self.wf(),
                table_spec(table) == layout(),
                column_count(layout(), 0) == Some(11nat),
                table_rows(table) + rows_from(self@, k as int, total as nat) == goal,
            decreases n - k,
        {
            let r: usize = self.root(k);
            let ghost now = table_rows(table);
            self.write_recursive(r, 0, total, &mut table);
            assert(table_rows(table) + rows_from(self@, k as int + 1, total as nat) =~= now
                + rows_from(self@, k as int, total as nat));
            k += 1;
        }
        assert(table_rows(table) =~= goal);
        table_to_string(&table)
    }

    /// The report on the current measurement window, which ends now.
    pub fn to_string(&self) -> (text: String)
        requires
            self.wf(),
        ensures
            exists|total: nat| total <= u64::MAX && text@ == report_text(self@, total),
    {
        let total: u64 = self.elapsed();
        let text = self.report(total);
        assert(total as nat <= u64::MAX && text@ == report_text(self@, total as nat));
        text
    }
}

} // verus!
