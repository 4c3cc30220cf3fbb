//! Terminal table of results: tree-structured names (`├─` / `╰─`
//! prefixes) followed by six right-padded columns (p50, p95, p99, p99.9,
//! p99.99, mean).
//!
//! The painter receives the name span and column widths up front and
//! appends each finished line to its output text, which the caller hands
//! on to the terminal.

use vstd::prelude::*;
use vstd::string::StrSliceExecFns;

use crate::stats::PercentileStats;
use crate::text::{push_char, push_chars, push_str};
use crate::time::fine_duration::{display_text, DISPLAY_MULTIPLE};
use crate::time::FineDuration;

verus! {

/// Spacing between the name area and the first column.
pub const COL_BUF: usize = 2;

/// Number of value columns.
pub const COLUMN_COUNT: usize = 6;

/// Columns displayed in the benchmark table.
#[derive(Clone, Copy, Debug, PartialEq, Eq, Structural)]
pub enum TableColumn {
    /// 50th percentile (median).
    P50,
    /// 95th percentile.
    P95,
    /// 99th percentile.
    P99,
    /// 99.9th percentile.
    P99_9,
    /// 99.99th percentile.
    P99_99,
    /// Arithmetic mean.
    Mean,
}

/// The column at display position `i` (`0 <= i < 6`).
pub open spec fn column_at(i: int) -> TableColumn {
    if i == 0 {
        TableColumn::P50
    } else if i == 1 {
        TableColumn::P95
    } else if i == 2 {
        TableColumn::P99
    } else if i == 3 {
        TableColumn::P99_9
    } else if i == 4 {
        TableColumn::P99_99
    } else {
        TableColumn::Mean
    }
}

/// Header label of a column.
pub open spec fn column_label(c: TableColumn) -> Seq<char> {
    match c {
        TableColumn::P50 => "p50"@,
        TableColumn::P95 => "p95"@,
        TableColumn::P99 => "p99"@,
        TableColumn::P99_9 => "p99.9"@,
        TableColumn::P99_99 => "p99.99"@,
        TableColumn::Mean => "mean"@,
    }
}

/// The duration a column shows for given statistics.
pub open spec fn column_stat(c: TableColumn, st: PercentileStats) -> FineDuration {
    match c {
        TableColumn::P50 => st.percentiles.p50,
        TableColumn::P95 => st.percentiles.p95,
        TableColumn::P99 => st.percentiles.p99,
        TableColumn::P99_9 => st.percentiles.p99_9,
        TableColumn::P99_99 => st.percentiles.p99_99,
        TableColumn::Mean => st.mean,
    }
}

impl TableColumn {
    /// The column at display position `i`.
    pub fn at(i: usize) -> (r: Self)
        requires
            i < COLUMN_COUNT,
        ensures
            r == column_at(i as int),
    {
        if i == 0 {
            TableColumn::P50
        } else if i == 1 {
            TableColumn::P95
        } else if i == 2 {
            TableColumn::P99
        } else if i == 3 {
            TableColumn::P99_9
        } else if i == 4 {
            TableColumn::P99_99
        } else {
            TableColumn::Mean
        }
    }

    /// Column header label.
    pub fn name(self) -> (r: &'static str)
        ensures
            r@ == column_label(self),
    {
        match self {
            TableColumn::P50 => "p50",
            TableColumn::P95 => "p95",
            TableColumn::P99 => "p99",
            TableColumn::P99_9 => "p99.9",
            TableColumn::P99_99 => "p99.99",
            TableColumn::Mean => "mean",
        }
    }

    /// The duration this column shows for `stats`.
    pub fn get_stat(self, stats: &PercentileStats) -> (r: FineDuration)
        ensures
            r == column_stat(self, *stats),
    {
        match self {
            TableColumn::P50 => stats.percentiles.p50,
            TableColumn::P95 => stats.percentiles.p95,
            TableColumn::P99 => stats.percentiles.p99,
            TableColumn::P99_9 => stats.percentiles.p99_9,
            TableColumn::P99_99 => stats.percentiles.p99_99,
            TableColumn::Mean => stats.mean,
        }
    }
}

/// `n` spaces.
pub open spec fn spaces(n: nat) -> Seq<char> {
    Seq::new(n, |i: int| ' ')
}

/// `line` right-padded to `span + COL_BUF` characters, with at least
/// `COL_BUF` spaces of padding.
pub open spec fn padded(line: Seq<char>, span: nat) -> Seq<char> {
    line + spaces((COL_BUF + (if span > line.len() { span - line.len() } else { 0 })) as nat)
}

/// Branch glyph of a node: `├─ ` for a node with later siblings, `╰─ `
/// for the last one.
pub open spec fn branch_text(is_last: bool) -> Seq<char> {
    if is_last {
        seq!['\u{2570}', '\u{2500}', ' ']
    } else {
        seq!['\u{251c}', '\u{2500}', ' ']
    }
}

/// The prefix segment that a parent adds for its children: blank under
/// the last sibling, a vertical bar otherwise.
pub open spec fn indent_text(is_last: bool) -> Seq<char> {
    if is_last {
        seq![' ', ' ', ' ']
    } else {
        seq!['\u{2502}', ' ', ' ']
    }
}

/// Text of the value cell at position `idx`: a separator before all but
/// the first cell (without its trailing space when the last cell is
/// empty), the value, and padding to the column width after all but the
/// last cell.
pub open spec fn cell_text(v: Seq<char>, w: nat, idx: nat) -> Seq<char> {
    let sep = if idx == 0 {
        seq![]
    } else if idx == COLUMN_COUNT - 1 && v.len() == 0 {
        seq![' ', '\u{2502}']
    } else {
        seq![' ', '\u{2502}', ' ']
    };
    let pad = if idx == COLUMN_COUNT - 1 {
        seq![]
    } else {
        spaces((if w > v.len() { w - v.len() } else { 0 }) as nat)
    };
    sep + v + pad
}

/// Text of the first `k` value cells.
pub open spec fn columns_text(vals: Seq<Seq<char>>, widths: Seq<usize>, k: nat) -> Seq<char>
    decreases k,
{
    if k == 0 {
        seq![]
    } else {
        columns_text(vals, widths, (k - 1) as nat) + cell_text(
            vals[k - 1],
            widths[k - 1] as nat,
            (k - 1) as nat,
        )
    }
}

/// The six header labels.
pub open spec fn header_cells() -> Seq<Seq<char>> {
    Seq::new(COLUMN_COUNT as nat, |i: int| column_label(column_at(i)))
}

/// Six empty cells.
pub open spec fn empty_cells() -> Seq<Seq<char>> {
    Seq::new(COLUMN_COUNT as nat, |i: int| seq![])
}

/// The `(ignored)` placeholder followed by five empty cells.
pub open spec fn ignored_cells() -> Seq<Seq<char>> {
    Seq::new(COLUMN_COUNT as nat, |i: int| if i == 0 { "(ignored)"@ } else { seq![] })
}

/// The display texts of the six column durations.
pub open spec fn timing_cells(st: PercentileStats) -> Seq<Seq<char>> {
    Seq::new(
        COLUMN_COUNT as nat,
        |i: int| display_text(column_stat(column_at(i), st).picos as nat),
    )
}

/// The cell under each header shows the statistic the header names: the
/// column labelled `mean` shows the mean, the one labelled `p50` the
/// median, and so on for `p95`, `p99`, `p99.9` and `p99.99`.
pub proof fn lemma_cells_match_headers(st: PercentileStats, i: int)
    requires
        0 <= i < COLUMN_COUNT,
    ensures
        header_cells()[i] == "mean"@ ==> timing_cells(st)[i] == display_text(st.mean.picos as nat),
        header_cells()[i] == "p50"@ ==> timing_cells(st)[i] == display_text(
            st.percentiles.p50.picos as nat,
        ),
        header_cells()[i] == "p95"@ ==> timing_cells(st)[i] == display_text(
            st.percentiles.p95.picos as nat,
        ),
        header_cells()[i] == "p99"@ ==> timing_cells(st)[i] == display_text(
            st.percentiles.p99.picos as nat,
        ),
        header_cells()[i] == "p99.9"@ ==> timing_cells(st)[i] == display_text(
            st.percentiles.p99_9.picos as nat,
        ),
        header_cells()[i] == "p99.99"@ ==> timing_cells(st)[i] == display_text(
            st.percentiles.p99_99.picos as nat,
        ),
{
    reveal_strlit("mean");
    reveal_strlit("p50");
    reveal_strlit("p95");
    reveal_strlit("p99");
    reveal_strlit("p99.9");
    reveal_strlit("p99.99");
    let labels = seq!["mean"@, "p50"@, "p95"@, "p99"@, "p99.9"@, "p99.99"@];
    assert forall|a: int, b: int| 0 <= a < b < 6 implies #[trigger] labels[a] != #[trigger] labels[b] by {
        if labels[a].len() == labels[b].len() {
            assert(labels[a][labels[a].len() - 1] != labels[b][labels[b].len() - 1] || labels[a][1]
                != labels[b][1]);
        }
    }
    assert(header_cells()[i] == column_label(column_at(i)));
    assert(timing_cells(st)[i] == display_text(column_stat(column_at(i), st).picos as nat));
    assert(labels[0] == "mean"@ && labels[1] == "p50"@ && labels[2] == "p95"@);
    assert(labels[3] == "p99"@ && labels[4] == "p99.9"@ && labels[5] == "p99.99"@);
}

/// Whether every column duration of `st` can be displayed.
pub open spec fn displayable(st: PercentileStats) -> bool {
    forall|i: int|
        0 <= i < COLUMN_COUNT ==> #[trigger] column_stat(column_at(i), st).picos * DISPLAY_MULTIPLE
            <= u128::MAX
}

/// The views of a vector of strings.
pub open spec fn string_views(v: Seq<String>) -> Seq<Seq<char>> {
    v.map_values(|s: String| s@)
}

/// The line of a parent node at `depth` below `prefix`: prefix, branch
/// (none at the top level), name, padding, then the header labels at the
/// top level or empty cells below it.
pub open spec fn parent_line_at(
    depth: nat,
    prefix: Seq<char>,
    span: nat,
    widths: Seq<usize>,
    name: Seq<char>,
    is_last: bool,
) -> Seq<char> {
    let top = depth == 0;
    let branch = if top { seq![] } else { branch_text(is_last) };
    let cells = if top { header_cells() } else { empty_cells() };
    padded(prefix + branch + name, span) + columns_text(cells, widths, COLUMN_COUNT as nat) + seq![
        '\n',
    ]
}

/// The line of a leaf: prefix, branch, name, padding and `cells`.
pub open spec fn leaf_line_at(
    prefix: Seq<char>,
    span: nat,
    widths: Seq<usize>,
    name: Seq<char>,
    cells: Seq<Seq<char>>,
    is_last: bool,
) -> Seq<char> {
    padded(prefix + branch_text(is_last) + name, span) + columns_text(
        cells,
        widths,
        COLUMN_COUNT as nat,
    ) + seq!['\n']
}

/// The continuation line under a leaf: prefix, a vertical bar unless the
/// leaf is the last sibling, padding and `cells`.
pub open spec fn continuation_line_at(
    prefix: Seq<char>,
    span: nat,
    widths: Seq<usize>,
    cells: Seq<Seq<char>>,
    is_last: bool,
) -> Seq<char> {
    let bar = if is_last { seq![] } else { seq!['\u{2502}'] };
    padded(prefix + bar, span) + columns_text(cells, widths, COLUMN_COUNT as nat) + seq!['\n']
}

/// The prefix of the children of a parent at `depth` below `prefix`.
pub open spec fn child_prefix(depth: nat, prefix: Seq<char>, is_last: bool) -> Seq<char> {
    if depth == 0 {
        prefix
    } else {
        prefix + indent_text(is_last)
    }
}

/// Writes a table of results as text, one line per call.
pub struct TablePainter {
    max_name_span: usize,
    column_widths: [usize; 6],
    depth: usize,
    current_prefix: Vec<char>,
    prefix_stack: Vec<usize>,
    output: String,
}

impl TablePainter {
    /// Maximum character span of names with their tree prefixes.
    pub closed spec fn span(&self) -> nat {
        self.max_name_span as nat
    }

    /// Column widths.
    pub closed spec fn widths(&self) -> Seq<usize> {
        self.column_widths@
    }

    /// Current nesting depth.
    pub closed spec fn depth(&self) -> nat {
        self.depth as nat
    }

    /// Tree prefix written before the names at the current depth.
    pub closed spec fn prefix(&self) -> Seq<char> {
        self.current_prefix@
    }

    /// Prefix lengths saved by the open parents, outermost first.
    pub closed spec fn saved(&self) -> Seq<usize> {
        self.prefix_stack@
    }

    /// Text written so far.
    pub closed spec fn output(&self) -> Seq<char> {
        self.output@
    }

    /// Well-formedness: one saved length per open parent, each no longer
    /// than the current prefix and none shorter than the one before.
    pub closed spec fn wf(&self) -> bool {
        &&& self.prefix_stack@.len() == self.depth
        &&& self.current_prefix@.len() <= usize::MAX
        &&& self.max_name_span <= usize::MAX - COL_BUF
        &&& forall|i: int|
            0 <= i < self.prefix_stack@.len() ==> #[trigger] self.prefix_stack@[i]
                <= self.current_prefix@.len()
        &&& forall|i: int, j: int|
            0 <= i < j < self.prefix_stack@.len() ==> self.prefix_stack@[i]
                <= self.prefix_stack@[j]
    }

    /// Creates a painter with nothing written, at depth zero.
    pub fn new(max_name_span: usize, column_widths: [usize; 6]) -> (r: Self)
        requires
            max_name_span <= usize::MAX - COL_BUF,
        ensures
            r.wf(),
            r.span() == max_name_span,
            r.widths() == column_widths@,
            r.depth() == 0,
            r.prefix() == Seq::<char>::empty(),
            r.saved() == Seq::<usize>::empty(),
            r.output() == Seq::<char>::empty(),
    {
        TablePainter {
            max_name_span,
            column_widths,
            depth: 0,
            current_prefix: Vec::new(),
            prefix_stack: Vec::new(),
            output: String::new(),
        }
    }

    /// Text written so far.
    pub fn output_text(&self) -> (r: &str)
        ensures
            r@ == self.output(),
    {
        self.output.as_str()
    }

    /// Hands out the text written so far and starts over with none.
    pub fn take_output(&mut self) -> (r: String)
        ensures
            r@ == old(self).output(),
            final(self).output() == Seq::<char>::empty(),
            final(self).span() == old(self).span(),
            final(self).widths() == old(self).widths(),
            final(self).depth() == old(self).depth(),
            final(self).prefix() == old(self).prefix(),
            final(self).saved() == old(self).saved(),
            old(self).wf() ==> final(self).wf(),
    {
        let mut r: String = String::new();
        std::mem::swap(&mut r, &mut self.output);
        r
    }

    /// The line of a parent node (see [`parent_line_at`]).
    pub open spec fn parent_line(&self, name: Seq<char>, is_last: bool) -> Seq<char> {
        parent_line_at(self.depth(), self.prefix(), self.span(), self.widths(), name, is_last)
    }

    /// The line of a leaf (see [`leaf_line_at`]).
    pub open spec fn leaf_line(&self, name: Seq<char>, cells: Seq<Seq<char>>, is_last: bool) -> Seq<
        char,
    > {
        leaf_line_at(self.prefix(), self.span(), self.widths(), name, cells, is_last)
    }

    /// The continuation line under a leaf (see [`continuation_line_at`]).
    pub open spec fn continuation_line(&self, cells: Seq<Seq<char>>, is_last: bool) -> Seq<char> {
        continuation_line_at(self.prefix(), self.span(), self.widths(), cells, is_last)
    }

    /// Appends `buf` right-padded to the name span plus the column buffer.
    fn right_pad(buf: &mut String, max_name_span: usize)
        requires
            max_name_span <= usize::MAX - COL_BUF,
        ensures
            final(buf)@ == padded(old(buf)@, max_name_span as nat),
    {
        let len: usize = buf.as_str().unicode_len();
        let rest: usize = if max_name_span > len { max_name_span - len } else { 0 };
        let pad_len: usize = COL_BUF + rest;
        push_spaces(buf, pad_len);
        assert(buf@ =~= padded(old(buf)@, max_name_span as nat));
    }

    /// Appends the value cells with separators and padding.
    fn write_cells(buf: &mut String, vals: &Vec<String>, widths: &[usize; 6])
        requires
            vals.len() == COLUMN_COUNT,
        ensures
            final(buf)@ == old(buf)@ + columns_text(
                string_views(vals@),
                widths@,
                COLUMN_COUNT as nat,
            ),
    {
        let ghost start = buf@;
        let ghost views = string_views(vals@);
        let mut k: usize = 0;
        while k < COLUMN_COUNT
            invariant
                k <= COLUMN_COUNT,
                vals.len() == COLUMN_COUNT,
                views == string_views(vals@),
                buf@ == start + columns_text(views, widths@, k as nat),
            decreases COLUMN_COUNT - k,
        {
            let v: &str = vals[k].as_str();
            assert(views[k as int] == v@);
            let ghost before = buf@;
            let width: usize = v.unicode_len();
            if k > 0 {
                if k == COLUMN_COUNT - 1 && width == 0 {
                    push_char(buf, ' ');
                    push_char(buf, '\u{2502}');
                } else {
                    push_char(buf, ' ');
                    push_char(buf, '\u{2502}');
                    push_char(buf, ' ');
                }
            }
            push_str(buf, v);
            if k < COLUMN_COUNT - 1 {
                let w: usize = widths[k];
                let pad: usize = if w > width { w - width } else { 0 };
                push_spaces(buf, pad);
            }
            assert(buf@ =~= before + cell_text(views[k as int], widths@[k as int] as nat, k as nat));
            k = k + 1;
        }
    }

    /// Enters a parent node (module or group): writes its line and, below
    /// the top level, extends the prefix for its children.
    pub fn start_parent(&mut self, name: &str, is_last: bool)
        requires
            old(self).wf(),
        ensures
            final(self).wf(),
            final(self).output() == old(self).output() + old(self).parent_line(name@, is_last),
            final(self).depth() == old(self).depth() + 1,
            final(self).saved() == old(self).saved().push(old(self).prefix().len() as usize),
            final(self).prefix() == if old(self).depth() == 0 {
                old(self).prefix()
            } else {
                old(self).prefix() + indent_text(is_last)
            },
            final(self).span() == old(self).span(),
            final(self).widths() == old(self).widths(),
    {
        let top: bool = self.depth == 0;
        let mut buf: String = String::new();
        push_chars(&mut buf, &self.current_prefix, 0, self.current_prefix.len());
        if !top {
            push_branch(&mut buf, is_last);
        }
        push_str(&mut buf, name);
        Self::right_pad(&mut buf, self.max_name_span);
        let mut cells: Vec<String> = Vec::new();
        let mut k: usize = 0;
        while k < COLUMN_COUNT
            invariant
                k <= COLUMN_COUNT,
                cells.len() == k,
                forall|i: int|
                    0 <= i < k ==> #[trigger] cells@[i]@ == (if top {
                        column_label(column_at(i))
                    } else {
                        Seq::<char>::empty()
                    }),
            decreases COLUMN_COUNT - k,
        {
            if top {
                let mut s: String = String::new();
                push_str(&mut s, TableColumn::at(k).name());
                cells.push(s);
            } else {
                cells.push(String::new());
            }
            k = k + 1;
        }
        assert(string_views(cells@) =~= (if top { header_cells() } else { empty_cells() }));
        Self::write_cells(&mut buf, &cells, &self.column_widths);
        push_char(&mut buf, '\n');
        assert(buf@ =~= self.parent_line(name@, is_last));
        push_str(&mut self.output, buf.as_str());
        let len: usize = self.current_prefix.len();
        self.prefix_stack.push(len);
        self.depth = self.prefix_stack.len();
        if !top {
            push_indent(&mut self.current_prefix, is_last);
        }
        let _: usize = self.current_prefix.len();
    }

    /// Leaves the current parent node: restores the prefix saved when it
    /// was entered, and after a top-level parent writes a blank line.
    pub fn finish_parent(&mut self)
        requires
            old(self).wf(),
            old(self).depth() > 0,
        ensures
            final(self).wf(),
            final(self).depth() == old(self).depth() - 1,
            final(self).saved() == old(self).saved().drop_last(),
            final(self).prefix() == old(self).prefix().take(old(self).saved().last() as int),
            final(self).output() == if old(self).depth() == 1 {
                old(self).output().push('\n')
            } else {
                old(self).output()
            },
            final(self).span() == old(self).span(),
            final(self).widths() == old(self).widths(),
    {
        self.depth = self.depth - 1;
        if self.depth == 0 {
            push_char(&mut self.output, '\n');
        }
        let prev: usize = self.prefix_stack.pop().unwrap();
        self.current_prefix.truncate(prev);
        assert forall|i: int| 0 <= i < self.prefix_stack@.len() implies #[trigger] self.prefix_stack@[i]
            <= self.current_prefix@.len() by {
            assert(old(self).prefix_stack@[i] <= prev);
        }
    }

    /// Writes a benchmark leaf: its timing row and, when `throughput`
    /// holds six cells, a throughput row below it.
    pub fn write_leaf(
        &mut self,
        name: &str,
        stats: &PercentileStats,
        throughput: Option<&Vec<String>>,
        is_last: bool,
    )
        requires
            old(self).wf(),
            displayable(*stats),
            throughput matches Some(t) ==> t.len() == COLUMN_COUNT,
        ensures
            final(self).wf(),
            final(self).output() == old(self).output() + old(self).leaf_line(
                name@,
                timing_cells(*stats),
                is_last,
            ) + match throughput {
                Some(t) => old(self).continuation_line(string_views(t@), is_last),
                None => Seq::<char>::empty(),
            },
            final(self).depth() == old(self).depth(),
            final(self).prefix() == old(self).prefix(),
            final(self).saved() == old(self).saved(),
            final(self).span() == old(self).span(),
            final(self).widths() == old(self).widths(),
    {
        let mut cells: Vec<String> = Vec::new();
        let mut k: usize = 0;
        while k < COLUMN_COUNT
            invariant
                k <= COLUMN_COUNT,
                cells.len() == k,
                displayable(*stats),
                forall|i: int|
                    0 <= i < k ==> #[trigger] cells@[i]@ == display_text(
                        column_stat(column_at(i), *stats).picos as nat,
                    ),
            decreases COLUMN_COUNT - k,
        {
            let d: FineDuration = TableColumn::at(k).get_stat(stats);
            assert(column_stat(column_at(k as int), *stats).picos * DISPLAY_MULTIPLE <= u128::MAX);
            cells.push(d.to_string());
            k = k + 1;
        }
        assert(string_views(cells@) =~= timing_cells(*stats));
        self.write_row(name, &cells, is_last);
        match throughput {
            Some(t) => self.write_throughput_row(t, is_last),
            None => {},
        }
    }

    /// Writes a leaf line with the given cells.
    fn write_row(&mut self, name: &str, cells: &Vec<String>, is_last: bool)
        requires
            old(self).wf(),
            cells.len() == COLUMN_COUNT,
        ensures
            final(self).wf(),
            final(self).output() == old(self).output() + old(self).leaf_line(
                name@,
                string_views(cells@),
                is_last,
            ),
            final(self).depth() == old(self).depth(),
            final(self).prefix() == old(self).prefix(),
            final(self).saved() == old(self).saved(),
            final(self).span() == old(self).span(),
            final(self).widths() == old(self).widths(),
    {
        let mut buf: String = String::new();
        push_chars(&mut buf, &self.current_prefix, 0, self.current_prefix.len());
        push_branch(&mut buf, is_last);
        push_str(&mut buf, name);
        Self::right_pad(&mut buf, self.max_name_span);
        Self::write_cells(&mut buf, cells, &self.column_widths);
        push_char(&mut buf, '\n');
        assert(buf@ =~= self.leaf_line(name@, string_views(cells@), is_last));
        push_str(&mut self.output, buf.as_str());
    }

    /// Writes the throughput row below a leaf.
    pub fn write_throughput_row(&mut self, cells: &Vec<String>, is_last: bool)
        requires
            old(self).wf(),
            cells.len() == COLUMN_COUNT,
        ensures
            final(self).wf(),
            final(self).output() == old(self).output() + old(self).continuation_line(
                string_views(cells@),
                is_last,
            ),
            final(self).depth() == old(self).depth(),
            final(self).prefix() == old(self).prefix(),
            final(self).saved() == old(self).saved(),
            final(self).span() == old(self).span(),
            final(self).widths() == old(self).widths(),
    {
        let mut buf: String = String::new();
        push_chars(&mut buf, &self.current_prefix, 0, self.current_prefix.len());
        if !is_last {
            push_char(&mut buf, '\u{2502}');
        }
        Self::right_pad(&mut buf, self.max_name_span);
        Self::write_cells(&mut buf, cells, &self.column_widths);
        push_char(&mut buf, '\n');
        assert(buf@ =~= self.continuation_line(string_views(cells@), is_last));
        push_str(&mut self.output, buf.as_str());
    }

    /// Writes an ignored benchmark leaf with the `(ignored)` placeholder.
    pub fn write_ignored_leaf(&mut self, name: &str, is_last: bool)
        requires
            old(self).wf(),
        ensures
            final(self).wf(),
            final(self).output() == old(self).output() + old(self).leaf_line(
                name@,
                ignored_cells(),
                is_last,
            ),
            final(self).depth() == old(self).depth(),
            final(self).prefix() == old(self).prefix(),
            final(self).saved() == old(self).saved(),
            final(self).span() == old(self).span(),
            final(self).widths() == old(self).widths(),
    {
        let mut cells: Vec<String> = Vec::new();
        let mut first: String = String::new();
        push_str(&mut first, "(ignored)");
        cells.push(first);
        let mut k: usize = 1;
        while k < COLUMN_COUNT
            invariant
                1 <= k <= COLUMN_COUNT,
                cells.len() == k,
                cells@[0]@ == "(ignored)"@,
                forall|i: int| 1 <= i < k ==> #[trigger] cells@[i]@ == Seq::<char>::empty(),
            decreases COLUMN_COUNT - k,
        {
            cells.push(String::new());
            k = k + 1;
        }
        assert(string_views(cells@) =~= ignored_cells());
        self.write_row(name, &cells, is_last);
    }
}

/// A well-formed painter's prefix length fits in `usize`.
pub proof fn lemma_prefix_fits(p: TablePainter)
    requires
        p.wf(),
    ensures
        p.prefix().len() <= usize::MAX,
{
}

/// Entering a parent and leaving it again restores the depth, the tree
/// prefix and the saved prefix lengths.
pub proof fn lemma_start_finish_restores(
    before: TablePainter,
    inside: TablePainter,
    after: TablePainter,
    is_last: bool,
)
    requires
        before.wf(),
        inside.depth() == before.depth() + 1,
        inside.saved() == before.saved().push(before.prefix().len() as usize),
        inside.prefix() == if before.depth() == 0 {
            before.prefix()
        } else {
            before.prefix() + indent_text(is_last)
        },
        after.depth() == inside.depth() - 1,
        after.saved() == inside.saved().drop_last(),
        after.prefix() == inside.prefix().take(inside.saved().last() as int),
    ensures
        after.depth() == before.depth(),
        after.prefix() == before.prefix(),
        after.saved() == before.saved(),
{
    assert(after.saved() =~= before.saved());
    assert(after.prefix() =~= before.prefix());
}

/// Appends `n` spaces.
fn push_spaces(buf: &mut String, n: usize)
    ensures
        final(buf)@ == old(buf)@ + spaces(n as nat),
{
    let ghost start = buf@;
    let mut k: usize = 0;
    while k < n
        invariant
            k <= n,
            buf@ == start + spaces(k as nat),
        decreases n - k,
    {
        push_char(buf, ' ');
        k = k + 1;
        assert(buf@ =~= start + spaces(k as nat));
    }
}

/// Appends the branch glyph of a node.
fn push_branch(buf: &mut String, is_last: bool)
    ensures
        final(buf)@ == old(buf)@ + branch_text(is_last),
{
    let ghost start = buf@;
    if is_last {
        push_char(buf, '\u{2570}');
    } else {
        push_char(buf, '\u{251c}');
    }
    push_char(buf, '\u{2500}');
    push_char(buf, ' ');
    assert(buf@ =~= start + branch_text(is_last));
}

/// Appends the indentation segment a parent adds for its children.
fn push_indent(prefix: &mut Vec<char>, is_last: bool)
    ensures
        final(prefix)@ == old(prefix)@ + indent_text(is_last),
{
    let ghost start = prefix@;
    if is_last {
        prefix.push(' ');
    } else {
        prefix.push('\u{2502}');
    }
    prefix.push(' ');
    prefix.push(' ');
    assert(prefix@ =~= start + indent_text(is_last));
}

} // verus!
