use vstd::prelude::*;
use vstd::string::{StrSliceExecFns, StringExecFns};

use crate::chars::chars_of;
use crate::error::OperationalError;
use crate::format::{decimal, format_count, push_char, push_decimal, with_commas};
use crate::summary::{Hotspot, Summary};
use crate::report::{
    context_name, distribution_name, push_right_aligned, right_aligned, scope_name, source_numbers_fit, split_source_lines, text_lines,
    unit, Finding, Location, Report,
};

verus! {

/// How a piece of terminal text is marked: the escape text before and
/// after it, both empty for plain output.
#[derive(Debug, Clone, PartialEq, Eq)]
pub struct Style {
    pub open: String,
    pub close: String,
}

/// The texts of a style.
#[verifier::ext_equal]
pub struct StyleView {
    pub open: Seq<char>,
    pub close: Seq<char>,
}

impl View for Style {
    type V = StyleView;

    open spec fn view(&self) -> StyleView {
        StyleView { open: self.open@, close: self.close@ }
    }
}

/// The style that marks nothing.
pub open spec fn unmarked() -> StyleView {
    StyleView { open: seq![], close: seq![] }
}

impl Style {
    /// No marking.
    pub fn plain() -> (style: Self)
        ensures
            style@ == unmarked(),
    {
        let style = Style { open: String::new(), close: String::new() };
        proof {
            assert(style@ =~~= unmarked());
        }
        style
    }

    /// A second style with the same texts.
    pub fn copied(&self) -> (style: Self)
        ensures
            style@ == self@,
    {
        Style { open: self.open.clone(), close: self.close.clone() }
    }
}

/// `text` marked by `style`.
pub open spec fn styled(style: StyleView, text: Seq<char>) -> Seq<char> {
    style.open + text + style.close
}

/// Appends `text` marked by `style`.
pub fn push_styled(out: &mut String, style: &Style, text: &str)
    ensures
        final(out)@ == old(out)@ + styled(style@, text@),
{
    let ghost start = out@;
    out.append(style.open.as_str());
    out.append(text);
    out.append(style.close.as_str());
    proof {
        assert(out@ =~= start + styled(style@, text@));
    }
}

/// A table cell: its text and how it is marked.
#[derive(Debug, Clone, PartialEq, Eq)]
pub struct Cell {
    pub text: String,
    pub style: Style,
}

/// The text and style of a cell.
#[verifier::ext_equal]
pub struct CellView {
    pub text: Seq<char>,
    pub style: StyleView,
}

impl View for Cell {
    type V = CellView;

    open spec fn view(&self) -> CellView {
        CellView { text: self.text@, style: self.style@ }
    }
}

impl Cell {
    /// A cell showing `text` marked by `style`.
    pub fn styled(text: String, style: &Style) -> (cell: Self)
        ensures
            cell@ == (CellView { text: text@, style: style@ }),
    {
        Cell { text, style: style.copied() }
    }
}

/// A table row, with a rule above it when `separator_before`.
#[derive(Debug, Clone, PartialEq, Eq)]
pub struct Row {
    pub cells: Vec<Cell>,
    pub separator_before: bool,
}

/// The cells of a row and whether a rule precedes it.
#[verifier::ext_equal]
pub struct RowView {
    pub cells: Seq<CellView>,
    pub separator_before: bool,
}

/// The views of `cells`.
pub open spec fn cell_views(cells: Seq<Cell>) -> Seq<CellView> {
    cells.map_values(|c: Cell| c@)
}

impl View for Row {
    type V = RowView;

    open spec fn view(&self) -> RowView {
        RowView { cells: cell_views(self.cells@), separator_before: self.separator_before }
    }
}

/// The views of `rows`.
pub open spec fn row_views(rows: Seq<Row>) -> Seq<RowView> {
    rows.map_values(|r: Row| r@)
}

/// A table column: its heading and whether its cells align right.
#[derive(Debug, Clone, PartialEq, Eq)]
pub struct Column {
    pub heading: String,
    pub right: bool,
}

/// The heading of a column and whether it aligns right.
#[verifier::ext_equal]
pub struct ColumnView {
    pub heading: Seq<char>,
    pub right: bool,
}

impl View for Column {
    type V = ColumnView;

    open spec fn view(&self) -> ColumnView {
        ColumnView { heading: self.heading@, right: self.right }
    }
}

/// The views of `columns`.
pub open spec fn column_views(columns: Seq<Column>) -> Seq<ColumnView> {
    columns.map_values(|c: Column| c@)
}

// ----------------------------------------------------------------------
// Column widths.
/// Width of column `c`: its widest text among the heading and the cells.
pub open spec fn column_width(columns: Seq<ColumnView>, rows: Seq<RowView>, c: int) -> nat
    decreases rows.len(),
{
    if rows.len() == 0 {
        columns[c].heading.len()
    } else {
        let w = column_width(columns, rows.drop_last(), c);
        let t = rows.last().cells[c].text.len();
        if t > w {
            t
        } else {
            w
        }
    }
}

/// Every row has one cell per column.
pub open spec fn rows_fit(columns: Seq<ColumnView>, rows: Seq<RowView>) -> bool {
    forall|r: int| 0 <= r < rows.len() ==> (#[trigger] rows[r]).cells.len() == columns.len()
}

/// Widths of all columns.
fn column_widths(columns: &Vec<Column>, rows: &Vec<Row>) -> (widths: Vec<usize>)
    requires
        rows_fit(column_views(columns@), row_views(rows@)),
    ensures
        widths@.len() == columns@.len(),
        forall|c: int|
            0 <= c < widths@.len() ==> #[trigger] widths@[c] == column_width(
                column_views(columns@),
                row_views(rows@),
                c,
            ),
{
    let ghost cv = column_views(columns@);
    let ghost rv = row_views(rows@);
    let mut widths: Vec<usize> = Vec::new();
    let mut c: usize = 0;
    while c < columns.len()
        invariant
            cv == column_views(columns@),
            rv == row_views(rows@),
            c <= columns@.len(),
            rows_fit(cv, rv),
            widths@.len() == c,
            forall|k: int| 0 <= k < c ==> #[trigger] widths@[k] == column_width(cv, rv, k),
        decreases columns@.len() - c,
    {
        let mut width = columns[c].heading.as_str().unicode_len();
        let mut r: usize = 0;
        while r < rows.len()
            invariant
                cv == column_views(columns@),
                rv == row_views(rows@),
                c < columns@.len(),
                rows_fit(cv, rv),
                r <= rows@.len(),
                width == column_width(cv, rv.take(r as int), c as int),
            decreases rows@.len() - r,
        {
            proof {
                assert(rv.take(r + 1).drop_last() =~= rv.take(r as int));
                assert(rv.take(r + 1).last() == rv[r as int]);
                assert(rv[r as int].cells.len() == columns@.len());
                assert(rv[r as int].cells[c as int] == rows@[r as int].cells@[c as int]@);
            }
            let t = rows[r].cells[c].text.as_str().unicode_len();
            if t > width {
                width = t;
            }
            r = r + 1;
        }
        proof {
            assert(rv.take(r as int) =~= rv);
        }
        widths.push(width);
        c = c + 1;
    }
    widths
}

// ----------------------------------------------------------------------
// Drawing.
/// `n` copies of `c`.
pub open spec fn repeated_char(c: char, n: nat) -> Seq<char> {
    Seq::new(n, |i: int| c)
}

fn push_repeated(out: &mut String, c: char, n: usize)
    ensures
        final(out)@ == old(out)@ + repeated_char(c, n as nat),
{
    let ghost start = out@;
    let mut k: usize = 0;
    while k < n
        invariant
            k <= n,
            out@ == start + repeated_char(c, k as nat),
        decreases n - k,
    {
        push_char(out, c);
        proof {
            assert(repeated_char(c, (k + 1) as nat) =~= repeated_char(c, k as nat).push(c));
        }
        k = k + 1;
    }
}

/// The segments of a rule for the first `n` of `widths`.
pub open spec fn rule_segments(widths: Seq<usize>, middle: char, right: char, n: int) -> Seq<char>
    decreases n,
{
    if n <= 0 {
        seq![]
    } else {
        rule_segments(widths, middle, right, n - 1) + repeated_char('\u{2500}', (widths[n - 1] + 2) as nat) + seq![
            if n == widths.len() {
                right
            } else {
                middle
            },
        ]
    }
}

/// A horizontal rule of a table.
pub open spec fn rule(widths: Seq<usize>, left: char, middle: char, right: char) -> Seq<char> {
    seq![left] + rule_segments(widths, middle, right, widths.len() as int) + seq!['\n']
}

fn push_rule(out: &mut String, left: char, middle: char, right: char, widths: &Vec<usize>)
    ensures
        final(out)@ == old(out)@ + rule(widths@, left, middle, right),
{
    let ghost start = out@;
    push_char(out, left);
    let ghost head = out@;
    let mut k: usize = 0;
    while k < widths.len()
        invariant
            k <= widths@.len(),
            out@ == head + rule_segments(widths@, middle, right, k as int),
        decreases widths@.len() - k,
    {
        let ghost before = out@;
        push_repeated(out, '\u{2500}', widths[k]);
        push_char(out, '\u{2500}');
        push_char(out, '\u{2500}');
        proof {
            assert(out@ =~= before + repeated_char('\u{2500}', (widths@[k as int] + 2) as nat));
        }
        if k + 1 == widths.len() {
            push_char(out, right);
        } else {
            push_char(out, middle);
        }
        k = k + 1;
    }
    push_char(out, '\n');
    proof {
        assert(out@ =~= start + rule(widths@, left, middle, right));
    }
}

/// One cell drawn in a column of `width`: padded on the side away from
/// its alignment, with a space on each side and a bar after.
pub open spec fn cell_text(column: ColumnView, width: usize, cell: CellView) -> Seq<char> {
    let pad = if width >= cell.text.len() {
        (width - cell.text.len()) as nat
    } else {
        0nat
    };
    seq![' '] + (if column.right {
        repeated_char(' ', pad)
    } else {
        seq![]
    }) + styled(cell.style, cell.text) + (if column.right {
        seq![]
    } else {
        repeated_char(' ', pad)
    }) + seq![' ', '\u{2502}']
}

/// The first `n` cells of a row.
pub open spec fn row_cells(columns: Seq<ColumnView>, widths: Seq<usize>, cells: Seq<CellView>, n: int) -> Seq<char>
    decreases n,
{
    if n <= 0 {
        seq![]
    } else {
        row_cells(columns, widths, cells, n - 1) + cell_text(columns[n - 1], widths[n - 1], cells[n - 1])
    }
}

/// A row of a table.
pub open spec fn row_line(columns: Seq<ColumnView>, widths: Seq<usize>, cells: Seq<CellView>) -> Seq<char> {
    seq!['\u{2502}'] + row_cells(columns, widths, cells, columns.len() as int) + seq!['\n']
}

fn push_cell(out: &mut String, column: &Column, width: usize, cell: &Cell)
    ensures
        final(out)@ == old(out)@ + cell_text(column@, width, cell@),
{
    let ghost start = out@;
    let len = cell.text.as_str().unicode_len();
    let pad = if width >= len {
        width - len
    } else {
        0
    };
    push_char(out, ' ');
    if column.right {
        push_repeated(out, ' ', pad);
    }
    push_styled(out, &cell.style, cell.text.as_str());
    if !column.right {
        push_repeated(out, ' ', pad);
    }
    push_char(out, ' ');
    push_char(out, '\u{2502}');
    proof {
        assert(out@ =~= start + cell_text(column@, width, cell@));
    }
}

fn push_row(out: &mut String, columns: &Vec<Column>, widths: &Vec<usize>, cells: &Vec<Cell>)
    requires
        widths@.len() == columns@.len(),
        cells@.len() == columns@.len(),
    ensures
        final(out)@ == old(out)@ + row_line(column_views(columns@), widths@, cell_views(cells@)),
{
    let ghost start = out@;
    let ghost cv = column_views(columns@);
    let ghost ce = cell_views(cells@);
    push_char(out, '\u{2502}');
    let ghost head = out@;
    let mut k: usize = 0;
    while k < columns.len()
        invariant
            cv == column_views(columns@),
            ce == cell_views(cells@),
            k <= columns@.len(),
            widths@.len() == columns@.len(),
            cells@.len() == columns@.len(),
            out@ == head + row_cells(cv, widths@, ce, k as int),
        decreases columns@.len() - k,
    {
        push_cell(out, &columns[k], widths[k], &cells[k]);
        proof {
            assert(cv[k as int] == columns@[k as int]@);
            assert(ce[k as int] == cells@[k as int]@);
        }
        k = k + 1;
    }
    push_char(out, '\n');
    proof {
        assert(out@ =~= start + row_line(cv, widths@, ce));
    }
}

/// The body rows of a table from the first `n`, each after a rule when
/// it asks for one.
pub open spec fn body_lines(columns: Seq<ColumnView>, widths: Seq<usize>, rows: Seq<RowView>, n: int) -> Seq<char>
    decreases n,
{
    if n <= 0 {
        seq![]
    } else {
        body_lines(columns, widths, rows, n - 1) + (if rows[n - 1].separator_before {
            rule(widths, '\u{251c}', '\u{253c}', '\u{2524}')
        } else {
            seq![]
        }) + row_line(columns, widths, rows[n - 1].cells)
    }
}

/// The heading cells of `columns`, marked by `style`.
pub open spec fn heading_cells(columns: Seq<ColumnView>, style: StyleView) -> Seq<CellView> {
    Seq::new(columns.len(), |c: int| CellView { text: columns[c].heading, style })
}

/// The widths of the columns of a table.
pub open spec fn table_widths(columns: Seq<ColumnView>, rows: Seq<RowView>) -> Seq<usize> {
    Seq::new(columns.len(), |c: int| column_width(columns, rows, c) as usize)
}

/// A table: top rule, the heading row and a rule when headings show, the
/// rows, and the bottom rule.
pub open spec fn table_text(
    columns: Seq<ColumnView>,
    rows: Seq<RowView>,
    heading_style: StyleView,
    show_heading: bool,
) -> Seq<char> {
    let widths = table_widths(columns, rows);
    rule(widths, '\u{250c}', '\u{252c}', '\u{2510}') + (if show_heading {
        row_line(columns, widths, heading_cells(columns, heading_style)) + rule(
            widths,
            '\u{251c}',
            '\u{253c}',
            '\u{2524}',
        )
    } else {
        seq![]
    }) + body_lines(columns, widths, rows, rows.len() as int) + rule(widths, '\u{2514}', '\u{2534}', '\u{2518}')
}

/// Draws a table with box-drawing rules.
pub fn render_table(out: &mut String, columns: &Vec<Column>, rows: &Vec<Row>, heading_style: &Style, show_heading: bool)
    requires
        rows_fit(column_views(columns@), row_views(rows@)),
    ensures
        final(out)@ == old(out)@ + table_text(
            column_views(columns@),
            row_views(rows@),
            heading_style@,
            show_heading,
        ),
{
    let ghost start = out@;
    let ghost cv = column_views(columns@);
    let ghost rv = row_views(rows@);
    let widths = column_widths(columns, rows);
    proof {
        assert(widths@ =~= table_widths(cv, rv));
    }
    push_rule(out, '\u{250c}', '\u{252c}', '\u{2510}', &widths);
    if show_heading {
        let mut cells: Vec<Cell> = Vec::new();
        let mut c: usize = 0;
        while c < columns.len()
            invariant
                cv == column_views(columns@),
                c <= columns@.len(),
                cells@.len() == c,
                forall|k: int| 0 <= k < c ==> #[trigger] cells@[k]@ == heading_cells(cv, heading_style@)[k],
            decreases columns@.len() - c,
        {
            cells.push(Cell::styled(columns[c].heading.clone(), heading_style));
            proof {
                assert(cv[c as int] == columns@[c as int]@);
            }
            c = c + 1;
        }
        proof {
            assert(cell_views(cells@) =~~= heading_cells(cv, heading_style@));
        }
        push_row(out, columns, &widths, &cells);
        push_rule(out, '\u{251c}', '\u{253c}', '\u{2524}', &widths);
    }
    let ghost headed = out@;
    let mut r: usize = 0;
    while r < rows.len()
        invariant
            cv == column_views(columns@),
            rv == row_views(rows@),
            r <= rows@.len(),
            rows_fit(cv, rv),
            widths@.len() == columns@.len(),
            out@ == headed + body_lines(cv, widths@, rv, r as int),
        decreases rows@.len() - r,
    {
        proof {
            assert(rv[r as int] == rows@[r as int]@);
            assert(rv[r as int].cells.len() == columns@.len());
        }
        if rows[r].separator_before {
            push_rule(out, '\u{251c}', '\u{253c}', '\u{2524}', &widths);
        }
        push_row(out, columns, &widths, &rows[r].cells);
        r = r + 1;
    }
    push_rule(out, '\u{2514}', '\u{2534}', '\u{2518}', &widths);
    proof {
        assert(out@ =~= start + table_text(cv, rv, heading_style@, show_heading));
    }
}

// ----------------------------------------------------------------------
// Findings.
/// The styles of the parts of the text output; all unmarked for plain
/// output.
#[derive(Debug, Clone, PartialEq, Eq)]
pub struct TextStyles {
    pub diagnostic: Style,
    pub problem: Style,
    pub success: Style,
    pub heading: Style,
    pub classification: Style,
    pub distribution: Style,
    pub group: Style,
    pub path: Style,
    pub location: Style,
    pub source_gutter: Style,
}

impl TextStyles {
    /// Styles that mark nothing.
    pub fn plain() -> (styles: Self)
        ensures
            styles.diagnostic@ == unmarked(),
            styles.problem@ == unmarked(),
            styles.success@ == unmarked(),
            styles.heading@ == unmarked(),
            styles.classification@ == unmarked(),
            styles.distribution@ == unmarked(),
            styles.group@ == unmarked(),
            styles.path@ == unmarked(),
            styles.location@ == unmarked(),
            styles.source_gutter@ == unmarked(),
    {
        TextStyles {
            diagnostic: Style::plain(),
            problem: Style::plain(),
            success: Style::plain(),
            heading: Style::plain(),
            classification: Style::plain(),
            distribution: Style::plain(),
            group: Style::plain(),
            path: Style::plain(),
            location: Style::plain(),
            source_gutter: Style::plain(),
        }
    }
}

/// The first line of a finding: its code, then its length and unit.
pub open spec fn finding_title_text(f: Finding, st: TextStyles) -> Seq<char> {
    styled(st.diagnostic@, f.code@) + " "@ + styled(
        st.problem@,
        decimal(f.lines as nat) + " duplicated "@ + unit(f.lines as int, "line"@, "lines"@),
    ) + "\n"@
}

/// The context and scope lines of a finding.
pub open spec fn finding_kind_text(f: Finding, st: TextStyles) -> Seq<char> {
    styled(st.heading@, "Context:"@) + " "@ + styled(st.classification@, context_name(f.context)) + "\n"@
        + styled(st.heading@, "Scope:"@) + " "@ + styled(st.classification@, scope_name(f.scope)) + "\n"@
}

/// The occurrence line of a finding and the blank line after it.
pub open spec fn finding_spread_text(f: Finding, st: TextStyles) -> Seq<char> {
    styled(st.heading@, "Occurrences:"@) + " "@ + styled(st.heading@, decimal(f.occurrences as nat)) + " across "@
        + styled(st.heading@, decimal(f.files as nat)) + " "@ + unit(f.files as int, "file"@, "files"@) + " "@
        + styled(st.distribution@, "("@ + distribution_name(f.distribution) + ")"@) + "\n\n"@
}

/// Numbered source lines `lines[..n]`, the first numbered `first`, each
/// behind a marked gutter.
pub open spec fn gutter_lines(lines: Seq<Seq<char>>, first: int, n: int, gutter: StyleView) -> Seq<char>
    decreases n,
{
    if n <= 0 {
        seq![]
    } else {
        gutter_lines(lines, first, n - 1, gutter) + styled(
            gutter,
            "    "@ + right_aligned(decimal((first + n - 1) as nat)) + " | "@,
        ) + lines[n - 1] + "\n"@
    }
}

/// The lines showing one location.
pub open spec fn location_block(l: Location, st: TextStyles) -> Seq<char> {
    "  "@ + styled(st.path@, l.path@) + styled(
        st.location@,
        ":"@ + decimal(l.start_line as nat) + "-"@ + decimal(l.end_line as nat),
    ) + "\n"@ + match l.source {
        Some(text) => gutter_lines(
            text_lines(text@),
            l.start_line as int,
            text_lines(text@).len() as int,
            st.source_gutter@,
        ),
        None => seq![],
    }
}

/// The lines showing the first `n` locations.
pub open spec fn location_blocks(locations: Seq<Location>, n: int, st: TextStyles) -> Seq<char>
    decreases n,
{
    if n <= 0 {
        seq![]
    } else {
        location_blocks(locations, n - 1, st) + location_block(locations[n - 1], st)
    }
}

/// The block showing one finding.
pub open spec fn finding_block(f: Finding, st: TextStyles) -> Seq<char> {
    finding_title_text(f, st) + finding_kind_text(f, st) + finding_spread_text(f, st) + location_blocks(
        f.locations@,
        f.locations@.len() as int,
        st,
    ) + "\n"@
}

/// The blocks of the first `n` findings.
pub open spec fn finding_blocks(findings: Seq<Finding>, n: int, st: TextStyles) -> Seq<char>
    decreases n,
{
    if n <= 0 {
        seq![]
    } else {
        finding_blocks(findings, n - 1, st) + finding_block(findings[n - 1], st)
    }
}

fn push_finding_title_text(out: &mut String, f: &Finding, st: &TextStyles)
    ensures
        final(out)@ == old(out)@ + finding_title_text(*f, *st),
{
    let ghost start = out@;
    push_styled(out, &st.diagnostic, f.code.as_str());
    out.append(" ");
    let ghost mid = out@;
    out.append(st.problem.open.as_str());
    let ghost opened = out@;
    push_decimal(out, f.lines as u64);
    out.append(" duplicated ");
    if f.lines == 1 {
        out.append("line");
    } else {
        out.append("lines");
    }
    let ghost body = out@;
    out.append(st.problem.close.as_str());
    out.append("\n");
    proof {
        assert(body =~= opened + decimal(f.lines as nat) + " duplicated "@ + unit(f.lines as int, "line"@, "lines"@));
        assert(out@ =~= start + finding_title_text(*f, *st));
    }
}

fn push_finding_kind_text(out: &mut String, f: &Finding, st: &TextStyles)
    ensures
        final(out)@ == old(out)@ + finding_kind_text(*f, *st),
{
    let ghost start = out@;
    push_styled(out, &st.heading, "Context:");
    out.append(" ");
    push_styled(out, &st.classification, f.context.as_str());
    out.append("\n");
    push_styled(out, &st.heading, "Scope:");
    out.append(" ");
    push_styled(out, &st.classification, f.scope.as_str());
    out.append("\n");
    proof {
        assert(out@ =~= start + finding_kind_text(*f, *st));
    }
}

/// Appends `n` in decimal marked by `style`.
fn push_styled_decimal(out: &mut String, style: &Style, n: u64)
    ensures
        final(out)@ == old(out)@ + styled(style@, decimal(n as nat)),
{
    let ghost start = out@;
    out.append(style.open.as_str());
    push_decimal(out, n);
    out.append(style.close.as_str());
    proof {
        assert(out@ =~= start + styled(style@, decimal(n as nat)));
    }
}

fn push_finding_spread_text(out: &mut String, f: &Finding, st: &TextStyles)
    ensures
        final(out)@ == old(out)@ + finding_spread_text(*f, *st),
{
    let ghost start = out@;
    push_styled(out, &st.heading, "Occurrences:");
    out.append(" ");
    push_styled_decimal(out, &st.heading, f.occurrences as u64);
    out.append(" across ");
    push_styled_decimal(out, &st.heading, f.files as u64);
    out.append(" ");
    if f.files == 1 {
        out.append("file");
    } else {
        out.append("files");
    }
    out.append(" ");
    let ghost before_distribution = out@;
    out.append(st.distribution.open.as_str());
    out.append("(");
    out.append(f.distribution.as_str());
    out.append(")");
    out.append(st.distribution.close.as_str());
    out.append("\n\n");
    proof {
        assert(out@ =~= start + finding_spread_text(*f, *st));
    }
}

fn push_location_block(out: &mut String, l: &Location, st: &TextStyles)
    requires
        match l.source {
            Some(text) => l.start_line + text_lines(text@).len() <= u64::MAX,
            None => true,
        },
    ensures
        final(out)@ == old(out)@ + location_block(*l, *st),
{
    let ghost start = out@;
    out.append("  ");
    push_styled(out, &st.path, l.path.as_str());
    out.append(st.location.open.as_str());
    out.append(":");
    push_decimal(out, l.start_line);
    out.append("-");
    push_decimal(out, l.end_line);
    out.append(st.location.close.as_str());
    out.append("\n");
    let ghost head = out@;
    proof {
        assert(head =~= start + "  "@ + styled(st.path@, l.path@) + styled(
            st.location@,
            ":"@ + decimal(l.start_line as nat) + "-"@ + decimal(l.end_line as nat),
        ) + "\n"@);
    }
    match &l.source {
        Some(text) => {
            let chars = chars_of(text.as_str());
            let lines = split_source_lines(&chars);
            let ghost all = text_lines(text@);
            let mut k: usize = 0;
            while k < lines.len()
                invariant
                    lines@.len() == all.len(),
                    forall|i: int| 0 <= i < lines@.len() ==> (#[trigger] lines@[i])@ == all[i],
                    l.start_line + all.len() <= u64::MAX,
                    k <= lines@.len(),
                    out@ == head + gutter_lines(all, l.start_line as int, k as int, st.source_gutter@),
                decreases lines@.len() - k,
            {
                let ghost before = out@;
                out.append(st.source_gutter.open.as_str());
                out.append("    ");
                push_right_aligned(out, l.start_line + k as u64);
                out.append(" | ");
                out.append(st.source_gutter.close.as_str());
                let ghost gutter = out@;
                proof {
                    assert(gutter =~= before + styled(
                        st.source_gutter@,
                        "    "@ + right_aligned(decimal((l.start_line + k) as nat)) + " | "@,
                    ));
                }
                let line = &lines[k];
                let mut i: usize = 0;
                while i < line.len()
                    invariant
                        i <= line@.len(),
                        out@ == gutter + line@.take(i as int),
                    decreases line@.len() - i,
                {
                    push_char(out, line[i]);
                    proof {
                        assert(line@.take(i + 1) =~= line@.take(i as int).push(line@[i as int]));
                    }
                    i = i + 1;
                }
                out.append("\n");
                proof {
                    assert(line@.take(i as int) =~= line@);
                }
                k = k + 1;
            }
        },
        None => {},
    }
}


fn push_finding_block(out: &mut String, f: &Finding, st: &TextStyles)
    requires
        forall|l: int| 0 <= l < f.locations@.len() ==> match (#[trigger] f.locations@[l]).source {
            Some(text) => f.locations@[l].start_line + text_lines(text@).len() <= u64::MAX,
            None => true,
        },
    ensures
        final(out)@ == old(out)@ + finding_block(*f, *st),
{
    let ghost start = out@;
    push_finding_title_text(out, f, st);
    push_finding_kind_text(out, f, st);
    push_finding_spread_text(out, f, st);
    let ghost head = out@;
    let mut k: usize = 0;
    while k < f.locations.len()
        invariant
            forall|l: int| 0 <= l < f.locations@.len() ==> match (#[trigger] f.locations@[l]).source {
                Some(text) => f.locations@[l].start_line + text_lines(text@).len() <= u64::MAX,
                None => true,
            },
            k <= f.locations@.len(),
            out@ == head + location_blocks(f.locations@, k as int, *st),
        decreases f.locations@.len() - k,
    {
        push_location_block(out, &f.locations[k], st);
        k = k + 1;
    }
    out.append("\n");
    proof {
        assert(out@ =~= start + finding_block(*f, *st));
    }
}

/// Appends the blocks of all findings.
fn push_finding_blocks(out: &mut String, report: &Report, st: &TextStyles)
    requires
        source_numbers_fit(*report),
    ensures
        final(out)@ == old(out)@ + finding_blocks(report.findings@, report.findings@.len() as int, *st),
{
    let findings = &report.findings;
    let ghost start = out@;
    let mut k: usize = 0;
    while k < findings.len()
        invariant
            source_numbers_fit(*report),
            findings == &report.findings,
            k <= findings@.len(),
            out@ == start + finding_blocks(findings@, k as int, *st),
        decreases findings@.len() - k,
    {
        proof {
            assert forall|l: int| 0 <= l < findings@[k as int].locations@.len() implies match (
            #[trigger] findings@[k as int].locations@[l]).source {
                Some(text) => findings@[k as int].locations@[l].start_line + text_lines(text@).len() <= u64::MAX,
                None => true,
            } by {
                let f = k as int;
                assert(findings@[f].locations@[l] == findings@[f].locations@[l]);
            }
        }
        push_finding_block(out, &findings[k], st);
        k = k + 1;
    }
}

// ----------------------------------------------------------------------
// Summary.
/// Percentages shown in the summary, each with two decimals and without
/// the percent sign.
#[derive(Debug, Clone, PartialEq, Eq)]
pub struct SummaryPercents {
    /// Files with duplicates among the files analyzed.
    pub files_with_duplicates: String,
    /// Duplicate lines among the analyzed lines.
    pub duplication: String,
    /// Each breakdown bucket among all duplicate groups.
    pub executable: String,
    pub declarative: String,
    pub mixed_context: String,
    pub function: String,
    pub module: String,
    pub class: String,
    pub mixed_scope: String,
    pub cross_file: String,
    pub same_file: String,
    pub mixed_distribution: String,
}

/// A count as it is shown, with thousands separators.
pub open spec fn count_text(n: u64) -> Seq<char> {
    with_commas(decimal(n as nat))
}

/// A cell of `text` marked by `style`.
pub open spec fn cell_of(text: Seq<char>, style: StyleView) -> CellView {
    CellView { text, style }
}

/// A row of `cells`.
pub open spec fn row_of(cells: Seq<CellView>, separator_before: bool) -> RowView {
    RowView { cells, separator_before }
}

/// The line that opens the summary: the incomplete scan, or the absence
/// of duplicates, or nothing.
pub open spec fn status_text(s: Summary, st: TextStyles, complete: bool, error_count: nat) -> Seq<char> {
    if !complete {
        styled(
            st.problem@,
            "Scan incomplete: "@ + decimal(error_count) + " source processing "@ + unit(
                error_count as int,
                "error"@,
                "errors"@,
            ) + "."@,
        ) + "\n\n"@
    } else if s.duplicate_groups == 0 {
        styled(st.success@, "No duplicate code found."@) + "\n\n"@
    } else {
        seq![]
    }
}

/// Style of the duplicate counts: success when there are none.
pub open spec fn duplicate_style(s: Summary, st: TextStyles) -> StyleView {
    if s.duplicate_groups == 0 {
        st.success@
    } else {
        st.problem@
    }
}

/// Style of the group counts: success when there are none.
pub open spec fn group_style(s: Summary, st: TextStyles) -> StyleView {
    if s.duplicate_groups == 0 {
        st.success@
    } else {
        st.group@
    }
}

/// The files-with-duplicates figure, with its share when files were analyzed.
pub open spec fn files_with_duplicates_text(s: Summary, p: SummaryPercents) -> Seq<char> {
    if s.files == 0 {
        count_text(s.files_with_duplicates)
    } else {
        count_text(s.files_with_duplicates) + " ("@ + p.files_with_duplicates@ + "%)"@
    }
}

/// The columns of the overview table: label, then right-aligned figure.
pub open spec fn overview_columns() -> Seq<ColumnView> {
    seq![ColumnView { heading: seq![], right: false }, ColumnView { heading: seq![], right: true }]
}

/// The rows of the overview table.
pub open spec fn overview_rows(s: Summary, st: TextStyles, p: SummaryPercents) -> Seq<RowView> {
    seq![
        row_of(seq![cell_of("Files analyzed"@, unmarked()), cell_of(count_text(s.files), unmarked())], false),
        row_of(
            seq![
                cell_of("Files with duplicates"@, unmarked()),
                cell_of(files_with_duplicates_text(s, p), group_style(s, st)),
            ],
            false,
        ),
        row_of(seq![cell_of("Source lines"@, unmarked()), cell_of(count_text(s.source_lines), unmarked())], false),
        row_of(seq![cell_of("Analyzed lines"@, unmarked()), cell_of(count_text(s.analyzed_lines), unmarked())], false),
        row_of(
            seq![
                cell_of("Duplicate groups"@, unmarked()),
                cell_of(count_text(s.duplicate_groups), duplicate_style(s, st)),
            ],
            false,
        ),
        row_of(seq![cell_of("Occurrences"@, unmarked()), cell_of(count_text(s.occurrences), group_style(s, st))], false),
        row_of(
            seq![
                cell_of("Duplicate lines"@, unmarked()),
                cell_of(count_text(s.duplicate_lines), duplicate_style(s, st)),
            ],
            false,
        ),
        row_of(seq![cell_of("Duplication"@, unmarked()), cell_of(p.duplication@ + "%"@, duplicate_style(s, st))], false),
    ]
}

/// The columns of the breakdown table.
pub open spec fn breakdown_columns() -> Seq<ColumnView> {
    seq![
        ColumnView { heading: "Dimension"@, right: false },
        ColumnView { heading: "Value"@, right: false },
        ColumnView { heading: "Groups"@, right: true },
        ColumnView { heading: "Percent"@, right: true },
    ]
}

/// One row of the breakdown table.
pub open spec fn breakdown_row(
    dimension: Seq<char>,
    value: Seq<char>,
    value_style: StyleView,
    groups: u64,
    percent: Seq<char>,
    st: TextStyles,
    separated: bool,
) -> RowView {
    row_of(
        seq![
            cell_of(dimension, unmarked()),
            cell_of(value, value_style),
            cell_of(count_text(groups), st.group@),
            cell_of(percent + "%"@, st.heading@),
        ],
        separated,
    )
}

/// The rows of the breakdown table.
pub open spec fn breakdown_rows(s: Summary, st: TextStyles, p: SummaryPercents) -> Seq<RowView> {
    let c = st.classification@;
    let d = st.distribution@;
    seq![
        breakdown_row("Context"@, "executable"@, c, s.context.executable, p.executable@, st, false),
        breakdown_row(seq![], "declarative"@, c, s.context.declarative, p.declarative@, st, false),
        breakdown_row(seq![], "mixed"@, c, s.context.mixed, p.mixed_context@, st, false),
        breakdown_row("Scope"@, "function"@, c, s.scope.function, p.function@, st, true),
        breakdown_row(seq![], "module"@, c, s.scope.module, p.module@, st, false),
        breakdown_row(seq![], "class"@, c, s.scope.class, p.class@, st, false),
        breakdown_row(seq![], "mixed"@, c, s.scope.mixed, p.mixed_scope@, st, false),
        breakdown_row("Distribution"@, "cross-file"@, d, s.distribution.cross_file, p.cross_file@, st, true),
        breakdown_row(seq![], "same-file"@, d, s.distribution.same_file, p.same_file@, st, false),
        breakdown_row(seq![], "mixed"@, d, s.distribution.mixed, p.mixed_distribution@, st, false),
    ]
}

/// The dimension a table row belongs to: its own first cell when that is
/// not empty, else that of the row above.
pub open spec fn row_dimension(rows: Seq<RowView>, k: int) -> Seq<char>
    decreases k,
{
    if k < 0 || k >= rows.len() {
        seq![]
    } else if rows[k].cells[0].text.len() > 0 {
        rows[k].cells[0].text
    } else if k == 0 {
        seq![]
    } else {
        row_dimension(rows, k - 1)
    }
}

/// Row `k` of `rows` has four cells and, when it belongs to dimension
/// `dimension` with value `value`, shows `count` groups and `percent`.
pub open spec fn row_shows(
    rows: Seq<RowView>,
    k: int,
    dimension: Seq<char>,
    value: Seq<char>,
    count: u64,
    percent: Seq<char>,
) -> bool {
    row_dimension(rows, k) == dimension && rows[k].cells[1].text == value ==> rows[k].cells[2].text == count_text(count)
        && rows[k].cells[3].text == percent + "%"@
}

/// Every value of every dimension has a row in `rows`.
pub open spec fn has_row(rows: Seq<RowView>, dimension: Seq<char>, value: Seq<char>) -> bool {
    exists|k: int| 0 <= k < rows.len() && row_dimension(rows, k) == dimension && (#[trigger] rows[k]).cells[1].text == value
}

/// Row `k` of a breakdown shows the summary's figures for its dimension
/// and value.
pub open spec fn breakdown_row_correct(rows: Seq<RowView>, k: int, s: Summary, p: SummaryPercents) -> bool {
    &&& rows[k].cells.len() == 4
    &&& row_shows(rows, k, "Context"@, "executable"@, s.context.executable, p.executable@)
    &&& row_shows(rows, k, "Context"@, "declarative"@, s.context.declarative, p.declarative@)
    &&& row_shows(rows, k, "Context"@, "mixed"@, s.context.mixed, p.mixed_context@)
    &&& row_shows(rows, k, "Scope"@, "function"@, s.scope.function, p.function@)
    &&& row_shows(rows, k, "Scope"@, "module"@, s.scope.module, p.module@)
    &&& row_shows(rows, k, "Scope"@, "class"@, s.scope.class, p.class@)
    &&& row_shows(rows, k, "Scope"@, "mixed"@, s.scope.mixed, p.mixed_scope@)
    &&& row_shows(rows, k, "Distribution"@, "cross-file"@, s.distribution.cross_file, p.cross_file@)
    &&& row_shows(rows, k, "Distribution"@, "same-file"@, s.distribution.same_file, p.same_file@)
    &&& row_shows(rows, k, "Distribution"@, "mixed"@, s.distribution.mixed, p.mixed_distribution@)
}

/// Each breakdown row shows, under its dimension and value, the summary's
/// count of groups with that value and the percentage given for it, and
/// every value of every dimension has a row.
pub proof fn law_breakdown_rows_show_their_counts(s: Summary, st: TextStyles, p: SummaryPercents)
    ensures
        forall|k: int|
            0 <= k < breakdown_rows(s, st, p).len() ==> #[trigger] breakdown_row_correct(breakdown_rows(s, st, p), k, s, p),
        has_row(breakdown_rows(s, st, p), "Context"@, "executable"@),
        has_row(breakdown_rows(s, st, p), "Context"@, "declarative"@),
        has_row(breakdown_rows(s, st, p), "Context"@, "mixed"@),
        has_row(breakdown_rows(s, st, p), "Scope"@, "function"@),
        has_row(breakdown_rows(s, st, p), "Scope"@, "module"@),
        has_row(breakdown_rows(s, st, p), "Scope"@, "class"@),
        has_row(breakdown_rows(s, st, p), "Scope"@, "mixed"@),
        has_row(breakdown_rows(s, st, p), "Distribution"@, "cross-file"@),
        has_row(breakdown_rows(s, st, p), "Distribution"@, "same-file"@),
        has_row(breakdown_rows(s, st, p), "Distribution"@, "mixed"@),
{
    reveal_strlit("Context");
    reveal_strlit("Scope");
    reveal_strlit("Distribution");
    reveal_strlit("executable");
    reveal_strlit("declarative");
    reveal_strlit("mixed");
    reveal_strlit("function");
    reveal_strlit("module");
    reveal_strlit("class");
    reveal_strlit("cross-file");
    reveal_strlit("same-file");
    let rows = breakdown_rows(s, st, p);
    assert("Context"@.len() == 7 && "Scope"@.len() == 5 && "Distribution"@.len() == 12);
    assert("executable"@.len() == 10 && "declarative"@.len() == 11 && "mixed"@.len() == 5);
    assert("function"@.len() == 8 && "module"@.len() == 6 && "class"@.len() == 5);
    assert("cross-file"@.len() == 10 && "same-file"@.len() == 9);
    assert("class"@[0] != "mixed"@[0]);
    assert(row_dimension(rows, 0) == "Context"@);
    assert(row_dimension(rows, 1) == "Context"@);
    assert(row_dimension(rows, 2) == "Context"@);
    assert(row_dimension(rows, 3) == "Scope"@);
    assert(row_dimension(rows, 4) == "Scope"@);
    assert(row_dimension(rows, 5) == "Scope"@);
    assert(row_dimension(rows, 6) == "Scope"@);
    assert(row_dimension(rows, 7) == "Distribution"@);
    assert(row_dimension(rows, 8) == "Distribution"@);
    assert(row_dimension(rows, 9) == "Distribution"@);
    assert(breakdown_row_correct(rows, 0, s, p));
    assert(breakdown_row_correct(rows, 1, s, p));
    assert(breakdown_row_correct(rows, 2, s, p));
    assert(breakdown_row_correct(rows, 3, s, p));
    assert(breakdown_row_correct(rows, 4, s, p));
    assert(breakdown_row_correct(rows, 5, s, p));
    assert(breakdown_row_correct(rows, 6, s, p));
    assert(breakdown_row_correct(rows, 7, s, p));
    assert(breakdown_row_correct(rows, 8, s, p));
    assert(breakdown_row_correct(rows, 9, s, p));
    assert forall|k: int| 0 <= k < rows.len() implies #[trigger] breakdown_row_correct(rows, k, s, p) by {
        assert(0 <= k < 10);
    }
    assert(rows[0] == rows[0] && rows[1] == rows[1] && rows[2] == rows[2] && rows[3] == rows[3] && rows[4] == rows[4]);
    assert(rows[5] == rows[5] && rows[6] == rows[6] && rows[7] == rows[7] && rows[8] == rows[8] && rows[9] == rows[9]);
}

/// The columns of the hotspot table.
pub open spec fn hotspot_columns() -> Seq<ColumnView> {
    seq![
        ColumnView { heading: "Path"@, right: false },
        ColumnView { heading: "Groups"@, right: true },
        ColumnView { heading: "Occurrences"@, right: true },
    ]
}

/// The row of one hotspot.
pub open spec fn hotspot_row(h: Hotspot, st: TextStyles) -> RowView {
    row_of(
        seq![
            cell_of(h.path@, st.path@),
            cell_of(count_text(h.groups), st.group@),
            cell_of(count_text(h.occurrences), st.group@),
        ],
        false,
    )
}

/// The rows of the hotspot table.
pub open spec fn hotspot_rows(hotspots: Seq<Hotspot>, st: TextStyles) -> Seq<RowView> {
    hotspots.map_values(|h: Hotspot| hotspot_row(h, st))
}

/// A section: its marked title, a blank line, then the table.
pub open spec fn section(title: Seq<char>, st: TextStyles, table: Seq<char>) -> Seq<char> {
    styled(st.heading@, title) + "\n\n"@ + table
}

/// The overview section.
#[verifier::opaque]
pub open spec fn overview_section(s: Summary, st: TextStyles, p: SummaryPercents) -> Seq<char> {
    section("Summary"@, st, table_text(overview_columns(), overview_rows(s, st, p), st.heading@, false))
}

/// The breakdown section, after a blank line.
#[verifier::opaque]
pub open spec fn breakdown_section(s: Summary, st: TextStyles, p: SummaryPercents) -> Seq<char> {
    "\n"@ + section("Breakdown"@, st, table_text(breakdown_columns(), breakdown_rows(s, st, p), st.heading@, true))
}

/// The hotspot section, after a blank line.
#[verifier::opaque]
pub open spec fn hotspot_section(s: Summary, st: TextStyles) -> Seq<char> {
    "\n"@ + section("Hotspots"@, st, table_text(hotspot_columns(), hotspot_rows(s.hotspots@, st), st.heading@, true))
}

/// The summary part of the text output: the status line, the overview,
/// and when there are duplicates the breakdown, then the hotspots when
/// there are any.
pub open spec fn summary_text(
    s: Summary,
    st: TextStyles,
    p: SummaryPercents,
    complete: bool,
    error_count: nat,
) -> Seq<char> {
    status_text(s, st, complete, error_count) + overview_section(s, st, p) + if s.duplicate_groups == 0 {
        seq![]
    } else {
        breakdown_section(s, st, p) + if s.hotspots@.len() == 0 {
            seq![]
        } else {
            hotspot_section(s, st)
        }
    }
}

/// The whole text output: the findings, then the summary.
pub open spec fn text_output(
    report: Report,
    s: Summary,
    st: TextStyles,
    p: SummaryPercents,
    complete: bool,
    error_count: nat,
) -> Seq<char> {
    finding_blocks(report.findings@, report.findings@.len() as int, st) + summary_text(
        s,
        st,
        p,
        complete,
        error_count,
    )
}


fn column(heading: &str, right: bool) -> (column: Column)
    ensures
        column@ == (ColumnView { heading: heading@, right }),
{
    Column { heading: heading.to_owned(), right }
}

/// Appends `row` to `rows`, keeping every row one cell per column.
fn push_fitting(rows: &mut Vec<Row>, row: Row, Ghost(columns): Ghost<Seq<ColumnView>>)
    requires
        rows_fit(columns, row_views(old(rows)@)),
        row@.cells.len() == columns.len(),
    ensures
        row_views(final(rows)@) == row_views(old(rows)@).push(row@),
        rows_fit(columns, row_views(final(rows)@)),
{
    let ghost before = rows@;
    rows.push(row);
    proof {
        assert(row_views(rows@) =~= row_views(before).push(row@));
    }
}

/// A row of a label and a figure marked by `style`.
fn figure_row(label: &str, figure: String, style: &Style) -> (row: Row)
    ensures
        row@ == row_of(seq![cell_of(label@, unmarked()), cell_of(figure@, style@)], false),
{
    let plain = Style::plain();
    let mut cells: Vec<Cell> = Vec::new();
    cells.push(Cell::styled(label.to_owned(), &plain));
    cells.push(Cell::styled(figure, style));
    let row = Row { cells, separator_before: false };
    proof {
        assert(row@ =~~= row_of(seq![cell_of(label@, unmarked()), cell_of(figure@, style@)], false));
    }
    row
}

fn overview_table_rows(s: &Summary, st: &TextStyles, p: &SummaryPercents) -> (rows: Vec<Row>)
    ensures
        row_views(rows@) == overview_rows(*s, *st, *p),
        rows_fit(overview_columns(), row_views(rows@)),
{
    let ghost columns = overview_columns();
    let plain = Style::plain();
    let duplicates = if s.duplicate_groups == 0 {
        &st.success
    } else {
        &st.problem
    };
    let groups = if s.duplicate_groups == 0 {
        &st.success
    } else {
        &st.group
    };
    let mut with_duplicates = format_count(s.files_with_duplicates);
    if s.files != 0 {
        with_duplicates.append(" (");
        with_duplicates.append(p.files_with_duplicates.as_str());
        with_duplicates.append("%)");
    }
    let mut duplication = p.duplication.clone();
    duplication.append("%");
    let mut rows: Vec<Row> = Vec::new();
    proof {
        assert(row_views(rows@) =~= Seq::<RowView>::empty());
    }
    push_fitting(&mut rows, figure_row("Files analyzed", format_count(s.files), &plain), Ghost(columns));
    push_fitting(&mut rows, figure_row("Files with duplicates", with_duplicates, groups), Ghost(columns));
    push_fitting(&mut rows, figure_row("Source lines", format_count(s.source_lines), &plain), Ghost(columns));
    push_fitting(&mut rows, figure_row("Analyzed lines", format_count(s.analyzed_lines), &plain), Ghost(columns));
    push_fitting(&mut rows, figure_row("Duplicate groups", format_count(s.duplicate_groups), duplicates), Ghost(columns));
    push_fitting(&mut rows, figure_row("Occurrences", format_count(s.occurrences), groups), Ghost(columns));
    push_fitting(&mut rows, figure_row("Duplicate lines", format_count(s.duplicate_lines), duplicates), Ghost(columns));
    push_fitting(&mut rows, figure_row("Duplication", duplication, duplicates), Ghost(columns));
    proof {
        assert(row_views(rows@) =~~= overview_rows(*s, *st, *p));
    }
    rows
}

fn breakdown_table_row(
    dimension: &str,
    value: &str,
    value_style: &Style,
    groups: u64,
    percent: &String,
    st: &TextStyles,
    separated: bool,
) -> (row: Row)
    ensures
        row@ == breakdown_row(dimension@, value@, value_style@, groups, percent@, *st, separated),
{
    let plain = Style::plain();
    let mut shown = percent.clone();
    shown.append("%");
    let mut cells: Vec<Cell> = Vec::new();
    cells.push(Cell::styled(dimension.to_owned(), &plain));
    cells.push(Cell::styled(value.to_owned(), value_style));
    cells.push(Cell::styled(format_count(groups), &st.group));
    cells.push(Cell::styled(shown, &st.heading));
    let row = Row { cells, separator_before: separated };
    proof {
        assert(row@ =~~= breakdown_row(dimension@, value@, value_style@, groups, percent@, *st, separated));
    }
    row
}

fn breakdown_table_rows(s: &Summary, st: &TextStyles, p: &SummaryPercents) -> (rows: Vec<Row>)
    ensures
        row_views(rows@) == breakdown_rows(*s, *st, *p),
        rows_fit(breakdown_columns(), row_views(rows@)),
{
    let ghost columns = breakdown_columns();
    let c = &st.classification;
    let d = &st.distribution;
    proof {
        reveal_strlit("");
    }
    let mut rows: Vec<Row> = Vec::new();
    proof {
        assert(row_views(rows@) =~= Seq::<RowView>::empty());
    }
    push_fitting(
        &mut rows,
        breakdown_table_row("Context", "executable", c, s.context.executable, &p.executable, st, false),
        Ghost(columns),
    );
    push_fitting(
        &mut rows,
        breakdown_table_row("", "declarative", c, s.context.declarative, &p.declarative, st, false),
        Ghost(columns),
    );
    push_fitting(
        &mut rows,
        breakdown_table_row("", "mixed", c, s.context.mixed, &p.mixed_context, st, false),
        Ghost(columns),
    );
    push_fitting(
        &mut rows,
        breakdown_table_row("Scope", "function", c, s.scope.function, &p.function, st, true),
        Ghost(columns),
    );
    push_fitting(&mut rows, breakdown_table_row("", "module", c, s.scope.module, &p.module, st, false), Ghost(columns));
    push_fitting(&mut rows, breakdown_table_row("", "class", c, s.scope.class, &p.class, st, false), Ghost(columns));
    push_fitting(
        &mut rows,
        breakdown_table_row("", "mixed", c, s.scope.mixed, &p.mixed_scope, st, false),
        Ghost(columns),
    );
    push_fitting(
        &mut rows,
        breakdown_table_row("Distribution", "cross-file", d, s.distribution.cross_file, &p.cross_file, st, true),
        Ghost(columns),
    );
    push_fitting(
        &mut rows,
        breakdown_table_row("", "same-file", d, s.distribution.same_file, &p.same_file, st, false),
        Ghost(columns),
    );
    push_fitting(
        &mut rows,
        breakdown_table_row("", "mixed", d, s.distribution.mixed, &p.mixed_distribution, st, false),
        Ghost(columns),
    );
    proof {
        assert(row_views(rows@) =~~= breakdown_rows(*s, *st, *p));
    }
    rows
}

fn hotspot_table_rows(hotspots: &Vec<Hotspot>, st: &TextStyles) -> (rows: Vec<Row>)
    ensures
        row_views(rows@) == hotspot_rows(hotspots@, *st),
        rows_fit(hotspot_columns(), row_views(rows@)),
{
    let ghost columns = hotspot_columns();
    let mut rows: Vec<Row> = Vec::new();
    let mut k: usize = 0;
    proof {
        assert(row_views(rows@) =~= hotspot_rows(hotspots@.take(0), *st));
    }
    while k < hotspots.len()
        invariant
            columns == hotspot_columns(),
            k <= hotspots@.len(),
            row_views(rows@) == hotspot_rows(hotspots@.take(k as int), *st),
            rows_fit(columns, row_views(rows@)),
        decreases hotspots@.len() - k,
    {
        let h = &hotspots[k];
        let mut cells: Vec<Cell> = Vec::new();
        cells.push(Cell::styled(h.path.clone(), &st.path));
        cells.push(Cell::styled(format_count(h.groups), &st.group));
        cells.push(Cell::styled(format_count(h.occurrences), &st.group));
        let row = Row { cells, separator_before: false };
        proof {
            assert(row@ =~~= hotspot_row(*h, *st));
        }
        push_fitting(&mut rows, row, Ghost(columns));
        proof {
            assert(hotspots@.take(k + 1) =~= hotspots@.take(k as int).push(*h));
            assert(hotspot_rows(hotspots@.take(k + 1), *st) =~~= hotspot_rows(hotspots@.take(k as int), *st).push(
                hotspot_row(*h, *st),
            ));
        }
        k = k + 1;
    }
    proof {
        assert(hotspots@.take(k as int) =~= hotspots@);
    }
    rows
}

fn push_section_title(out: &mut String, title: &str, st: &TextStyles)
    ensures
        final(out)@ == old(out)@ + styled(st.heading@, title@) + "\n\n"@,
{
    push_styled(out, &st.heading, title);
    out.append("\n\n");
}

fn push_status(out: &mut String, s: &Summary, st: &TextStyles, complete: bool, error_count: usize)
    ensures
        final(out)@ == old(out)@ + status_text(*s, *st, complete, error_count as nat),
{
    let ghost start = out@;
    if !complete {
        out.append(st.problem.open.as_str());
        out.append("Scan incomplete: ");
        push_decimal(out, error_count as u64);
        out.append(" source processing ");
        if error_count == 1 {
            out.append("error");
        } else {
            out.append("errors");
        }
        out.append(".");
        out.append(st.problem.close.as_str());
        out.append("\n\n");
    } else if s.duplicate_groups == 0 {
        push_styled(out, &st.success, "No duplicate code found.");
        out.append("\n\n");
    }
    proof {
        assert(out@ =~= start + status_text(*s, *st, complete, error_count as nat));
    }
}

fn push_overview(out: &mut String, s: &Summary, st: &TextStyles, p: &SummaryPercents)
    ensures
        final(out)@ == old(out)@ + overview_section(*s, *st, *p),
{
    proof {
        reveal(overview_section);
    }
    let ghost start = out@;
    push_section_title(out, "Summary", st);
    let mut columns: Vec<Column> = Vec::new();
    proof {
        reveal_strlit("");
    }
    columns.push(column("", false));
    columns.push(column("", true));
    proof {
        assert(column_views(columns@) =~~= overview_columns());
    }
    let rows = overview_table_rows(s, st, p);
    render_table(out, &columns, &rows, &st.heading, false);
    proof {
        assert(out@ =~= start + section(
            "Summary"@,
            *st,
            table_text(overview_columns(), overview_rows(*s, *st, *p), st.heading@, false),
        ));
    }
}

fn push_breakdown(out: &mut String, s: &Summary, st: &TextStyles, p: &SummaryPercents)
    ensures
        final(out)@ == old(out)@ + breakdown_section(*s, *st, *p),
{
    proof {
        reveal(breakdown_section);
    }
    let ghost start = out@;
    out.append("\n");
    push_section_title(out, "Breakdown", st);
    let mut columns: Vec<Column> = Vec::new();
    columns.push(column("Dimension", false));
    columns.push(column("Value", false));
    columns.push(column("Groups", true));
    columns.push(column("Percent", true));
    proof {
        assert(column_views(columns@) =~~= breakdown_columns());
    }
    let rows = breakdown_table_rows(s, st, p);
    render_table(out, &columns, &rows, &st.heading, true);
    proof {
        assert(out@ =~= start + "\n"@ + section(
            "Breakdown"@,
            *st,
            table_text(breakdown_columns(), breakdown_rows(*s, *st, *p), st.heading@, true),
        ));
    }
}

fn push_hotspots(out: &mut String, s: &Summary, st: &TextStyles)
    ensures
        final(out)@ == old(out)@ + hotspot_section(*s, *st),
{
    proof {
        reveal(hotspot_section);
    }
    let ghost start = out@;
    out.append("\n");
    push_section_title(out, "Hotspots", st);
    let mut columns: Vec<Column> = Vec::new();
    columns.push(column("Path", false));
    columns.push(column("Groups", true));
    columns.push(column("Occurrences", true));
    proof {
        assert(column_views(columns@) =~~= hotspot_columns());
    }
    let rows = hotspot_table_rows(&s.hotspots, st);
    render_table(out, &columns, &rows, &st.heading, true);
    proof {
        assert(out@ =~= start + "\n"@ + section(
            "Hotspots"@,
            *st,
            table_text(hotspot_columns(), hotspot_rows(s.hotspots@, *st), st.heading@, true),
        ));
    }
}

/// Appends the summary part of the text output.
fn push_summary_text(
    out: &mut String,
    s: &Summary,
    st: &TextStyles,
    p: &SummaryPercents,
    complete: bool,
    error_count: usize,
)
    ensures
        final(out)@ == old(out)@ + summary_text(*s, *st, *p, complete, error_count as nat),
{
    let ghost start = out@;
    push_status(out, s, st, complete, error_count);
    let ghost s1 = out@;
    push_overview(out, s, st, p);
    let ghost s2 = out@;
    if s.duplicate_groups != 0 {
        push_breakdown(out, s, st, p);
        let ghost s3 = out@;
        if s.hotspots.len() != 0 {
            push_hotspots(out, s, st);
        }
    }
    proof {
        assert(out@ =~= start + summary_text(*s, *st, *p, complete, error_count as nat));
    }
}

/// Renders the text output: each finding with its locations, then the
/// summary with its overview, breakdown and hotspot tables. `complete`
/// and `errors` say whether every source was processed and what failed.
pub fn render_text_with_summary(
    report: &Report,
    summary: &Summary,
    styles: &TextStyles,
    percents: &SummaryPercents,
    complete: bool,
    errors: &Vec<OperationalError>,
) -> (output: String)
    requires
        source_numbers_fit(*report),
    ensures
        output@ == text_output(*report, *summary, *styles, *percents, complete, errors@.len()),
{
    let mut output = String::new();
    push_finding_blocks(&mut output, report, styles);
    push_summary_text(&mut output, summary, styles, percents, complete, errors.len());
    proof {
        assert(output@ =~= text_output(*report, *summary, *styles, *percents, complete, errors@.len()));
    }
    output
}

} // verus!
