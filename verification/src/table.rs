//! Rendering delimited text as a table: boxed ASCII, HTML or Markdown.

use vstd::prelude::*;

use crate::markup::{append_units, escape_all, push_escaped};
use crate::strings::{decode_utf16_strict, from_utf16, utf16_spec, utf16_units};
use crate::text::{chars_of, str_equals, string_of};

verus! {

/// A space.
pub const SPACE: u16 = 0x20;

/// A vertical bar.
pub const PIPE: u16 = 0x7c;

/// A hyphen.
pub const DASH: u16 = 0x2d;

/// A plus sign.
pub const CROSS: u16 = 0x2b;

/// A line feed.
pub const NEWLINE: u16 = 0x0a;

/// Which of the three renderings to produce.
#[derive(Clone, Copy, Debug, PartialEq, Eq, Structural)]
pub enum Format {
    Ascii,
    Html,
    Markdown,
}

/// The format a name selects; anything unrecognised is HTML.
pub open spec fn format_of(value: Seq<char>) -> Format {
    if value == "ASCII"@ {
        Format::Ascii
    } else if value == "Markdown"@ {
        Format::Markdown
    } else {
        Format::Html
    }
}

/// Resolves the format an argument names.
pub fn format(value: &str) -> (r: Format)
    ensures
        r == format_of(value@),
{
    if str_equals(value, "ASCII") {
        Format::Ascii
    } else if str_equals(value, "Markdown") {
        Format::Markdown
    } else {
        Format::Html
    }
}

/// The cells of a row, as sequences.
pub open spec fn cells_view(line: Seq<Vec<u16>>) -> Seq<Seq<u16>> {
    line.map_values(|c: Vec<u16>| c@)
}

/// The rows of a table, as sequences.
pub open spec fn table_view(t: Seq<Vec<Vec<u16>>>) -> Seq<Seq<Seq<u16>>> {
    t.map_values(|l: Vec<Vec<u16>>| cells_view(l@))
}

/// The parser from `index` on. A quote opens a quoted field and a doubled
/// quote inside one is literal; a cell delimiter ends a cell and a row
/// delimiter ends a row, taking a different row delimiter after it along.
/// A row is kept only once it holds a cell.
pub open spec fn parse_from(
    data: Seq<u16>,
    cells: Seq<u16>,
    rows: Seq<u16>,
    index: int,
    lines: Seq<Seq<Seq<u16>>>,
    line: Seq<Seq<u16>>,
    cell: Seq<u16>,
    in_string: bool,
    render_next: bool,
) -> Seq<Seq<Seq<u16>>>
    decreases data.len() - index,
{
    if index >= data.len() || index < 0 {
        if line.len() > 0 {
            lines.push(line.push(cell))
        } else {
            lines
        }
    } else {
        let unit = data[index];
        let has_next = index + 1 < data.len();
        if render_next {
            parse_from(data, cells, rows, index + 1, lines, line, cell.push(unit), in_string, false)
        } else if unit == 0x22 && !in_string {
            parse_from(data, cells, rows, index + 1, lines, line, cell, true, false)
        } else if unit == 0x22 {
            if has_next && data[index + 1] == 0x22 {
                parse_from(data, cells, rows, index + 1, lines, line, cell, in_string, true)
            } else {
                parse_from(data, cells, rows, index + 1, lines, line, cell, false, false)
            }
        } else if !in_string && cells.contains(unit) {
            parse_from(data, cells, rows, index + 1, lines, line.push(cell), seq![], in_string, false)
        } else if !in_string && rows.contains(unit) {
            let skip = has_next && rows.contains(data[index + 1]) && data[index + 1] != unit;
            parse_from(
                data,
                cells,
                rows,
                if skip {
                    index + 2
                } else {
                    index + 1
                },
                lines.push(line.push(cell)),
                seq![],
                seq![],
                in_string,
                false,
            )
        } else {
            parse_from(data, cells, rows, index + 1, lines, line, cell.push(unit), in_string, false)
        }
    }
}

/// Escaped text split into rows of cells, a leading byte-order mark dropped.
pub open spec fn parse_spec(data: Seq<u16>, cells: Seq<u16>, rows: Seq<u16>) -> Seq<Seq<Seq<u16>>> {
    let d = if data.len() > 0 && data[0] == 0xfeff {
        data.skip(1)
    } else {
        data
    };
    parse_from(d, cells, rows, 0, seq![], seq![], seq![], false, false)
}

fn contains_unit(set: &Vec<u16>, u: u16) -> (r: bool)
    ensures
        r == set@.contains(u),
{
    let mut i: usize = 0;
    while i < set.len()
        invariant
            i <= set.len(),
            forall|j: int| 0 <= j < i ==> set@[j] != u,
        decreases set.len() - i,
    {
        if set[i] == u {
            assert(set@[i as int] == u);
            return true;
        }
        i = i + 1;
    }
    false
}

/// Splits escaped text into rows of cells.
pub fn parse_delimited(data: &Vec<u16>, cells: &Vec<u16>, rows: &Vec<u16>) -> (r: Vec<Vec<Vec<u16>>>)
    ensures
        table_view(r@) == parse_spec(data@, cells@, rows@),
{
    let start: usize = if data.len() > 0 && data[0] == 0xfeff {
        1
    } else {
        0
    };
    let ghost d = data@.skip(start as int);
    let ghost whole = parse_spec(data@, cells@, rows@);
    let mut lines: Vec<Vec<Vec<u16>>> = Vec::new();
    let mut line: Vec<Vec<u16>> = Vec::new();
    let mut cell: Vec<u16> = Vec::new();
    let mut in_string = false;
    let mut render_next = false;
    let mut index: usize = start;
    assert(table_view(lines@) =~= Seq::<Seq<Seq<u16>>>::empty());
    assert(cells_view(line@) =~= Seq::<Seq<u16>>::empty());
    assert(start == 0 ==> d == data@);
    while index < data.len()
        invariant
            start <= index <= data.len() + 1,
            start <= 1,
            d == data@.skip(start as int),
            whole == parse_from(
                d,
                cells@,
                rows@,
                index - start,
                table_view(lines@),
                cells_view(line@),
                cell@,
                in_string,
                render_next,
            ),
        decreases data.len() + 1 - index,
    {
        let unit = data[index];
        assert(d[index - start] == unit);
        let has_next = index + 1 < data.len();
        if has_next {
            assert(d[index - start + 1] == data@[index + 1]);
        }
        if render_next {
            cell.push(unit);
            render_next = false;
            index = index + 1;
        } else if unit == 0x22 && !in_string {
            in_string = true;
            index = index + 1;
        } else if unit == 0x22 {
            if has_next && data[index + 1] == 0x22 {
                render_next = true;
            } else {
                in_string = false;
            }
            index = index + 1;
        } else if !in_string && contains_unit(cells, unit) {
            let ghost before = cells_view(line@);
            let done = cell;
            cell = Vec::new();
            line.push(done);
            assert(cells_view(line@) =~= before.push(done@));
            index = index + 1;
        } else if !in_string && contains_unit(rows, unit) {
            let ghost before_line = cells_view(line@);
            let ghost before_lines = table_view(lines@);
            let done = cell;
            cell = Vec::new();
            line.push(done);
            assert(cells_view(line@) =~= before_line.push(done@));
            let finished = line;
            line = Vec::new();
            lines.push(finished);
            assert(table_view(lines@) =~= before_lines.push(before_line.push(done@)));
            assert(cells_view(line@) =~= Seq::<Seq<u16>>::empty());
            if has_next && contains_unit(rows, data[index + 1]) && data[index + 1] != unit {
                index = index + 2;
            } else {
                index = index + 1;
            }
        } else {
            cell.push(unit);
            index = index + 1;
        }
    }
    if line.len() > 0 {
        let ghost before_line = cells_view(line@);
        let ghost before_lines = table_view(lines@);
        let done = cell;
        line.push(done);
        assert(cells_view(line@) =~= before_line.push(done@));
        lines.push(line);
        assert(table_view(lines@) =~= before_lines.push(before_line.push(done@)));
    }
    lines
}


/// The widths after one more row: each column as wide as its widest cell.
pub open spec fn merge_widths(w: Seq<usize>, row: Seq<Seq<u16>>) -> Seq<usize> {
    Seq::new(
        if w.len() >= row.len() {
            w.len()
        } else {
            row.len()
        },
        |c: int|
            {
                let a: usize = if c < w.len() {
                    w[c]
                } else {
                    0
                };
                let b: usize = if c < row.len() {
                    row[c].len() as usize
                } else {
                    0
                };
                if a >= b {
                    a
                } else {
                    b
                }
            },
    )
}

/// The widest cell in each column, over every row.
pub open spec fn widths_spec(table: Seq<Seq<Seq<u16>>>) -> Seq<usize>
    decreases table.len(),
{
    if table.len() == 0 {
        seq![]
    } else {
        merge_widths(widths_spec(table.drop_last()), table.last())
    }
}

/// The widest cell in each column, measured before any row is removed.
pub fn column_widths(table: &Vec<Vec<Vec<u16>>>) -> (r: Vec<usize>)
    ensures
        r@ == widths_spec(table_view(table@)),
{
    let ghost tv = table_view(table@);
    let mut widths: Vec<usize> = Vec::new();
    let mut i: usize = 0;
    while i < table.len()
        invariant
            i <= table.len(),
            tv == table_view(table@),
            widths@ == widths_spec(tv.take(i as int)),
        decreases table.len() - i,
    {
        let row = &table[i];
        let ghost rv = cells_view(row@);
        assert(rv == tv[i as int]);
        let ghost w0 = widths@;
        let mut column: usize = 0;
        while column < row.len()
            invariant
                column <= row.len(),
                rv == cells_view(row@),
                widths@ == merge_widths(w0, rv.take(column as int)),
            decreases row.len() - column,
        {
            let len = row[column].len();
            assert(rv[column as int] == row@[column as int]@);
            if column >= widths.len() {
                widths.push(0);
            }
            let current = widths[column];
            if len > current {
                widths.set(column, len);
            }
            assert(widths@ =~= merge_widths(w0, rv.take(column + 1)));
            column = column + 1;
        }
        assert(rv.take(row.len() as int) == rv);
        assert(tv.take(i + 1).drop_last() == tv.take(i as int));
        assert(tv.take(i + 1).last() == rv);
        i = i + 1;
    }
    assert(tv.take(table.len() as int) == tv);
    widths
}

/// `n` copies of one unit.
pub open spec fn repeat_unit(u: u16, n: nat) -> Seq<u16> {
    Seq::new(n, |i: int| u)
}

/// Text from code units; nothing when a surrogate is unpaired.
pub open spec fn finish(u: Seq<u16>) -> Seq<char> {
    match decode_utf16_strict(u) {
        Some(cs) => cs,
        None => seq![],
    }
}

/// `+---+---+` without its line feed, two wider than each column.
pub open spec fn border_units(widths: Seq<usize>) -> Seq<u16>
    decreases widths.len(),
{
    if widths.len() == 0 {
        seq![CROSS]
    } else {
        border_units(widths.drop_last()) + repeat_unit(DASH, (widths.last() + 2) as nat) + seq![CROSS]
    }
}

/// The border line.
pub open spec fn border_spec(widths: Seq<usize>) -> Seq<char> {
    finish(border_units(widths).push(NEWLINE))
}

/// The spaces a cell needs to fill its column.
pub open spec fn pad_spec(widths: Seq<usize>, c: int, len: nat) -> nat {
    let w: int = if 0 <= c < widths.len() {
        widths[c] as int
    } else {
        0
    };
    if w > len {
        (w - len) as nat
    } else {
        0
    }
}

/// `| a | b |` without its line feed.
pub open spec fn padded_units(row: Seq<Seq<u16>>, widths: Seq<usize>) -> Seq<u16>
    decreases row.len(),
{
    if row.len() == 0 {
        seq![PIPE]
    } else {
        padded_units(row.drop_last(), widths) + seq![SPACE] + row.last() + repeat_unit(
            SPACE,
            pad_spec(widths, row.len() - 1, row.last().len()),
        ) + seq![SPACE, PIPE]
    }
}

/// One padded row.
pub open spec fn padded_row_spec(row: Seq<Seq<u16>>, widths: Seq<usize>) -> Seq<char> {
    finish(padded_units(row, widths).push(NEWLINE))
}

/// Padded rows, one after another.
pub open spec fn padded_rows(rows: Seq<Seq<Seq<u16>>>, widths: Seq<usize>) -> Seq<char>
    decreases rows.len(),
{
    if rows.len() == 0 {
        seq![]
    } else {
        padded_rows(rows.drop_last(), widths) + padded_row_spec(rows.last(), widths)
    }
}

/// Boxed borders and padded cells; with `header`, a border under the first row.
pub open spec fn ascii_spec(table: Seq<Seq<Seq<u16>>>, widths: Seq<usize>, header: bool) -> Seq<char> {
    let b = border_spec(widths);
    if header && table.len() > 0 {
        b + padded_row_spec(table[0], widths) + b + padded_rows(table.skip(1), widths) + b
    } else {
        b + padded_rows(table, widths) + b
    }
}

/// The cells of an HTML row, each in the tag.
pub open spec fn tag_cells(row: Seq<Seq<u16>>, tag: Seq<char>) -> Seq<u16>
    decreases row.len(),
{
    if row.len() == 0 {
        seq![]
    } else {
        tag_cells(row.drop_last(), tag) + utf16_spec("<"@) + utf16_spec(tag) + utf16_spec(">"@)
            + row.last() + utf16_spec("</"@) + utf16_spec(tag) + utf16_spec(">"@)
    }
}

/// One `<tr>` of cells in the given tag.
pub open spec fn tag_row_spec(row: Seq<Seq<u16>>, tag: Seq<char>) -> Seq<char> {
    finish(utf16_spec("<tr>"@) + tag_cells(row, tag) + utf16_spec("</tr>"@))
}

/// HTML rows, one after another.
pub open spec fn tag_rows(rows: Seq<Seq<Seq<u16>>>, tag: Seq<char>) -> Seq<char>
    decreases rows.len(),
{
    if rows.len() == 0 {
        seq![]
    } else {
        tag_rows(rows.drop_last(), tag) + tag_row_spec(rows.last(), tag)
    }
}

/// A `<table>` with styling classes; with `header`, the first row in `<thead>`.
pub open spec fn html_spec(table: Seq<Seq<Seq<u16>>>, header: bool) -> Seq<char> {
    let open = "<table class='table table-hover table-sm table-bordered table-nonfluid'>"@;
    if header && table.len() > 0 {
        open + "<thead class='thead-light'>"@ + tag_row_spec(table[0], "th"@) + "</thead>"@ + "<tbody>"@
            + tag_rows(table.skip(1), "td"@) + "</tbody></table>"@
    } else {
        open + "<tbody>"@ + tag_rows(table, "td"@) + "</tbody></table>"@
    }
}

/// The `| --- |` line under a Markdown header of `n` columns, without its line feed.
pub open spec fn divider_units(n: nat, widths: Seq<usize>) -> Seq<u16>
    decreases n,
{
    if n == 0 {
        seq![PIPE]
    } else {
        let c = n - 1;
        divider_units((n - 1) as nat, widths) + seq![SPACE] + repeat_unit(
            DASH,
            if c < widths.len() {
                widths[c] as nat
            } else {
                0
            },
        ) + seq![SPACE, PIPE]
    }
}

/// A pipe table whose first row is always the header.
pub open spec fn markdown_spec(table: Seq<Seq<Seq<u16>>>, widths: Seq<usize>) -> Seq<char> {
    if table.len() == 0 {
        seq![]
    } else {
        padded_row_spec(table[0], widths) + finish(divider_units(table[0].len(), widths).push(NEWLINE))
            + padded_rows(table.skip(1), widths)
    }
}

/// What `render` answers. The input is HTML-escaped before it is parsed, so a
/// quote in it never opens a quoted field, and a delimiter that escaping
/// rewrites never splits.
pub open spec fn render_spec(
    input: Seq<char>,
    cell_delimiters: Seq<char>,
    row_delimiters: Seq<char>,
    header: bool,
    format: Format,
) -> Seq<char> {
    let table = parse_spec(
        escape_all(utf16_spec(input)),
        utf16_spec(cell_delimiters),
        utf16_spec(row_delimiters),
    );
    if table.len() == 0 {
        seq![]
    } else {
        let widths = widths_spec(table);
        match format {
            Format::Ascii => ascii_spec(table, widths, header),
            Format::Html => html_spec(table, header),
            Format::Markdown => markdown_spec(table, widths),
        }
    }
}

/// Appends the characters of a literal.
fn push_text(out: &mut Vec<char>, text: &str)
    ensures
        final(out)@ == old(out)@ + text@,
{
    let cs = chars_of(text);
    let mut i: usize = 0;
    while i < cs.len()
        invariant
            i <= cs.len(),
            cs@ == text@,
            out@ == old(out)@ + cs@.take(i as int),
        decreases cs.len() - i,
    {
        out.push(cs[i]);
        i = i + 1;
    }
    assert(cs@.take(cs.len() as int) == cs@);
}

/// Appends the UTF-16 units of a literal.
fn push(units: &mut Vec<u16>, text: &str)
    ensures
        final(units)@ == old(units)@ + utf16_spec(text@),
{
    let cs = chars_of(text);
    let encoded = utf16_units(&cs);
    append_units(units, &encoded);
}

/// Appends the text of some code units, or nothing if they are not valid.
fn finish_into(out: &mut Vec<char>, units: &Vec<u16>)
    ensures
        final(out)@ == old(out)@ + finish(units@),
{
    match from_utf16(units) {
        Some(s) => {
            let cs = chars_of(s.as_str());
            let mut i: usize = 0;
            while i < cs.len()
                invariant
                    i <= cs.len(),
                    out@ == old(out)@ + cs@.take(i as int),
                decreases cs.len() - i,
            {
                out.push(cs[i]);
                i = i + 1;
            }
            assert(cs@.take(cs.len() as int) == cs@);
        },
        None => {
            assert(old(out)@ + Seq::<char>::empty() == old(out)@);
        },
    }
}

/// Appends `count` copies of one code unit.
fn repeat(units: &mut Vec<u16>, u: u16, count: usize)
    ensures
        final(units)@ == old(units)@ + repeat_unit(u, count as nat),
{
    let mut i: usize = 0;
    while i < count
        invariant
            i <= count,
            units@ == old(units)@ + repeat_unit(u, i as nat),
        decreases count - i,
    {
        units.push(u);
        assert(units@ =~= old(units)@ + repeat_unit(u, (i + 1) as nat));
        i = i + 1;
    }
}

/// The border line.
fn horizontal_border(out: &mut Vec<char>, widths: &Vec<usize>)
    ensures
        final(out)@ == old(out)@ + border_spec(widths@),
{
    let mut units: Vec<u16> = Vec::new();
    units.push(CROSS);
    let mut c: usize = 0;
    while c < widths.len()
        invariant
            c <= widths.len(),
            units@ == border_units(widths@.take(c as int)),
        decreases widths.len() - c,
    {
        let ghost before = units@;
        repeat(&mut units, DASH, widths[c]);
        units.push(DASH);
        units.push(DASH);
        units.push(CROSS);
        proof {
            let t = widths@.take(c + 1);
            assert(t.drop_last() == widths@.take(c as int));
            assert(t.last() == widths@[c as int]);
            assert(units@ =~= before + repeat_unit(DASH, (widths@[c as int] + 2) as nat) + seq![CROSS]);
        }
        c = c + 1;
    }
    assert(widths@.take(widths.len() as int) == widths@);
    units.push(NEWLINE);
    finish_into(out, &units);
}

/// One padded row.
fn padded_row(out: &mut Vec<char>, row: &Vec<Vec<u16>>, widths: &Vec<usize>)
    ensures
        final(out)@ == old(out)@ + padded_row_spec(cells_view(row@), widths@),
{
    let ghost rv = cells_view(row@);
    let mut units: Vec<u16> = Vec::new();
    units.push(PIPE);
    let mut c: usize = 0;
    while c < row.len()
        invariant
            c <= row.len(),
            rv == cells_view(row@),
            units@ == padded_units(rv.take(c as int), widths@),
        decreases row.len() - c,
    {
        let ghost before = units@;
        let cell = &row[c];
        assert(rv[c as int] == cell@);
        units.push(SPACE);
        append_units(&mut units, cell);
        let width: usize = if c < widths.len() {
            widths[c]
        } else {
            0
        };
        let padding: usize = if width > cell.len() {
            width - cell.len()
        } else {
            0
        };
        repeat(&mut units, SPACE, padding);
        units.push(SPACE);
        units.push(PIPE);
        proof {
            let t = rv.take(c + 1);
            assert(t.drop_last() == rv.take(c as int));
            assert(t.last() == cell@);
            assert(padding == pad_spec(widths@, c as int, cell@.len()));
            assert(units@ =~= before + seq![SPACE] + cell@ + repeat_unit(SPACE, padding as nat) + seq![SPACE, PIPE]);
        }
        c = c + 1;
    }
    assert(rv.take(row.len() as int) == rv);
    units.push(NEWLINE);
    finish_into(out, &units);
}

/// Padded rows from `from` on.
fn padded_rows_into(out: &mut Vec<char>, table: &Vec<Vec<Vec<u16>>>, from: usize, widths: &Vec<usize>)
    requires
        from <= table.len(),
    ensures
        final(out)@ == old(out)@ + padded_rows(table_view(table@).skip(from as int), widths@),
{
    let ghost tv = table_view(table@);
    let mut i = from;
    while i < table.len()
        invariant
            from <= i <= table.len(),
            tv == table_view(table@),
            out@ == old(out)@ + padded_rows(tv.subrange(from as int, i as int), widths@),
        decreases table.len() - i,
    {
        let ghost before = out@;
        padded_row(out, &table[i], widths);
        proof {
            let t = tv.subrange(from as int, i + 1);
            assert(t.drop_last() == tv.subrange(from as int, i as int));
            assert(t.last() == cells_view(table@[i as int]@));
        }
        i = i + 1;
    }
    assert(tv.subrange(from as int, table.len() as int) == tv.skip(from as int));
}

/// Boxed borders and padded cells.
fn ascii(out: &mut Vec<char>, table: &Vec<Vec<Vec<u16>>>, widths: &Vec<usize>, header: bool)
    ensures
        final(out)@ == old(out)@ + ascii_spec(table_view(table@), widths@, header),
{
    let ghost tv = table_view(table@);
    let ghost b = border_spec(widths@);
    horizontal_border(out, widths);
    if header && table.len() > 0 {
        padded_row(out, &table[0], widths);
        horizontal_border(out, widths);
        padded_rows_into(out, table, 1, widths);
        horizontal_border(out, widths);
        assert(out@ =~= old(out)@ + (b + padded_row_spec(tv[0], widths@) + b + padded_rows(tv.skip(1), widths@) + b));
    } else {
        padded_rows_into(out, table, 0, widths);
        horizontal_border(out, widths);
        assert(tv.skip(0) == tv);
        assert(out@ =~= old(out)@ + (b + padded_rows(tv, widths@) + b));
    }
}

/// One `<tr>` of cells in the given tag.
fn tag_row(out: &mut Vec<char>, row: &Vec<Vec<u16>>, tag: &str)
    ensures
        final(out)@ == old(out)@ + tag_row_spec(cells_view(row@), tag@),
{
    let ghost rv = cells_view(row@);
    let mut units: Vec<u16> = Vec::new();
    push(&mut units, "<tr>");
    let ghost head = units@;
    let mut c: usize = 0;
    while c < row.len()
        invariant
            c <= row.len(),
            rv == cells_view(row@),
            units@ == head + tag_cells(rv.take(c as int), tag@),
        decreases row.len() - c,
    {
        let ghost before = units@;
        assert(rv[c as int] == row@[c as int]@);
        push(&mut units, "<");
        push(&mut units, tag);
        push(&mut units, ">");
        append_units(&mut units, &row[c]);
        push(&mut units, "</");
        push(&mut units, tag);
        push(&mut units, ">");
        proof {
            let t = rv.take(c + 1);
            assert(t.drop_last() == rv.take(c as int));
            assert(t.last() == row@[c as int]@);
            assert(units@ =~= head + tag_cells(rv.take(c + 1), tag@));
        }
        c = c + 1;
    }
    assert(rv.take(row.len() as int) == rv);
    push(&mut units, "</tr>");
    finish_into(out, &units);
}

/// HTML rows from `from` on.
fn tag_rows_into(out: &mut Vec<char>, table: &Vec<Vec<Vec<u16>>>, from: usize, tag: &str)
    requires
        from <= table.len(),
    ensures
        final(out)@ == old(out)@ + tag_rows(table_view(table@).skip(from as int), tag@),
{
    let ghost tv = table_view(table@);
    let mut i = from;
    while i < table.len()
        invariant
            from <= i <= table.len(),
            tv == table_view(table@),
            out@ == old(out)@ + tag_rows(tv.subrange(from as int, i as int), tag@),
        decreases table.len() - i,
    {
        tag_row(out, &table[i], tag);
        proof {
            let t = tv.subrange(from as int, i + 1);
            assert(t.drop_last() == tv.subrange(from as int, i as int));
            assert(t.last() == cells_view(table@[i as int]@));
        }
        i = i + 1;
    }
    assert(tv.subrange(from as int, table.len() as int) == tv.skip(from as int));
}

/// A `<table>` carrying styling classes.
fn html(out: &mut Vec<char>, table: &Vec<Vec<Vec<u16>>>, header: bool)
    ensures
        final(out)@ == old(out)@ + html_spec(table_view(table@), header),
{
    let ghost tv = table_view(table@);
    push_text(out, "<table class='table table-hover table-sm table-bordered table-nonfluid'>");
    if header && table.len() > 0 {
        push_text(out, "<thead class='thead-light'>");
        tag_row(out, &table[0], "th");
        push_text(out, "</thead>");
        push_text(out, "<tbody>");
        tag_rows_into(out, table, 1, "td");
        push_text(out, "</tbody></table>");
        assert(out@ =~= old(out)@ + html_spec(tv, header));
    } else {
        push_text(out, "<tbody>");
        tag_rows_into(out, table, 0, "td");
        push_text(out, "</tbody></table>");
        assert(tv.skip(0) == tv);
        assert(out@ =~= old(out)@ + html_spec(tv, header));
    }
}

/// A pipe table, whose first row is always the header.
fn markdown(out: &mut Vec<char>, table: &Vec<Vec<Vec<u16>>>, widths: &Vec<usize>)
    requires
        table.len() > 0,
    ensures
        final(out)@ == old(out)@ + markdown_spec(table_view(table@), widths@),
{
    let ghost tv = table_view(table@);
    let first = &table[0];
    assert(tv[0] == cells_view(first@));
    padded_row(out, first, widths);
    let mut divider: Vec<u16> = Vec::new();
    divider.push(PIPE);
    let mut c: usize = 0;
    while c < first.len()
        invariant
            c <= first.len(),
            divider@ == divider_units(c as nat, widths@),
        decreases first.len() - c,
    {
        let ghost before = divider@;
        divider.push(SPACE);
        let width: usize = if c < widths.len() {
            widths[c]
        } else {
            0
        };
        repeat(&mut divider, DASH, width);
        divider.push(SPACE);
        divider.push(PIPE);
        assert(divider@ =~= before + seq![SPACE] + repeat_unit(DASH, width as nat) + seq![SPACE, PIPE]);
        c = c + 1;
    }
    divider.push(NEWLINE);
    finish_into(out, &divider);
    padded_rows_into(out, table, 1, widths);
    assert(out@ =~= old(out)@ + markdown_spec(tv, widths@));
}

/// The input's UTF-16 code units, HTML-escaped, the whole input at once.
pub fn escape_html(input: &str) -> (r: Vec<u16>)
    ensures
        r@ == escape_all(utf16_spec(input@)),
{
    let text = chars_of(input);
    let units = utf16_units(&text);
    let mut escaped: Vec<u16> = Vec::new();
    let mut i: usize = 0;
    while i < units.len()
        invariant
            i <= units.len(),
            escaped@ == escape_all(units@.take(i as int)),
        decreases units.len() - i,
    {
        push_escaped(&mut escaped, units[i]);
        proof {
            let t = units@.take(i + 1);
            assert(t.drop_last() == units@.take(i as int));
            assert(t.last() == units@[i as int]);
        }
        i = i + 1;
    }
    assert(units@.take(units.len() as int) == units@);
    escaped
}

/// Splits the input into cells and renders it. Every character of
/// `cell_delimiters` separates cells, and every character of `row_delimiters`
/// separates rows; input that holds no delimiter gives nothing.
pub fn render(
    input: &str,
    cell_delimiters: &str,
    row_delimiters: &str,
    header: bool,
    format: Format,
) -> (r: String)
    ensures
        r@ == render_spec(input@, cell_delimiters@, row_delimiters@, header, format),
{
    let escaped = escape_html(input);
    let cells = utf16_units(&chars_of(cell_delimiters));
    let rows = utf16_units(&chars_of(row_delimiters));
    let table = parse_delimited(&escaped, &cells, &rows);
    let mut out: Vec<char> = Vec::new();
    if table.len() == 0 {
        return string_of(&out);
    }
    let widths = column_widths(&table);
    match format {
        Format::Ascii => ascii(&mut out, &table, &widths, header),
        Format::Html => html(&mut out, &table, header),
        Format::Markdown => markdown(&mut out, &table, &widths),
    }
    string_of(&out)
}

/// Renders delimited text as a table.
pub struct ToTable {}

impl ToTable {
    /// Creates the operation.
    pub fn new() -> Self {
        ToTable {  }
    }

    /// Renders `input` in the format `format_name` names.
    pub fn execute(
        &self,
        input: &str,
        cell_delimiters: &str,
        row_delimiters: &str,
        header: bool,
        format_name: &str,
    ) -> (r: String)
        ensures
            r@ == render_spec(input@, cell_delimiters@, row_delimiters@, header, format_of(format_name@)),
    {
        render(input, cell_delimiters, row_delimiters, header, format(format_name))
    }
}

} // verus!
