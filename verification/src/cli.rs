//! The rules of the command line: the display limit, title clean-up,
//! truncation and the layout of the content table.
use crate::model::NormalizedItem;
use crate::text::{
    chars_of, eq_ignore_ascii_case, eq_ignore_ascii_case_exec, parse_unsigned, parse_usize,
    push_char, push_chars, push_str, replace_all, replace_exec, string_of,
};
use vstd::prelude::*;
use vstd::utf8::encode_utf8;

verus! {

/// How many content items the table shows.
#[derive(Debug, Clone, Copy, PartialEq, Eq, Structural)]
pub enum DisplayLimit {
    All,
    Count(usize),
}

/// What `parse_display_limit` gives for a command-line value.
pub open spec fn display_limit_of(value: Seq<char>) -> Result<DisplayLimit, Seq<char>> {
    if eq_ignore_ascii_case(value, "all"@) {
        Ok(DisplayLimit::All)
    } else {
        match parse_unsigned(value, usize::MAX as nat) {
            None => Err("invalid limit `"@ + value + "`: use a positive integer or `all`"@),
            Some(n) => if n == 0 {
                Err("limit must be greater than zero or `all`"@)
            } else {
                Ok(DisplayLimit::Count(n as usize))
            },
        }
    }
}

/// Parse a `--limit` value: `all` in any ASCII case, or a positive count.
pub fn parse_display_limit(value: &str) -> (r: Result<DisplayLimit, String>)
    ensures
        match display_limit_of(value@) {
            Ok(l) => r == Ok::<DisplayLimit, String>(l),
            Err(m) => r matches Err(e) && e@ == m,
        },
{
    let cs = chars_of(value);
    let all = chars_of("all");
    if eq_ignore_ascii_case_exec(cs.as_slice(), all.as_slice()) {
        return Ok(DisplayLimit::All);
    }
    match parse_usize(cs.as_slice()) {
        None => {
            let mut m = String::new();
            push_str(&mut m, "invalid limit `");
            push_str(&mut m, value);
            push_str(&mut m, "`: use a positive integer or `all`");
            assert(m@ =~= "invalid limit `"@ + value@ + "`: use a positive integer or `all`"@);
            Err(m)
        },
        Some(n) => {
            if n == 0 {
                let mut m = String::new();
                push_str(&mut m, "limit must be greater than zero or `all`");
                assert(m@ =~= "limit must be greater than zero or `all`"@);
                Err(m)
            } else {
                Ok(DisplayLimit::Count(n))
            }
        },
    }
}

/// How many of `len` items a limit lets through.
pub open spec fn limited_len(len: nat, limit: DisplayLimit) -> nat {
    match limit {
        DisplayLimit::All => len,
        DisplayLimit::Count(c) => if c < len {
            c as nat
        } else {
            len
        },
    }
}

/// The first items that the display limit lets through.
pub fn apply_display_limit<'a>(items: &'a [NormalizedItem], limit: &DisplayLimit) -> (r: &'a [NormalizedItem])
    ensures
        r@ == items@.take(limited_len(items@.len(), *limit) as int),
{
    match limit {
        DisplayLimit::All => {
            assert(items@.take(items@.len() as int) =~= items@);
            items
        },
        DisplayLimit::Count(count) => {
            let n = if items.len() < *count {
                items.len()
            } else {
                *count
            };
            let r = &items[0..n];
            assert(r@ =~= items@.take(n as int));
            r
        },
    }
}

/// A title with its `<br/>` tags removed.
pub open spec fn title_for_display(title: Seq<char>) -> Seq<char> {
    replace_all(title, "<br/>"@, ""@)
}

/// Remove the `<br/>` tags that titles carry.
pub fn sanitize_title_for_display(title: &str) -> (r: String)
    ensures
        r@ == title_for_display(title@),
{
    let cs = chars_of(title);
    let br = chars_of("<br/>");
    proof {
        reveal_strlit("<br/>");
    }
    let empty: Vec<char> = Vec::new();
    assert(empty@ =~= ""@) by {
        reveal_strlit("");
    }
    let out = replace_exec(cs.as_slice(), br.as_slice(), empty.as_slice());
    string_of(out.as_slice())
}

/// Text cut to `width` characters; text that is too long ends in `...`
/// when there is room for it.
pub open spec fn truncated(text: Seq<char>, width: nat) -> Seq<char> {
    if width == 0 {
        Seq::empty()
    } else if text.len() <= width {
        text
    } else if width <= 3 {
        text.take(width as int)
    } else {
        text.take(width - 3) + "..."@
    }
}

/// Cut text to `width` characters for a table cell.
pub fn truncate(text: &str, width: usize) -> (r: String)
    ensures
        r@ == truncated(text@, width as nat),
{
    if width == 0 {
        return String::new();
    }
    let cs = chars_of(text);
    if cs.len() <= width {
        return string_of(cs.as_slice());
    }
    if width <= 3 {
        return string_of(&cs[0..width]);
    }
    let mut r = string_of(&cs[0..width - 3]);
    push_str(&mut r, "...");
    r
}

/// A truncated text never has more characters than the width it was cut to.
pub proof fn lemma_truncated_fits(text: Seq<char>, width: nat)
    ensures
        truncated(text, width).len() <= width,
        text.len() <= width ==> truncated(text, width) == text,
{
    if width > 3 && text.len() > width {
        reveal_strlit("...");
    }
}

/// The number of bytes that the UTF-8 encoding of a text takes.
pub open spec fn utf8_len(s: Seq<char>) -> nat {
    encode_utf8(s).len()
}

/// `s` padded on the right with spaces to `width` characters.
pub open spec fn pad_right(s: Seq<char>, width: nat) -> Seq<char> {
    if s.len() >= width {
        s
    } else {
        s + Seq::new((width - s.len()) as nat, |i: int| ' ')
    }
}

/// The three cells of an item's table row.
pub open spec fn row_cells(item: NormalizedItem) -> Seq<Seq<char>> {
    seq![
        item.asset_id@,
        if item.size@.len() == 0 { "-"@ } else { item.size@ },
        if item.title@.len() == 0 { "-"@ } else { title_for_display(item.title@) },
    ]
}

/// The table's column headers.
pub open spec fn table_headers() -> Seq<Seq<char>> {
    seq!["ASSET_ID"@, "SIZE"@, "TITLE"@]
}

/// The widest a column may become.
pub open spec fn max_column_width(c: int) -> nat {
    if c == 0 {
        24
    } else if c == 1 {
        10
    } else {
        60
    }
}

/// The longest (in UTF-8 bytes) cell of column `c` among the first `n` items.
pub open spec fn longest_cell(items: Seq<NormalizedItem>, c: int, n: int) -> nat
    decreases n,
{
    if n <= 0 {
        0
    } else {
        let rest = longest_cell(items, c, n - 1);
        let here = utf8_len(row_cells(items[n - 1])[c]);
        if here > rest {
            here
        } else {
            rest
        }
    }
}

/// The width of column `c`: as wide as its header and its longest cell,
/// measured in UTF-8 bytes, but no wider than its maximum.
pub open spec fn column_width(items: Seq<NormalizedItem>, c: int) -> nat {
    let header = utf8_len(table_headers()[c]);
    let longest = longest_cell(items, c, items.len() as int);
    let w = if header > longest {
        header
    } else {
        longest
    };
    if w < max_column_width(c) {
        w
    } else {
        max_column_width(c)
    }
}

/// Three cells laid out in a line, two spaces apart.
pub open spec fn table_line(cells: Seq<Seq<char>>) -> Seq<char> {
    cells[0] + "  "@ + cells[1] + "  "@ + cells[2]
}

/// The lines of the content table: the header line, a line of dashes, and a
/// line per item with each cell truncated and padded to its column's width.
pub open spec fn table_lines(items: Seq<NormalizedItem>) -> Seq<Seq<char>> {
    let w = Seq::new(3, |c: int| column_width(items, c));
    seq![
        table_line(Seq::new(3, |c: int| pad_right(table_headers()[c], w[c]))),
        table_line(Seq::new(3, |c: int| Seq::new(w[c], |i: int| '-'))),
    ] + Seq::new(
        items.len(),
        |k: int| table_line(Seq::new(3, |c: int| pad_right(truncated(row_cells(items[k])[c], w[c]), w[c]))),
    )
}

/// Padding to a width never shortens a text, and a text no longer than the
/// width comes out exactly that wide.
proof fn lemma_pad_right_len(s: Seq<char>, width: nat)
    ensures
        s.len() <= width ==> pad_right(s, width).len() == width,
        pad_right(s, width).len() >= s.len(),
{
}

/// A header is never wider than its column.
proof fn lemma_header_fits(items: Seq<NormalizedItem>, c: int)
    requires
        0 <= c < 3,
    ensures
        table_headers()[c].len() <= column_width(items, c),
{
    reveal_strlit("ASSET_ID");
    reveal_strlit("SIZE");
    reveal_strlit("TITLE");
    let h = table_headers()[c];
    assert(vstd::utf8::is_ascii_chars(h));
    vstd::utf8::is_ascii_chars_encode_utf8(h);
}

/// The content table is aligned: every line, the header and the line of
/// dashes included, has the same number of characters, the widths of the
/// three columns plus two gaps of two spaces.
pub proof fn lemma_table_lines_aligned(items: Seq<NormalizedItem>)
    ensures
        table_lines(items).len() == items.len() + 2,
        forall|i: int|
            0 <= i < table_lines(items).len() ==> #[trigger] table_lines(items)[i].len()
                == column_width(items, 0) + column_width(items, 1) + column_width(items, 2) + 4,
{
    let w = Seq::new(3, |c: int| column_width(items, c));
    reveal_strlit("  ");
    assert forall|c: int| 0 <= c < 3 implies #[trigger] pad_right(table_headers()[c], w[c]).len()
        == w[c] by {
        lemma_header_fits(items, c);
        lemma_pad_right_len(table_headers()[c], w[c]);
    }
    assert forall|k: int, c: int| 0 <= k < items.len() && 0 <= c < 3 implies #[trigger] pad_right(
        truncated(row_cells(items[k])[c], w[c]),
        w[c],
    ).len() == w[c] by {
        lemma_truncated_fits(row_cells(items[k])[c], w[c]);
        lemma_pad_right_len(truncated(row_cells(items[k])[c], w[c]), w[c]);
    }
    assert forall|i: int| 0 <= i < table_lines(items).len() implies #[trigger] table_lines(items)[i].len()
        == column_width(items, 0) + column_width(items, 1) + column_width(items, 2) + 4 by {
        if i >= 2 {
            let k = i - 2;
            let cells = Seq::new(
                3,
                |c: int| pad_right(truncated(row_cells(items[k])[c], w[c]), w[c]),
            );
            assert(cells[0].len() == w[0]);
            assert(cells[1].len() == w[1]);
            assert(cells[2].len() == w[2]);
        } else if i == 0 {
            let cells = Seq::new(3, |c: int| pad_right(table_headers()[c], w[c]));
            assert(cells[0].len() == w[0]);
            assert(cells[1].len() == w[1]);
            assert(cells[2].len() == w[2]);
        }
    }
}

fn table_header(c: usize) -> (r: &'static str)
    requires
        c < 3,
    ensures
        r@ == table_headers()[c as int],
{
    if c == 0 {
        "ASSET_ID"
    } else if c == 1 {
        "SIZE"
    } else {
        "TITLE"
    }
}

fn max_width_of(c: usize) -> (r: usize)
    requires
        c < 3,
    ensures
        r == max_column_width(c as int),
{
    if c == 0 {
        24
    } else if c == 1 {
        10
    } else {
        60
    }
}

/// Cell `c` of an item's row.
fn row_cell(item: &NormalizedItem, c: usize) -> (r: String)
    requires
        c < 3,
    ensures
        r@ == row_cells(*item)[c as int],
{
    if c == 0 {
        item.asset_id.clone()
    } else if c == 1 {
        if item.size.as_str().is_empty() {
            string_of(chars_of("-").as_slice())
        } else {
            item.size.clone()
        }
    } else {
        if item.title.as_str().is_empty() {
            string_of(chars_of("-").as_slice())
        } else {
            sanitize_title_for_display(item.title.as_str())
        }
    }
}

/// Appends `s` padded on the right with spaces to `width` characters.
fn push_padded_right(out: &mut String, s: &str, width: usize)
    ensures
        final(out)@ == old(out)@ + pad_right(s@, width as nat),
{
    let cs = chars_of(s);
    let ghost start = out@;
    push_chars(out, cs.as_slice());
    if cs.len() < width {
        let pad = width - cs.len();
        for i in 0..pad
            invariant
                out@ == start + s@ + Seq::new(i as nat, |k: int| ' '),
        {
            push_char(out, ' ');
            assert(out@ =~= start + s@ + Seq::new((i + 1) as nat, |k: int| ' '));
        }
    }
    assert(out@ =~= start + pad_right(s@, width as nat));
}

/// The width of column `c` for these items.
fn column_width_exec(items: &[NormalizedItem], c: usize) -> (w: usize)
    requires
        c < 3,
    ensures
        w == column_width(items@, c as int),
{
    let mut longest: usize = 0;
    let mut k: usize = 0;
    while k < items.len()
        invariant
            c < 3,
            k <= items.len(),
            longest == longest_cell(items@, c as int, k as int),
        decreases items.len() - k,
    {
        let cell = row_cell(&items[k], c);
        let here = cell.as_str().as_bytes().len();
        if here > longest {
            longest = here;
        }
        k = k + 1;
    }
    let header = table_header(c).as_bytes().len();
    let w = if header > longest {
        header
    } else {
        longest
    };
    let m = max_width_of(c);
    if w < m {
        w
    } else {
        m
    }
}

/// The lines of the table that `getinfo` prints for the content items.
pub fn getinfo_table_lines(items: &[NormalizedItem]) -> (lines: Vec<String>)
    ensures
        lines@.len() == items@.len() + 2,
        forall|i: int| 0 <= i < lines@.len() ==> #[trigger] lines@[i]@ == table_lines(items@)[i],
{
    let ghost spec_lines = table_lines(items@);
    let w0 = column_width_exec(items, 0);
    let w1 = column_width_exec(items, 1);
    let w2 = column_width_exec(items, 2);
    let ghost ws = Seq::new(3, |c: int| column_width(items@, c));
    assert(ws[0] == w0 && ws[1] == w1 && ws[2] == w2);
    let mut lines: Vec<String> = Vec::new();

    let mut header_line = String::new();
    push_padded_right(&mut header_line, table_header(0), w0);
    push_str(&mut header_line, "  ");
    push_padded_right(&mut header_line, table_header(1), w1);
    push_str(&mut header_line, "  ");
    push_padded_right(&mut header_line, table_header(2), w2);
    assert(header_line@ =~= spec_lines[0]);
    lines.push(header_line);

    let mut separator = String::new();
    push_dashes(&mut separator, w0);
    push_str(&mut separator, "  ");
    push_dashes(&mut separator, w1);
    push_str(&mut separator, "  ");
    push_dashes(&mut separator, w2);
    assert(separator@ =~= spec_lines[1]);
    lines.push(separator);

    let mut k: usize = 0;
    while k < items.len()
        invariant
            k <= items.len(),
            spec_lines == table_lines(items@),
            w0 == column_width(items@, 0),
            w1 == column_width(items@, 1),
            w2 == column_width(items@, 2),
            lines@.len() == k + 2,
            forall|i: int| 0 <= i < k + 2 ==> #[trigger] lines@[i]@ == spec_lines[i],
        decreases items.len() - k,
    {
        let item = &items[k];
        let mut line = String::new();
        let c0 = truncate(row_cell(item, 0).as_str(), w0);
        push_padded_right(&mut line, c0.as_str(), w0);
        push_str(&mut line, "  ");
        let c1 = truncate(row_cell(item, 1).as_str(), w1);
        push_padded_right(&mut line, c1.as_str(), w1);
        push_str(&mut line, "  ");
        let c2 = truncate(row_cell(item, 2).as_str(), w2);
        push_padded_right(&mut line, c2.as_str(), w2);
        assert(line@ =~= spec_lines[k + 2]);
        lines.push(line);
        k = k + 1;
    }
    lines
}

/// Appends `n` dashes.
fn push_dashes(out: &mut String, n: usize)
    ensures
        final(out)@ == old(out)@ + Seq::new(n as nat, |i: int| '-'),
{
    let ghost start = out@;
    for i in 0..n
        invariant
            out@ == start + Seq::new(i as nat, |k: int| '-'),
    {
        push_char(out, '-');
        assert(out@ =~= start + Seq::new((i + 1) as nat, |k: int| '-'));
    }
}

} // verus!
