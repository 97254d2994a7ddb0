//! The hex dump that the forwarding log shows of each chunk of data.
use vstd::prelude::*;
use crate::text::{join, lemma_join_push, string_from_chars};

verus! {

/// Bytes shown per row of a dump.
pub const ROW_BYTES: usize = 16;

/// Width to which the hex column of a row is padded (16 bytes: 16 * 3 - 1).
pub const HEX_WIDTH: usize = 47;

/// The lowercase hex digit of a nibble.
pub open spec fn hex_digit(n: u8) -> char
    recommends
        n < 16,
{
    if n < 10 {
        (('0' as u8) + n) as char
    } else {
        (('a' as u8) + (n - 10)) as char
    }
}

/// A byte as two lowercase hex digits (`{:02x}`).
pub open spec fn byte_hex(b: u8) -> Seq<char> {
    seq![hex_digit(b / 16), hex_digit(b % 16)]
}

/// Whether a byte is shown as itself in the text column: the ASCII graphic
/// characters and the space.
pub open spec fn shown_as_itself(b: u8) -> bool {
    0x20 <= b <= 0x7e
}

/// The character that stands for a byte in the text column.
pub open spec fn text_char(b: u8) -> char {
    if shown_as_itself(b) {
        b as char
    } else {
        '.'
    }
}

/// The hex column of a row: the bytes in hex, separated by single spaces.
pub open spec fn hex_field(row: Seq<u8>) -> Seq<char> {
    join(row.map_values(|b: u8| byte_hex(b)), seq![' '])
}

/// `s` padded on the right with spaces to at least `width` characters.
pub open spec fn pad_right(s: Seq<char>, width: nat) -> Seq<char> {
    if s.len() < width {
        s + Seq::new((width - s.len()) as nat, |i: int| ' ')
    } else {
        s
    }
}

/// One row of the dump: two spaces, the padded hex column, two spaces, and the
/// text column between bars.
pub open spec fn row_line(row: Seq<u8>) -> Seq<char> {
    seq![' ', ' '] + pad_right(hex_field(row), HEX_WIDTH as nat) + seq![' ', ' ', '|']
        + row.map_values(|b: u8| text_char(b)) + seq!['|']
}

/// The number of rows of a dump of `n` bytes.
pub open spec fn row_count(n: nat) -> nat {
    (n + 15) / 16
}

/// The `i`-th row of `data`: the bytes from `16 * i` up to 16 of them.
pub open spec fn row_of(data: Seq<u8>, i: int) -> Seq<u8> {
    let start = 16 * i;
    let end = if data.len() < start + 16 { data.len() as int } else { start + 16 };
    data.subrange(start, end)
}

/// The rows of `data`, 16 bytes each but the last.
pub open spec fn rows(data: Seq<u8>) -> Seq<Seq<u8>> {
    Seq::new(row_count(data.len()), |i: int| row_of(data, i))
}

/// The whole dump: the row lines joined by newlines.
pub open spec fn hex_dump_text(data: Seq<u8>) -> Seq<char> {
    join(rows(data).map_values(|r: Seq<u8>| row_line(r)), seq!['\n'])
}

fn hex_digit_exec(n: u8) -> (c: char)
    requires
        n < 16,
    ensures
        c == hex_digit(n),
{
    if n < 10 {
        (('0' as u8) + n) as char
    } else {
        (('a' as u8) + (n - 10)) as char
    }
}

fn text_char_exec(b: u8) -> (c: char)
    ensures
        c == text_char(b),
{
    if 0x20 <= b && b <= 0x7e {
        b as char
    } else {
        '.'
    }
}

/// Appends the line of `data[start..end]` to `out`.
fn push_row_line(out: &mut Vec<char>, data: &[u8], start: usize, end: usize)
    requires
        start < end <= data@.len(),
        end - start <= 16,
    ensures
        final(out)@ == old(out)@ + row_line(data@.subrange(start as int, end as int)),
{
    let ghost row = data@.subrange(start as int, end as int);
    let ghost parts = row.map_values(|b: u8| byte_hex(b));
    let ghost base = old(out)@ + seq![' ', ' '];
    out.push(' ');
    out.push(' ');
    let mut i: usize = start;
    while i < end
        invariant
            start <= i <= end <= data@.len(),
            end - start <= 16,
            row == data@.subrange(start as int, end as int),
            parts == row.map_values(|b: u8| byte_hex(b)),
            out@ == base + join(parts.take(i - start), seq![' ']),
            join(parts.take(i - start), seq![' ']).len() == if i == start { 0 } else { 3 * (i - start) - 1 },
        decreases end - i,
    {
        let b = data[i];
        proof {
            lemma_join_push(parts.take(i - start), seq![' '], byte_hex(b));
            assert(parts.take(i - start).push(byte_hex(b)) =~= parts.take(i + 1 - start));
        }
        if i > start {
            out.push(' ');
        }
        out.push(hex_digit_exec(b / 16));
        out.push(hex_digit_exec(b % 16));
        i = i + 1;
    }
    assert(parts.take(end - start) =~= parts);
    let ghost field = hex_field(row);
    assert(field.len() == 3 * (end - start) - 1);
    let mut w: usize = 3 * (end - start) - 1;
    while w < HEX_WIDTH
        invariant
            3 * (end - start) - 1 <= w <= HEX_WIDTH,
            field.len() == 3 * (end - start) - 1,
            out@ == base + field + Seq::new((w - field.len()) as nat, |k: int| ' '),
        decreases HEX_WIDTH - w,
    {
        out.push(' ');
        w = w + 1;
        assert(out@ =~= base + field + Seq::new((w - field.len()) as nat, |k: int| ' '));
    }
    assert(base + field + Seq::new((w - field.len()) as nat, |k: int| ' ') =~= base + pad_right(field, HEX_WIDTH as nat));
    let ghost before_text = out@;
    out.push(' ');
    out.push(' ');
    out.push('|');
    let mut j: usize = start;
    while j < end
        invariant
            start <= j <= end <= data@.len(),
            row == data@.subrange(start as int, end as int),
            out@ == before_text + seq![' ', ' ', '|'] + row.take(j - start).map_values(|b: u8| text_char(b)),
        decreases end - j,
    {
        let c = text_char_exec(data[j]);
        out.push(c);
        j = j + 1;
        assert(row.take(j - start).map_values(|b: u8| text_char(b)) =~= row.take(j - 1 - start).map_values(|b: u8| text_char(b)).push(c));
    }
    assert(row.take(end - start) =~= row);
    out.push('|');
    assert(out@ =~= old(out)@ + row_line(row));
}

/// Renders `data` as a hex dump: rows of 16 bytes, each showing the bytes in
/// hex (padded to a fixed width) and as text between bars, joined by newlines.
/// Empty data gives the empty string.
pub fn hex_dump(data: &[u8]) -> (res: String)
    ensures
        res@ == hex_dump_text(data@),
{
    let n = data.len();
    let ghost lines = rows(data@).map_values(|r: Seq<u8>| row_line(r));
    let mut out: Vec<char> = Vec::new();
    let mut start: usize = 0;
    let mut k: usize = 0;
    while start < n
        invariant
            n == data@.len(),
            start == if 16 * k <= n { 16 * k } else { n as int },
            k <= row_count(n as nat),
            start < n ==> k < row_count(n as nat),
            start >= n ==> k == row_count(n as nat),
            lines == rows(data@).map_values(|r: Seq<u8>| row_line(r)),
            out@ == join(lines.take(k as int), seq!['\n']),
        decreases n - start,
    {
        let end = if n - start < 16 { n } else { start + 16 };
        proof {
            lemma_join_push(lines.take(k as int), seq!['\n'], row_line(row_of(data@, k as int)));
            assert(lines.take(k as int).push(row_line(row_of(data@, k as int))) =~= lines.take(k + 1));
        }
        if start > 0 {
            out.push('\n');
        }
        push_row_line(&mut out, data, start, end);
        start = end;
        k = k + 1;
    }
    assert(lines.take(k as int) =~= lines);
    string_from_chars(out)
}

} // verus!
