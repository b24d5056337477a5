//! Cutting a text into chunks that fit a terminal of a given width.
use vstd::prelude::*;
use vstd::arithmetic::div_mod::lemma_fundamental_div_mod_converse;
use vstd::arithmetic::mul::lemma_mul_is_distributive_add_other_way;
use vstd::string::*;

verus! {

/// The character sequences that a list of strings holds, in order.
pub open spec fn texts(lines: Seq<String>) -> Seq<Seq<char>> {
    Seq::new(lines.len(), |i: int| lines[i]@)
}

/// `line`, followed by as many spaces as it takes to reach `width` characters.
/// A line that is already that wide is left alone.
pub open spec fn padded(line: Seq<char>, width: nat) -> Seq<char> {
    if line.len() < width {
        line + Seq::new((width - line.len()) as nat, |i: int| ' ')
    } else {
        line
    }
}

/// The form in which a line shorter than the terminal is written: padded to
/// the full width when `fill` is set, unchanged otherwise.
pub open spec fn short_line(line: Seq<char>, width: nat, fill: bool) -> Seq<char> {
    if fill {
        padded(line, width)
    } else {
        line
    }
}

/// The chunks into which `text` is cut for a terminal that is `width` columns
/// wide.
///
/// There are `text.len() / width` chunks of exactly `width` characters, taken
/// from the front of the text, and then one last chunk with the rest, which is
/// shorter than `width` and may be empty. So a text that is exactly as wide as
/// the terminal gives a full chunk and an empty rest.
///
/// A terminal without columns cannot take any chunk: the text is then kept in
/// one piece.
pub open spec fn wrapped(text: Seq<char>, width: nat, fill: bool) -> Seq<Seq<char>> {
    if width == 0 {
        seq![text]
    } else {
        let full = text.len() / width;
        Seq::new(
            full + 1,
            |i: int|
                if i < full {
                    text.subrange(i * width, i * width + width)
                } else {
                    short_line(text.subrange((full * width) as int, text.len() as int), width, fill)
                },
        )
    }
}

/// Pads `line` with spaces up to `width` characters.
pub fn pad(line: &str, width: usize) -> (out: String)
    ensures
        out@ == padded(line@, width as nat),
{
    let mut out = line.to_owned();
    let mut n: usize = line.unicode_len();
    while n < width
        invariant
            line@.len() <= n,
            n <= width || n == line@.len(),
            out@ =~= line@ + Seq::new((n - line@.len()) as nat, |i: int| ' '),
        decreases width - n,
    {
        proof {
            reveal_strlit(" ");
        }
        out.append(" ");
        n = n + 1;
    }
    out
}

/// Cuts `text` into the chunks that are written to a terminal `width` columns
/// wide, the last of them padded when `fill` is set.
pub fn wrap(text: &str, width: usize, fill: bool) -> (chunks: Vec<String>)
    ensures
        texts(chunks@) == wrapped(text@, width as nat, fill),
{
    let mut chunks: Vec<String> = Vec::new();
    if width == 0 {
        chunks.push(text.to_owned());
        return chunks;
    }
    let total: usize = text.unicode_len();
    let mut start: usize = 0;
    assert(0 * width == 0);
    while total - start >= width
        invariant
            width > 0,
            total == text@.len(),
            start <= total,
            start == chunks.len() * width,
            forall|j: int|
                0 <= j < chunks.len() ==> (#[trigger] chunks[j])@ == text@.subrange(
                    j * width,
                    j * width + width,
                ),
        decreases total - start,
    {
        let chunk = text.substring_char(start, start + width);
        chunks.push(chunk.to_owned());
        proof {
            lemma_mul_is_distributive_add_other_way(width as int, chunks.len() - 1, 1);
        }
        start = start + width;
    }
    proof {
        lemma_fundamental_div_mod_converse(
            total as int,
            width as int,
            chunks.len() as int,
            total - start,
        );
    }
    let rest = text.substring_char(start, total);
    if fill {
        chunks.push(pad(rest, width));
    } else {
        chunks.push(rest.to_owned());
    }
    chunks
}

} // verus!
