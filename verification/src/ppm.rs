use crate::lines::{
    last_line_len, lemma_last_line_extends, lemma_lines_within_break, lemma_lines_within_extends,
    lines_within, unbroken,
};
use crate::numerals::{lemma_numeral_shape, numeral, push_numeral};
use vstd::prelude::*;
use vstd::string::StringExecFns;

verus! {

/// The largest value a colour sample takes in the pixel map.
pub const COLORSCALE: i32 = 255;

/// A line of samples is broken before the sample that would bring it to this width.
pub const LINE_BREAK_AT: usize = 68;

/// A channel's value held to the range from 0 to `COLORSCALE`.
pub open spec fn clamped(channel: int) -> int {
    if channel > COLORSCALE {
        COLORSCALE as int
    } else if channel < 0 {
        0
    } else {
        channel
    }
}

/// The sample that is written for a colour channel.
pub fn clamp_color(channel: i32) -> (sample: i32)
    ensures
        sample == clamped(channel as int),
        0 <= sample <= COLORSCALE,
{
    if channel > COLORSCALE {
        COLORSCALE
    } else if channel < 0 {
        0
    } else {
        channel
    }
}

/// Whether a line that is `width` columns wide is broken before a numeral of
/// `digits` digits: it is when the line, with the digits, would reach
/// `LINE_BREAK_AT`.
pub open spec fn breaks_before(width: nat, digits: nat) -> bool {
    width + digits >= LINE_BREAK_AT
}

/// The column from which such a numeral is written, before its separator.
pub open spec fn column_before(width: nat, digits: nat) -> nat {
    if breaks_before(width, digits) {
        0
    } else {
        width
    }
}

/// The width of the last line of `line_text(samples)`.
pub open spec fn line_width(samples: Seq<i32>) -> nat
    decreases samples.len(),
{
    if samples.len() == 0 {
        0
    } else {
        let digits = numeral(samples.last() as int).len();
        let column = column_before(line_width(samples.drop_last()), digits);
        let gap: nat = if column != 0 { 1 } else { 0 };
        column + gap + digits
    }
}

/// The samples as decimal numerals, laid out from left to right. Two samples on
/// one line are parted by a single blank; a line break stands in place of the
/// blank before a sample that would bring the line to `LINE_BREAK_AT` columns.
pub open spec fn line_text(samples: Seq<i32>) -> Seq<char>
    decreases samples.len(),
{
    if samples.len() == 0 {
        Seq::empty()
    } else {
        let last = numeral(samples.last() as int);
        let width = line_width(samples.drop_last());
        let before = line_text(samples.drop_last());
        let broken = if breaks_before(width, last.len()) { before.push('\n') } else { before };
        let parted = if column_before(width, last.len()) != 0 { broken.push(' ') } else { broken };
        parted + last
    }
}

/// Lays the samples of one row out as text.
pub fn colors_to_ppm_string(samples: &[i32]) -> (text: String)
    ensures
        text@ == line_text(samples@),
        lines_within(text@, LINE_BREAK_AT as nat),
{
    proof {
        lemma_line_text_width(samples@);
    }
    let mut pos: usize = 0;
    let mut s = String::new();
    let mut i: usize = 0;
    while i < samples.len()
        invariant
            i <= samples@.len(),
            s@ == line_text(samples@.take(i as int)),
            pos == line_width(samples@.take(i as int)),
            pos <= LINE_BREAK_AT,
        decreases samples@.len() - i,
    {
        let ghost done = samples@.take(i as int);
        let ghost next = samples@.take(i + 1);
        let value: i32 = samples[i];
        proof {
            assert(next.drop_last() =~= done);
            assert(next.last() == value);
            lemma_numeral_shape(value as int);
        }
        let mut n = String::new();
        let width: usize = push_numeral(&mut n, value);
        assert(n@ =~= numeral(value as int));
        if pos + width >= LINE_BREAK_AT {
            s.append("\n");
            pos = 0;
        }
        if pos != 0 {
            s.append(" ");
            pos += 1;
        }
        s.append(n.as_str());
        pos += width;
        proof {
            reveal_strlit("\n");
            reveal_strlit(" ");
            assert("\n"@ =~= seq!['\n']);
            assert(" "@ =~= seq![' ']);
            assert(s@ =~= line_text(next));
        }
        i += 1;
    }
    assert(samples@.take(i as int) =~= samples@);
    s
}

/// A row of samples is laid out in lines of at most `LINE_BREAK_AT` characters,
/// and `line_width` is the length of the last of them.
pub proof fn lemma_line_text_width(samples: Seq<i32>)
    ensures
        lines_within(line_text(samples), LINE_BREAK_AT as nat),
        last_line_len(line_text(samples)) == line_width(samples),
        line_width(samples) <= LINE_BREAK_AT,
    decreases samples.len(),
{
    if samples.len() == 0 {
        assert(forall|i: int|
            0 <= i <= 0 ==> #[trigger] Seq::<char>::empty().take(i) =~= Seq::<char>::empty());
    } else {
        let earlier = samples.drop_last();
        let last = numeral(samples.last() as int);
        let width = line_width(earlier);
        let before = line_text(earlier);
        lemma_line_text_width(earlier);
        lemma_numeral_shape(samples.last() as int);
        let broken = if breaks_before(width, last.len()) {
            before.push('\n')
        } else {
            before
        };
        if breaks_before(width, last.len()) {
            lemma_lines_within_break(before, LINE_BREAK_AT as nat);
        }
        let column = column_before(width, last.len());
        assert(last_line_len(broken) == column);
        let parted = if column != 0 {
            broken.push(' ')
        } else {
            broken
        };
        if column != 0 {
            assert(unbroken(seq![' ']));
            assert(broken.push(' ') =~= broken + seq![' ']);
            lemma_lines_within_extends(broken, seq![' '], LINE_BREAK_AT as nat);
            lemma_last_line_extends(broken, seq![' ']);
        }
        lemma_lines_within_extends(parted, last, LINE_BREAK_AT as nat);
        lemma_last_line_extends(parted, last);
    }
}

} // verus!
