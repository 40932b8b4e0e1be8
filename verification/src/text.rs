//! Lines, blank-separated tokens and run signatures in the bytes of a text.

use crate::model::{nested_view, Signature};
use vstd::prelude::*;
use vstd::slice::{slice_subrange, slice_to_vec};

verus! {

/// Ends a line.
pub const LINE_FEED: u8 = 0x0a;

/// A blank.
pub const SPACE: u8 = 0x20;

/// A blank.
pub const TAB: u8 = 0x09;

/// A blank; before a line feed it belongs to the end of the line.
pub const CARRIAGE_RETURN: u8 = 0x0d;

/// Marks a clue position, and parts the two runs of a clue token.
pub const BACKSLASH: u8 = 0x5c;

/// Marks a blocked position, stands for no run, and parts sum and length.
pub const HYPHEN: u8 = 0x2d;

/// Parts the digits of a combination.
pub const COMMA: u8 = 0x2c;

/// Opens a combination.
pub const OPEN_BRACKET: u8 = 0x5b;

/// Closes a combination.
pub const CLOSE_BRACKET: u8 = 0x5d;

/// The letter that marks a fillable position.
pub const FILLABLE: u8 = 0x78;

/// The digit zero; the other digits follow it.
pub const ZERO: u8 = 0x30;

/// The digit nine.
pub const NINE: u8 = 0x39;

/// A set of bytes that a scan passes over.
#[derive(Clone, Copy, Debug, PartialEq, Eq)]
pub enum ByteClass {
    /// Every byte but the line feed.
    InLine,
    /// Space, tab and carriage return.
    Blank,
    /// Every byte that is not blank.
    InToken,
    /// Every byte but the backslash.
    InPart,
}

/// The byte separates tokens.
pub open spec fn is_blank(b: u8) -> bool {
    b == SPACE || b == TAB || b == CARRIAGE_RETURN
}

/// The byte belongs to the class.
pub open spec fn in_class(class: ByteClass, b: u8) -> bool {
    match class {
        ByteClass::InLine => b != LINE_FEED,
        ByteClass::Blank => is_blank(b),
        ByteClass::InToken => !is_blank(b),
        ByteClass::InPart => b != BACKSLASH,
    }
}

/// The first index at or after `from` whose byte is not in `class`; the
/// length of `s` where every byte from there on is in it.
pub open spec fn span_end(s: Seq<u8>, from: int, class: ByteClass) -> int
    decreases s.len() - from,
{
    if 0 <= from < s.len() && in_class(class, s[from]) {
        span_end(s, from + 1, class)
    } else {
        from
    }
}

/// A scan ends between its start and the end of the bytes, passes only
/// bytes of the class, and ends before a byte outside the class or at the
/// end.
pub proof fn lemma_span_end_bounds(s: Seq<u8>, from: int, class: ByteClass)
    requires
        0 <= from <= s.len(),
    ensures
        from <= span_end(s, from, class) <= s.len(),
        span_end(s, from, class) < s.len() ==> !in_class(class, s[span_end(s, from, class)]),
        forall|i: int| from <= i < span_end(s, from, class) ==> in_class(class, #[trigger] s[i]),
    decreases s.len() - from,
{
    if from < s.len() && in_class(class, s[from]) {
        lemma_span_end_bounds(s, from + 1, class);
    }
}

/// A scan that passed only bytes of the class and stopped at the first other
/// byte, or at the end, stopped where `span_end` says.
pub proof fn lemma_span_end_is(s: Seq<u8>, from: int, class: ByteClass, end: int)
    requires
        0 <= from <= end <= s.len(),
        forall|i: int| from <= i < end ==> in_class(class, #[trigger] s[i]),
        end < s.len() ==> !in_class(class, s[end]),
    ensures
        span_end(s, from, class) == end,
    decreases end - from,
{
    if from < end {
        assert(in_class(class, s[from]));
        lemma_span_end_is(s, from + 1, class, end);
    }
}

/// The lines of `text` that start at or after index `from`. A line ends
/// before a line feed or at the end of the text; a line feed at the very end
/// starts no further line.
pub open spec fn lines_from(text: Seq<u8>, from: int) -> Seq<Seq<u8>>
    decreases text.len() + 1 - from,
{
    if 0 <= from < text.len() {
        let end = span_end(text, from, ByteClass::InLine);
        proof {
            lemma_span_end_bounds(text, from, ByteClass::InLine);
        }
        seq![text.subrange(from, end)] + lines_from(text, end + 1)
    } else {
        Seq::empty()
    }
}

/// The lines of a text.
pub open spec fn lines(text: Seq<u8>) -> Seq<Seq<u8>> {
    lines_from(text, 0)
}

/// The tokens of `line` that start at or after index `from`: the maximal
/// stretches of bytes that are not blank.
pub open spec fn tokens_from(line: Seq<u8>, from: int) -> Seq<Seq<u8>>
    decreases line.len() - from,
{
    if 0 <= from < line.len() {
        let start = span_end(line, from, ByteClass::Blank);
        let end = span_end(line, start, ByteClass::InToken);
        proof {
            lemma_span_end_bounds(line, from, ByteClass::Blank);
            lemma_span_end_bounds(line, start, ByteClass::InToken);
        }
        if start < end {
            seq![line.subrange(start, end)] + tokens_from(line, end)
        } else {
            Seq::empty()
        }
    } else {
        Seq::empty()
    }
}

/// The tokens of a line.
pub open spec fn tokens(line: Seq<u8>) -> Seq<Seq<u8>> {
    tokens_from(line, 0)
}

/// The byte is a decimal digit.
pub open spec fn is_digit(b: u8) -> bool {
    ZERO <= b <= NINE
}

/// The byte is a decimal digit other than zero.
pub open spec fn is_nonzero_digit(b: u8) -> bool {
    ZERO < b <= NINE
}

/// The signature that `part` writes: a sum from 1 to 45 in decimal without a
/// leading zero, a hyphen, and a length from 1 to 9. `None` for any other
/// bytes.
pub open spec fn signature_of(part: Seq<u8>) -> Option<Signature> {
    if part.len() == 3 && is_nonzero_digit(part[0]) && part[1] == HYPHEN && is_nonzero_digit(
        part[2],
    ) {
        Some(Signature { sum: (part[0] - ZERO) as u8, length: (part[2] - ZERO) as u8 })
    } else if part.len() == 4 && is_nonzero_digit(part[0]) && is_digit(part[1]) && part[2] == HYPHEN
        && is_nonzero_digit(part[3]) && 10 * (part[0] - ZERO) + (part[1] - ZERO) <= 45 {
        Some(
            Signature {
                sum: (10 * (part[0] - ZERO) + (part[1] - ZERO)) as u8,
                length: (part[3] - ZERO) as u8,
            },
        )
    } else {
        None
    }
}

/// The bytes that write a signature.
pub open spec fn signature_bytes(sig: Signature) -> Seq<u8> {
    if sig.sum < 10 {
        seq![(sig.sum + ZERO) as u8, HYPHEN, (sig.length + ZERO) as u8]
    } else {
        seq![
            (sig.sum / 10 + ZERO) as u8,
            (sig.sum % 10 + ZERO) as u8,
            HYPHEN,
            (sig.length + ZERO) as u8,
        ]
    }
}

/// Only valid signatures are written, each in exactly one way.
pub proof fn lemma_signature_of_bytes(part: Seq<u8>)
    ensures
        match signature_of(part) {
            Some(sig) => sig.valid() && signature_bytes(sig) == part,
            None => true,
        },
{
    match signature_of(part) {
        Some(sig) => {
            assert(signature_bytes(sig) =~= part);
        },
        None => {},
    }
}

/// Reading what was written gives the signature back.
pub proof fn lemma_signature_round_trip(sig: Signature)
    requires
        sig.valid(),
    ensures
        signature_of(signature_bytes(sig)) == Some(sig),
{
}

fn has_class(class: ByteClass, b: u8) -> (r: bool)
    ensures
        r == in_class(class, b),
{
    match class {
        ByteClass::InLine => b != LINE_FEED,
        ByteClass::Blank => b == SPACE || b == TAB || b == CARRIAGE_RETURN,
        ByteClass::InToken => !(b == SPACE || b == TAB || b == CARRIAGE_RETURN),
        ByteClass::InPart => b != BACKSLASH,
    }
}

/// Scans `s` from `from` over the bytes of `class`.
pub fn scan(s: &[u8], from: usize, class: ByteClass) -> (end: usize)
    ensures
        end == span_end(s@, from as int, class),
        from <= end,
        from <= s@.len() ==> end <= s@.len(),
{
    if from >= s.len() {
        return from;
    }
    let mut end = from;
    while end < s.len() && has_class(class, s[end])
        invariant
            from <= end <= s@.len(),
            forall|i: int| from <= i < end ==> in_class(class, #[trigger] s@[i]),
        decreases s@.len() - end,
    {
        end += 1;
    }
    proof {
        lemma_span_end_is(s@, from as int, class, end as int);
    }
    end
}

/// Splits a text into its lines.
pub fn split_lines(text: &[u8]) -> (out: Vec<Vec<u8>>)
    ensures
        nested_view(out@) == lines(text@),
{
    let mut out: Vec<Vec<u8>> = Vec::new();
    let mut pos: usize = 0;
    while pos < text.len()
        invariant
            pos <= text@.len(),
            nested_view(out@) + lines_from(text@, pos as int) == lines(text@),
        decreases text@.len() - pos,
    {
        let end = scan(text, pos, ByteClass::InLine);
        let line = slice_to_vec(slice_subrange(text, pos, end));
        proof {
            let done = nested_view(out@);
            let rest = lines_from(text@, end + 1);
            assert(nested_view(out@.push(line)) =~= done + seq![line@]);
            assert((done + seq![line@]) + rest =~= done + (seq![line@] + rest));
        }
        out.push(line);
        pos = if end < text.len() {
            end + 1
        } else {
            end
        };
    }
    out
}

/// Splits a line into its tokens.
pub fn split_tokens(line: &[u8]) -> (out: Vec<Vec<u8>>)
    ensures
        nested_view(out@) == tokens(line@),
{
    let mut out: Vec<Vec<u8>> = Vec::new();
    let mut pos: usize = 0;
    loop
        invariant
            pos <= line@.len(),
            nested_view(out@) + tokens_from(line@, pos as int) == tokens(line@),
        ensures
            nested_view(out@) == tokens(line@),
        decreases line@.len() - pos,
    {
        if pos >= line.len() {
            break;
        }
        let start = scan(line, pos, ByteClass::Blank);
        let end = scan(line, start, ByteClass::InToken);
        if start >= end {
            break;
        }
        let token = slice_to_vec(slice_subrange(line, start, end));
        proof {
            let done = nested_view(out@);
            let rest = tokens_from(line@, end as int);
            assert(nested_view(out@.push(token)) =~= done + seq![token@]);
            assert((done + seq![token@]) + rest =~= done + (seq![token@] + rest));
        }
        out.push(token);
        pos = end;
    }
    out
}

/// Reads a signature.
pub fn parse_signature(part: &[u8]) -> (r: Option<Signature>)
    ensures
        r == signature_of(part@),
{
    let n = part.len();
    if n == 3 {
        let a = part[0];
        let l = part[2];
        if ZERO < a && a <= NINE && part[1] == HYPHEN && ZERO < l && l <= NINE {
            return Some(Signature { sum: a - ZERO, length: l - ZERO });
        }
        None
    } else if n == 4 {
        let a = part[0];
        let b = part[1];
        let l = part[3];
        if ZERO < a && a <= NINE && ZERO <= b && b <= NINE && part[2] == HYPHEN && ZERO < l && l
            <= NINE {
            let sum: u8 = 10 * (a - ZERO) + (b - ZERO);
            if sum <= 45 {
                return Some(Signature { sum, length: l - ZERO });
            }
        }
        None
    } else {
        None
    }
}

/// Writes a signature; `None` where it is not valid.
pub fn signature_text(sig: Signature) -> (r: Option<Vec<u8>>)
    ensures
        match r {
            Some(out) => sig.valid() && out@ == signature_bytes(sig),
            None => !sig.valid(),
        },
{
    if !sig.is_valid() {
        return None;
    }
    let mut out: Vec<u8> = Vec::new();
    if sig.sum >= 10 {
        out.push(sig.sum / 10 + ZERO);
        out.push(sig.sum % 10 + ZERO);
    } else {
        out.push(sig.sum + ZERO);
    }
    out.push(HYPHEN);
    out.push(sig.length + ZERO);
    Some(out)
}

} // verus!
