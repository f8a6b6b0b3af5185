//! Helpers for assembling CRLF-framed responses.
use crate::text;
use crate::text::CharClass;
use vstd::prelude::*;
use vstd::utf8::*;

verus! {

/// Carriage return.
pub const CR: u8 = 13;

/// Line feed.
pub const LF: u8 = 10;

/// `line` without the carriage returns and line feeds that it ends with.
pub open spec fn without_ending(line: Seq<char>) -> Seq<char> {
    text::trim_back(line, CharClass::LineEnd)
}

/// The bytes of one line on the wire: its text and a single CRLF.
pub open spec fn framed(line: Seq<char>) -> Seq<u8> {
    encode_utf8(without_ending(line)) + seq![CR, LF]
}

/// The bytes of several lines on the wire, one after the other.
pub open spec fn framed_lines(lines: Seq<Seq<char>>) -> Seq<u8>
    decreases lines.len(),
{
    if lines.len() == 0 {
        seq![]
    } else {
        framed_lines(lines.drop_last()) + framed(lines.last())
    }
}

/// Buffer that serialises individual lines using CRLF line endings.
#[derive(Debug)]
pub struct CrlfBuffer {
    bytes: Vec<u8>,
}

impl View for CrlfBuffer {
    type V = Seq<u8>;

    closed spec fn view(&self) -> Seq<u8> {
        self.bytes@
    }
}

impl Default for CrlfBuffer {
    fn default() -> (r: Self)
        ensures
            r@ == Seq::<u8>::empty(),
    {
        CrlfBuffer { bytes: Vec::new() }
    }
}

impl CrlfBuffer {
    /// Create a buffer with the provided capacity.
    pub fn with_capacity(capacity: usize) -> (r: CrlfBuffer)
        requires
            capacity <= isize::MAX,
        ensures
            r@ == Seq::<u8>::empty(),
    {
        CrlfBuffer { bytes: Vec::with_capacity(capacity) }
    }

    /// Append a line, ensuring it is terminated with CRLF without duplicating
    /// existing endings.
    pub fn push_line(&mut self, line: &str)
        ensures
            final(self)@ == old(self)@ + framed(line@),
    {
        let trimmed = trim_line_endings(line);
        let ghost before = self.bytes@;
        self.bytes.extend_from_slice(trimmed.as_bytes());
        assert(self.bytes@ =~= before + encode_utf8(trimmed@));
        self.bytes.push(CR);
        self.bytes.push(LF);
        assert(self.bytes@ =~= before + framed(line@));
    }

    /// Consume the buffer and return the accumulated bytes.
    pub fn into_bytes(self) -> (r: Vec<u8>)
        ensures
            r@ == self@,
    {
        self.bytes
    }
}

/// Remove trailing CR and/or LF characters from a line.
pub fn trim_line_endings(line: &str) -> (r: &str)
    ensures
        r@ == without_ending(line@),
{
    text::trim_back_str(line, CharClass::LineEnd)
}

/// Line endings that a line already carries, however many, change nothing about
/// how it is framed.
pub proof fn law_existing_endings_are_not_duplicated(line: Seq<char>, ending: Seq<char>)
    requires
        forall|i: int| 0 <= i < ending.len() ==> #[trigger] ending[i] == '\r' || ending[i] == '\n',
    ensures
        framed(line + ending) == framed(line),
{
    text::lemma_trim_back_padding(line, ending, CharClass::LineEnd);
}

/// Trimming line endings twice is trimming them once.
pub proof fn law_trimming_endings_is_idempotent(line: Seq<char>)
    ensures
        without_ending(without_ending(line)) == without_ending(line),
{
    text::lemma_trim_back_end(line, CharClass::LineEnd);
}

/// A framed line ends with one CRLF, and what comes before it ends with neither a
/// carriage return nor a line feed.
pub proof fn law_framed_line_ends_once(line: Seq<char>)
    ensures
        framed(line).len() >= 2,
        framed(line)[framed(line).len() - 2] == CR,
        framed(line)[framed(line).len() - 1] == LF,
        framed(line).len() > 2 ==> framed(line)[framed(line).len() - 3] != CR && framed(
            line,
        )[framed(line).len() - 3] != LF,
{
    let body = without_ending(line);
    text::lemma_trim_back_end(line, CharClass::LineEnd);
    if body.len() > 0 {
        let c = body.last();
        assert(body =~= body.drop_last() + seq![c]);
        text::lemma_encode_concat(body.drop_last(), seq![c]);
        assert(seq![c].drop_first() =~= Seq::<char>::empty());
        reveal_with_fuel(encode_utf8, 2);
        assert(encode_utf8(seq![c]) =~= encode_scalar(c as u32));
        lemma_last_byte(c);
    }
}

/// The encoding of a character other than CR and LF ends with neither byte.
proof fn lemma_last_byte(c: char)
    requires
        c != '\r',
        c != '\n',
    ensures
        encode_scalar(c as u32).len() > 0,
        encode_scalar(c as u32).last() != 13,
        encode_scalar(c as u32).last() != 10,
{
    let v = c as u32;
    if has_width_1_encoding(v) {
        assert((v & 0x7F) as u8 != 13 && (v & 0x7F) as u8 != 10) by (bit_vector)
            requires
                v <= 0x7F,
                v != 13,
                v != 10,
        ;
    } else {
        assert(0x80 | (v & 0x3F) as u8 >= 0x80) by (bit_vector);
    }
}

/// Framing lines one after the other is framing each and joining the results.
pub proof fn law_framing_is_line_by_line(a: Seq<Seq<char>>, b: Seq<Seq<char>>)
    ensures
        framed_lines(a + b) == framed_lines(a) + framed_lines(b),
    decreases b.len(),
{
    if b.len() == 0 {
        assert(a + b =~= a);
        assert(framed_lines(a) + framed_lines(b) =~= framed_lines(a));
    } else {
        assert((a + b).drop_last() =~= a + b.drop_last());
        law_framing_is_line_by_line(a, b.drop_last());
        assert(framed_lines(a) + framed_lines(b.drop_last()) + framed(b.last()) =~= framed_lines(a)
            + framed_lines(b));
    }
}

/// A text that ends with neither CR nor LF is framed as its UTF-8 bytes and one CRLF,
/// whatever line endings stand behind it.
pub proof fn law_framed_line_is_its_text_and_crlf(text: Seq<char>, ending: Seq<char>)
    requires
        text.len() > 0 ==> text[text.len() - 1] != '\u{d}' && text[text.len() - 1] != '\u{a}',
        forall|i: int|
            0 <= i < ending.len() ==> #[trigger] ending[i] == '\u{d}' || ending[i] == '\u{a}',
    ensures
        framed(text + ending) == encode_utf8(text) + seq![13u8, 10u8],
        without_ending(text + ending) == text,
{
    text::law_trimming_the_back_leaves_the_text(text, ending, CharClass::LineEnd);
}

/// No lines are no bytes, and one line is framed on its own.
pub proof fn law_lines_are_framed_on_their_own(line: Seq<char>)
    ensures
        framed_lines(Seq::empty()).len() == 0,
        framed_lines(seq![line]) == framed(line),
{
    assert(seq![line].drop_last() =~= Seq::<Seq<char>>::empty());
    reveal_with_fuel(framed_lines, 2);
    assert(framed_lines(seq![line]) =~= framed(line));
}

} // verus!
