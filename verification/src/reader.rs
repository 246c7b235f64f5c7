//! From the bytes of a document to its text lines.

use vstd::prelude::*;
use vstd::slice::slice_subrange;
use vstd::utf8::{decode_utf8, encode_utf8, valid_utf8};
use crate::gedex::texts;

verus! {

/// A byte-order mark at the start of a document.
#[derive(Clone, Copy, Debug, PartialEq, Eq, Structural)]
pub enum Bom {
    /// No mark.
    Null,
    Bocu1,
    Gb18030,
    Scsu,
    UtfEbcdic,
    Utf1,
    Utf7,
    Utf8,
    Utf16Be,
    Utf16Le,
    Utf32Be,
    Utf32Le,
}

/// Whether `bytes` begins with `mark`.
pub open spec fn starts_with(bytes: Seq<u8>, mark: Seq<u8>) -> bool {
    bytes.len() >= mark.len() && bytes.take(mark.len() as int) == mark
}

/// The byte-order mark that `bytes` begins with.
pub open spec fn bom_of(bytes: Seq<u8>) -> Bom {
    if starts_with(bytes, seq![0x00, 0x00, 0xfe, 0xff]) {
        Bom::Utf32Be
    } else if starts_with(bytes, seq![0x0e, 0xfe, 0xff]) {
        Bom::Scsu
    } else if starts_with(bytes, seq![0x2b, 0x2f, 0x76]) && bytes.len() >= 4 && (bytes[3] == 0x38
        || bytes[3] == 0x39 || bytes[3] == 0x2b || bytes[3] == 0x2f) {
        Bom::Utf7
    } else if starts_with(bytes, seq![0x84, 0x31, 0x95, 0x33]) {
        Bom::Gb18030
    } else if starts_with(bytes, seq![0xdd, 0x73, 0x66, 0x73]) {
        Bom::UtfEbcdic
    } else if starts_with(bytes, seq![0xef, 0xbb, 0xbf]) {
        Bom::Utf8
    } else if starts_with(bytes, seq![0xf7, 0x64, 0x4c]) {
        Bom::Utf1
    } else if starts_with(bytes, seq![0xfb, 0xee, 0x28]) {
        Bom::Bocu1
    } else if starts_with(bytes, seq![0xfe, 0xff]) {
        Bom::Utf16Be
    } else if starts_with(bytes, seq![0xff, 0xfe, 0x00, 0x00]) {
        Bom::Utf32Le
    } else if starts_with(bytes, seq![0xff, 0xfe]) {
        Bom::Utf16Le
    } else {
        Bom::Null
    }
}

/// Detects the byte-order mark with `unicode_bom::Bom::from` on the byte
/// slice and names the variant that it gave. Believed, not proved: the mark
/// is the one whose bytes the slice begins with, as `bom_of` lists them; for
/// UTF-7 the fourth byte is one of four, and `FF FE 00 00` is UTF-32 before
/// `FF FE` is UTF-16.
#[verifier::external_body]
pub(crate) fn detect(bytes: &[u8]) -> (bom: Bom)
    ensures
        bom == bom_of(bytes@),
{
    match unicode_bom::Bom::from(bytes) {
        unicode_bom::Bom::Null => Bom::Null,
        unicode_bom::Bom::Bocu1 => Bom::Bocu1,
        unicode_bom::Bom::Gb18030 => Bom::Gb18030,
        unicode_bom::Bom::Scsu => Bom::Scsu,
        unicode_bom::Bom::UtfEbcdic => Bom::UtfEbcdic,
        unicode_bom::Bom::Utf1 => Bom::Utf1,
        unicode_bom::Bom::Utf7 => Bom::Utf7,
        unicode_bom::Bom::Utf8 => Bom::Utf8,
        unicode_bom::Bom::Utf16Be => Bom::Utf16Be,
        unicode_bom::Bom::Utf16Le => Bom::Utf16Le,
        unicode_bom::Bom::Utf32Be => Bom::Utf32Be,
        unicode_bom::Bom::Utf32Le => Bom::Utf32Le,
    }
}

/// Decodes bytes with `std::str::from_utf8` and copies the text. Believed,
/// not proved: there is a text exactly when the bytes are valid UTF-8, and
/// the text is then the one that these bytes encode.
#[verifier::external_body]
pub(crate) fn decode(bytes: &[u8]) -> (decoded: Option<String>)
    ensures
        decoded is Some <==> valid_utf8(bytes@),
        decoded matches Some(s) ==> encode_utf8(s@) == bytes@,
{
    std::str::from_utf8(bytes).ok().map(|s| s.to_owned())
}

/// The number of bytes before the first line feed, or the number of all
/// bytes where there is none.
pub open spec fn line_end(bytes: Seq<u8>) -> nat
    decreases bytes.len(),
{
    if bytes.len() == 0 || bytes[0] == 10 {
        0
    } else {
        1 + line_end(bytes.skip(1))
    }
}

/// A line without the carriage return at its end, if it has one.
pub open spec fn without_cr(line: Seq<u8>) -> Seq<u8> {
    if line.len() > 0 && line.last() == 13 {
        line.drop_last()
    } else {
        line
    }
}

/// The text of one line, or nothing where the line is not valid UTF-8.
pub open spec fn line_text(line: Seq<u8>) -> Seq<Seq<char>> {
    if valid_utf8(line) {
        seq![decode_utf8(line)]
    } else {
        Seq::empty()
    }
}

/// The text lines of a document.
///
/// A line ends with a line feed; a carriage return before the line feed
/// belongs to the terminator. What follows the last line feed is a line too,
/// unless it is empty. A line that is not valid UTF-8 is left out.
pub open spec fn text_lines(bytes: Seq<u8>) -> Seq<Seq<char>>
    decreases bytes.len(),
{
    if bytes.len() == 0 {
        Seq::empty()
    } else {
        let end = line_end(bytes) as int;
        if end < bytes.len() {
            line_text(without_cr(bytes.take(end))) + text_lines(bytes.skip(end + 1))
        } else {
            line_text(bytes)
        }
    }
}

/// What is left of a document after its byte-order mark: a UTF-8 mark is
/// taken off, any other is left in place.
pub open spec fn body(bytes: Seq<u8>) -> Seq<u8> {
    if bom_of(bytes) == Bom::Utf8 {
        bytes.skip(3)
    } else {
        bytes
    }
}

/// Where the first `end` bytes hold no line feed, and a line feed or the end
/// of the bytes follows them, the first line ends there.
pub proof fn lemma_line_end(bytes: Seq<u8>, end: int)
    requires
        0 <= end <= bytes.len(),
        forall|j: int| 0 <= j < end ==> bytes[j] != 10,
        end < bytes.len() ==> bytes[end] == 10,
    ensures
        line_end(bytes) == end,
    decreases end,
{
    if end > 0 {
        lemma_line_end(bytes.skip(1), end - 1);
    }
}

/// Decodes one line and appends its text, if it is valid UTF-8.
fn push_line(out: &mut Vec<String>, line: &[u8])
    ensures
        texts(final(out)@) == texts(old(out)@) + line_text(line@),
{
    match decode(line) {
        Some(s) => {
            proof {
                vstd::utf8::encode_utf8_decode_utf8(s@);
            }
            out.push(s);
            assert(texts(out@) =~= texts(old(out)@) + seq![s@]);
        },
        None => {
            assert(texts(out@) =~= texts(old(out)@) + Seq::<Seq<char>>::empty());
        },
    }
}

/// Detects the byte-order mark of a document and splits what follows it
/// into text lines.
pub fn read_lines(bytes: &[u8]) -> (read: (Bom, Vec<String>))
    ensures
        read.0 == bom_of(bytes@),
        texts(read.1@) == text_lines(body(bytes@)),
{
    let bom = detect(bytes);
    let first: usize = match bom {
        Bom::Utf8 => 3,
        _ => 0,
    };
    let mut out: Vec<String> = Vec::new();
    let mut start: usize = first;
    let mut i: usize = first;
    let ghost all = bytes@;
    assert(body(all) == all.skip(first as int));
    while i < bytes.len()
        invariant
            start <= i <= bytes.len(),
            all == bytes@,
            forall|j: int| start <= j < i ==> all[j] != 10,
            text_lines(body(all)) == texts(out@) + text_lines(all.skip(start as int)),
        decreases bytes.len() - i,
    {
        if bytes[i] == 10 {
            let mut end: usize = i;
            if end > start && bytes[end - 1] == 13 {
                end = end - 1;
            }
            let ghost rest = all.skip(start as int);
            let ghost before = texts(out@);
            proof {
                lemma_line_end(rest, i - start);
                assert(rest.skip(i - start + 1) =~= all.skip(i as int + 1));
                assert(rest.take(i - start) =~= all.subrange(start as int, i as int));
                assert(without_cr(all.subrange(start as int, i as int)) =~= all.subrange(
                    start as int,
                    end as int,
                ));
            }
            push_line(&mut out, slice_subrange(bytes, start, end));
            assert(before + (line_text(all.subrange(start as int, end as int)) + text_lines(
                all.skip(i as int + 1),
            )) =~= (before + line_text(all.subrange(start as int, end as int))) + text_lines(
                all.skip(i as int + 1),
            ));
            start = i + 1;
        }
        i = i + 1;
    }
    let ghost rest = all.skip(start as int);
    let ghost before = texts(out@);
    if start < bytes.len() {
        proof {
            lemma_line_end(rest, rest.len() as int);
            assert(rest =~= all.subrange(start as int, all.len() as int));
        }
        push_line(&mut out, slice_subrange(bytes, start, bytes.len()));
    } else {
        assert(before + Seq::<Seq<char>>::empty() =~= before);
    }
    (bom, out)
}

} // verus!
