use vstd::prelude::*;

use crate::regex_processor::hex_value;
use crate::output::{offset_text, OutputFormatter};
use crate::text::{decimal, lower_of, lowercase, push_decimal, same_text, upper_hex};

verus! {

/// The supported output formats.
#[derive(Debug, Clone, Copy, PartialEq, Eq)]
pub enum OutputFormat {
    /// Offset and hex bytes per line.
    Hex,
    /// A JSON array of records.
    Json,
    /// Comma-separated records with a header.
    Csv,
    /// `file:offset hex` per line.
    Plain,
}

impl OutputFormat {
    /// The format named `s`, in any case: hex, json, csv or plain.
    pub fn from_str(s: &str) -> (r: Option<Self>)
        ensures
            lower_of(s@) == "hex"@ ==> r == Some(OutputFormat::Hex),
            lower_of(s@) == "json"@ ==> r == Some(OutputFormat::Json),
            lower_of(s@) == "csv"@ ==> r == Some(OutputFormat::Csv),
            lower_of(s@) == "plain"@ ==> r == Some(OutputFormat::Plain),
            lower_of(s@) != "hex"@ && lower_of(s@) != "json"@ && lower_of(s@) != "csv"@ && lower_of(
                s@,
            ) != "plain"@ ==> r is None,
    {
        let lower = lowercase(s);
        proof {
            reveal_strlit("hex");
            reveal_strlit("json");
            reveal_strlit("csv");
            reveal_strlit("plain");
            assert("hex"@[0] == 'h' && "json"@[0] == 'j' && "csv"@[0] == 'c' && "plain"@[0] == 'p');
        }
        if same_text(lower.as_str(), "hex") {
            Some(OutputFormat::Hex)
        } else if same_text(lower.as_str(), "json") {
            Some(OutputFormat::Json)
        } else if same_text(lower.as_str(), "csv") {
            Some(OutputFormat::Csv)
        } else if same_text(lower.as_str(), "plain") {
            Some(OutputFormat::Plain)
        } else {
            None
        }
    }
}

/// The words of `s` as `str::split_whitespace` gives them.
pub uninterp spec fn whitespace_words(s: Seq<char>) -> Seq<Seq<char>>;

/// Relies on `str::split_whitespace`: the maximal runs of non-whitespace
/// characters, in order, which depend on the text alone.
#[verifier::external_body]
fn split_words(s: &str) -> (r: Vec<String>)
    ensures
        r@.map_values(|w: String| w@) == whitespace_words(s@),
{
    s.split_whitespace().map(|w| w.to_string()).collect()
}

/// The value of a run of hexadecimal digits.
pub open spec fn digits_value(d: Seq<char>) -> nat
    decreases d.len(),
{
    if d.len() == 0 {
        0
    } else {
        digits_value(d.drop_last()) * 16 + hex_value(d.last())->0 as nat
    }
}

/// The digits of a number in base 16, after an optional `+`.
pub open spec fn unsigned_digits(t: Seq<char>) -> Seq<char> {
    if t.len() > 0 && t[0] == '+' {
        t.skip(1)
    } else {
        t
    }
}

/// A word read as a byte in base 16 (`u8::from_str_radix`): an optional `+`
/// and at least one hexadecimal digit, of value below 256.
pub open spec fn hex_word_byte(t: Seq<char>) -> Option<u8> {
    let d = unsigned_digits(t);
    if d.len() > 0 && (forall|i: int| 0 <= i < d.len() ==> (#[trigger] hex_value(d[i])) is Some)
        && digits_value(d) < 256 {
        Some(digits_value(d) as u8)
    } else {
        None
    }
}

/// A byte that shows as itself: a space or a visible ASCII character.
pub open spec fn is_printable(b: u8) -> bool {
    32 <= b <= 126
}

/// The bytes of the words of `hex`, when each word reads as a byte and every
/// byte is printable: as ASCII text. Otherwise none.
pub open spec fn ascii_of(hex: Seq<char>) -> Option<Seq<char>> {
    let words = whitespace_words(hex);
    if forall|i: int|
        0 <= i < words.len() ==> (#[trigger] hex_word_byte(words[i])) is Some && is_printable(
            hex_word_byte(words[i])->0,
        ) {
        Some(Seq::new(words.len(), |i: int| (hex_word_byte(words[i])->0) as char))
    } else {
        None
    }
}

fn parse_hex_word(t: &str) -> (r: Option<u8>)
    ensures
        r == hex_word_byte(t@),
{
    let n = t.unicode_len();
    let mut i: usize = 0;
    if n > 0 && t.get_char(0) == '+' {
        i = 1;
    }
    let ghost d = unsigned_digits(t@);
    let first = i;
    assert(d =~= t@.skip(first as int));
    if i >= n {
        return None;
    }
    let mut acc: u32 = 0;
    while i < n
        invariant
            n == t@.len(),
            first <= i <= n,
            d == t@.skip(first as int),
            d == unsigned_digits(t@),
            forall|j: int| 0 <= j < i - first ==> (#[trigger] hex_value(d[j])) is Some,
            acc == if digits_value(d.take(i - first)) < 256 {
                digits_value(d.take(i - first))
            } else {
                256
            },
        decreases n - i,
    {
        let c = t.get_char(i);
        let v = c as u32;
        let h: u32 = if 48 <= v && v <= 57 {
            v - 48
        } else if 97 <= v && v <= 102 {
            v - 87
        } else if 65 <= v && v <= 70 {
            v - 55
        } else {
            assert(hex_value(d[i - first]) is None);
            assert(!(forall|j: int| 0 <= j < d.len() ==> (#[trigger] hex_value(d[j])) is Some));
            assert(hex_word_byte(t@) is None);
            return None;
        };
        assert(hex_value(d[i - first]) == Some(h as u8));
        let ghost prev = digits_value(d.take(i - first));
        assert(d.take(i + 1 - first).drop_last() =~= d.take(i - first));
        assert(digits_value(d.take(i + 1 - first)) == prev * 16 + h);
        acc = if acc >= 16 {
            256
        } else {
            let x = acc * 16 + h;
            if x > 256 {
                256
            } else {
                x
            }
        };
        assert(acc == if prev * 16 + h < 256 {
            prev * 16 + h
        } else {
            256
        });
        i = i + 1;
    }
    assert(d.take(n - first) =~= d);
    if acc < 256 {
        Some(acc as u8)
    } else {
        None
    }
}


/// The ASCII text of the hex words of `hex_data` when every word reads as a
/// printable byte (`48 65 6C 6C 6F` gives `Hello`); otherwise none.
pub fn bytes_to_ascii_if_printable(hex_data: &str) -> (r: Option<String>)
    ensures
        r matches Some(a) ==> ascii_of(hex_data@) == Some(a@),
        r is None ==> ascii_of(hex_data@) is None,
{
    let words = split_words(hex_data);
    let ghost ws = whitespace_words(hex_data@);
    let mut out = String::new();
    let mut i: usize = 0;
    assert(words@.len() == ws.len());
    while i < words.len()
        invariant
            i <= words@.len(),
            ws == whitespace_words(hex_data@),
            words@.map_values(|w: String| w@) == ws,
            words@.len() == ws.len(),
            forall|j: int|
                0 <= j < i ==> (#[trigger] hex_word_byte(ws[j])) is Some && is_printable(
                    hex_word_byte(ws[j])->0,
                ),
            out@ == Seq::new(i as nat, |j: int| (hex_word_byte(ws[j])->0) as char),
        decreases words@.len() - i,
    {
        assert(words@[i as int]@ == ws[i as int]);
        let b = parse_hex_word(words[i].as_str());
        match b {
            Some(v) => {
                if v >= 32 && v <= 126 {
                    out.push(v as char);
                    assert(out@ =~= Seq::new(
                        (i + 1) as nat,
                        |j: int| (hex_word_byte(ws[j])->0) as char,
                    ));
                } else {
                    return None;
                }
            },
            None => {
                return None;
            },
        }
        i = i + 1;
    }
    Some(out)
}

/// A match found in a file, for structured output.
#[derive(Debug, Clone)]
pub struct BinaryMatch {
    /// The file it was found in.
    pub file_path: String,
    /// Byte offset of the match.
    pub offset: u64,
    /// The bytes shown, as hex words.
    pub hex_data: String,
    /// Length of the match in bytes.
    pub length: usize,
    /// The bytes as text, when all are printable ASCII.
    pub ascii_data: Option<String>,
}

/// A hex-dump line of a file, for structured output.
#[derive(Debug, Clone)]
pub struct HexDumpLine {
    /// The file it comes from.
    pub file_path: String,
    /// Byte offset of the line.
    pub offset: u64,
    /// The bytes, as hex words.
    pub hex_data: String,
    /// The bytes as text, when all are printable ASCII.
    pub ascii_data: Option<String>,
    /// Number of bytes in the line.
    pub byte_count: usize,
}

/// `text` holds `expected`: none with none, or the same characters.
pub open spec fn text_matches(text: Option<String>, expected: Option<Seq<char>>) -> bool {
    match text {
        Some(a) => expected == Some(a@),
        None => expected is None,
    }
}

impl BinaryMatch {
    /// A match record; its text is derived from `hex_data`.
    pub fn new(file_path: String, offset: u64, hex_data: String, length: usize) -> (r: Self)
        ensures
            r.file_path == file_path,
            r.offset == offset,
            r.hex_data == hex_data,
            r.length == length,
            text_matches(r.ascii_data, ascii_of(hex_data@)),
    {
        let ascii_data = bytes_to_ascii_if_printable(hex_data.as_str());
        BinaryMatch { file_path, offset, hex_data, length, ascii_data }
    }
}

impl HexDumpLine {
    /// A hex-dump line; its text is derived from `hex_data`.
    pub fn new(file_path: String, offset: u64, hex_data: String, byte_count: usize) -> (r: Self)
        ensures
            r.file_path == file_path,
            r.offset == offset,
            r.hex_data == hex_data,
            r.byte_count == byte_count,
            text_matches(r.ascii_data, ascii_of(hex_data@)),
    {
        let ascii_data = bytes_to_ascii_if_printable(hex_data.as_str());
        HexDumpLine { file_path, offset, hex_data, ascii_data, byte_count }
    }
}


/// A record in plain output: `file:offset hex`, the offset in decimal.
pub open spec fn plain_text(file_path: Seq<char>, offset: u64, hex_data: Seq<char>) -> Seq<char> {
    file_path + ":"@ + decimal(offset as nat) + " "@ + hex_data
}

/// A record in hex output: the offset in upper-case hexadecimal, `h : `,
/// then the hex words.
pub open spec fn hex_text(offset: u64, hex_data: Seq<char>) -> Seq<char> {
    offset_text(offset, upper_hex(offset as nat).len()) + " : "@ + hex_data
}

fn plain_line_of(file_path: &str, offset: u64, hex_data: &str) -> (r: String)
    ensures
        r@ == plain_text(file_path@, offset, hex_data@),
{
    let mut out = String::from_str(file_path);
    out.append(":");
    push_decimal(&mut out, offset);
    out.append(" ");
    out.append(hex_data);
    out
}

fn hex_line_of(offset: u64, hex_data: &str) -> (r: String)
    ensures
        r@ == hex_text(offset, hex_data@),
{
    let len = OutputFormatter::calculate_hex_offset_length(offset);
    OutputFormatter::format_line_with_offset(offset, hex_data, len)
}

impl BinaryMatch {
    /// The match as a line of plain output.
    pub fn plain_line(&self) -> (r: String)
        ensures
            r@ == plain_text(self.file_path@, self.offset, self.hex_data@),
    {
        plain_line_of(self.file_path.as_str(), self.offset, self.hex_data.as_str())
    }

    /// The match as a line of hex output.
    pub fn hex_line(&self) -> (r: String)
        ensures
            r@ == hex_text(self.offset, self.hex_data@),
    {
        hex_line_of(self.offset, self.hex_data.as_str())
    }
}

impl HexDumpLine {
    /// The line as a line of plain output.
    pub fn plain_line(&self) -> (r: String)
        ensures
            r@ == plain_text(self.file_path@, self.offset, self.hex_data@),
    {
        plain_line_of(self.file_path.as_str(), self.offset, self.hex_data.as_str())
    }

    /// The line as a line of hex output.
    pub fn hex_line(&self) -> (r: String)
        ensures
            r@ == hex_text(self.offset, self.hex_data@),
    {
        hex_line_of(self.offset, self.hex_data.as_str())
    }
}

} // verus!
