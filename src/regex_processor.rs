use vstd::prelude::*;

use crate::error::{BingrepError, Result};

verus! {

/// Relies on `String::push`: the character is appended at the end.
pub assume_specification[ String::push ](s: &mut String, ch: char)
    ensures
        final(s)@ == old(s)@.push(ch),
;

/// What went wrong in a `\xHH` escape.
#[derive(Debug, Clone, Copy, PartialEq, Eq)]
pub enum HexFault {
    /// `\x` followed by fewer than two characters (the one present, if any).
    Incomplete(Option<char>),
    /// `\x` followed by two characters that are not both hexadecimal digits.
    Invalid(char, char),
}

/// The value of a hexadecimal digit, in either case.
pub open spec fn hex_value(c: char) -> Option<u8> {
    let v = c as u32;
    if 48 <= v <= 57 {
        Some((v - 48) as u8)
    } else if 97 <= v <= 102 {
        Some((v - 87) as u8)
    } else if 65 <= v <= 70 {
        Some((v - 55) as u8)
    } else {
        None
    }
}

/// An escape `\x` or `\X` begins at position `i`.
pub open spec fn is_escape_start(s: Seq<char>, i: int) -> bool {
    0 <= i && i + 1 < s.len() && s[i] == '\\' && (s[i + 1] == 'x' || s[i + 1] == 'X')
}

/// The byte written by the two hexadecimal digits `hi` and `lo`.
pub open spec fn hex_pair(hi: char, lo: char) -> u8 {
    (hex_value(hi)->0 * 16 + hex_value(lo)->0) as u8
}

/// Prefix `pre` to a decoded result, keeping a failure as it is.
pub open spec fn prefixed<T>(pre: Seq<T>, r: core::result::Result<Seq<T>, HexFault>) -> core::result::Result<
    Seq<T>,
    HexFault,
> {
    match r {
        Ok(rest) => Ok(pre + rest),
        Err(f) => Err(f),
    }
}

/// The bytes written by the `\xHH` escapes of `s`, in order; every other
/// character is skipped. The first malformed escape is the failure.
pub open spec fn decode_hex_escapes(s: Seq<char>) -> core::result::Result<Seq<u8>, HexFault>
    decreases s.len(),
{
    if s.len() == 0 {
        Ok(Seq::empty())
    } else if is_escape_start(s, 0) {
        if s.len() == 2 {
            Err(HexFault::Incomplete(None))
        } else if s.len() == 3 {
            Err(HexFault::Incomplete(Some(s[2])))
        } else if hex_value(s[2]) is Some && hex_value(s[3]) is Some {
            prefixed(seq![hex_pair(s[2], s[3])], decode_hex_escapes(s.skip(4)))
        } else {
            Err(HexFault::Invalid(s[2], s[3]))
        }
    } else {
        decode_hex_escapes(s.skip(1))
    }
}

/// The message of a malformed escape, after `lead` (which ends in `\x`).
pub open spec fn fault_message(lead: Seq<char>, f: HexFault) -> Seq<char> {
    match f {
        HexFault::Incomplete(None) => lead,
        HexFault::Incomplete(Some(a)) => lead.push(a),
        HexFault::Invalid(a, b) => lead.push(a).push(b),
    }
}

/// The message of a malformed escape met while decoding a byte literal.
pub open spec fn parse_fault_message(f: HexFault) -> Seq<char> {
    if f is Invalid {
        fault_message("Invalid hex sequence: \\x"@, f)
    } else {
        fault_message("Incomplete hex sequence: \\x"@, f)
    }
}

proof fn lemma_prefixed_empty<T>(r: core::result::Result<Seq<T>, HexFault>)
    ensures
        prefixed(Seq::empty(), r) == r,
{
    if let Ok(rest) = r {
        assert(Seq::<T>::empty() + rest =~= rest);
    }
}

/// The lower-case hexadecimal digit of `v`, which is below 16.
pub open spec fn hex_char(v: u8) -> char {
    if v < 10 {
        (v + 48) as char
    } else {
        (v + 87) as char
    }
}

/// The canonical escape `\xhh` of one byte, with lower-case digits.
pub open spec fn escape_byte(b: u8) -> Seq<char> {
    seq!['\\', 'x', hex_char(b / 16), hex_char(b % 16)]
}

/// The canonical escapes of `bs`, one after another.
pub open spec fn escape_all(bs: Seq<u8>) -> Seq<char>
    decreases bs.len(),
{
    if bs.len() == 0 {
        Seq::empty()
    } else {
        escape_all(bs.drop_last()) + escape_byte(bs.last())
    }
}

/// The engine pattern that matches exactly the bytes `bs`: byte matching,
/// with no text interpretation, followed by one escape per byte.
pub open spec fn literal_pattern(bs: Seq<u8>) -> Seq<char> {
    "(?-u)"@ + escape_all(bs)
}

/// `s` with each well-formed `\xHH` escape put in canonical form and every
/// other character kept; the first malformed escape is the failure.
pub open spec fn rewrite_hex_escapes(s: Seq<char>) -> core::result::Result<Seq<char>, HexFault>
    decreases s.len(),
{
    if s.len() == 0 {
        Ok(Seq::empty())
    } else if is_escape_start(s, 0) {
        if s.len() == 2 {
            Err(HexFault::Incomplete(None))
        } else if s.len() == 3 {
            Err(HexFault::Incomplete(Some(s[2])))
        } else if hex_value(s[2]) is Some && hex_value(s[3]) is Some {
            prefixed(escape_byte(hex_pair(s[2], s[3])), rewrite_hex_escapes(s.skip(4)))
        } else {
            Err(HexFault::Invalid(s[2], s[3]))
        }
    } else {
        prefixed(seq![s[0]], rewrite_hex_escapes(s.skip(1)))
    }
}

/// The message of a malformed escape met while rewriting a pattern that has
/// metacharacters.
pub open spec fn rewrite_fault_message(f: HexFault) -> Seq<char> {
    if f is Invalid {
        fault_message("Invalid hex sequence in regex pattern: \\x"@, f)
    } else {
        fault_message("Incomplete hex sequence in regex pattern: \\x"@, f)
    }
}

/// A character with meaning to the engine: repetition, grouping, classes,
/// alternation or anchors.
pub open spec fn is_metachar(c: char) -> bool {
    c == '+' || c == '*' || c == '?' || c == '(' || c == ')' || c == '[' || c == ']' || c == '{'
        || c == '}' || c == '|' || c == '^' || c == '$'
}

pub open spec fn has_metachar(s: Seq<char>) -> bool {
    exists|i: int| 0 <= i < s.len() && is_metachar(#[trigger] s[i])
}

/// `s` holds the two characters `\x` somewhere.
pub open spec fn has_hex_marker(s: Seq<char>) -> bool {
    exists|i: int| 0 <= i && i + 1 < s.len() && #[trigger] s[i] == '\\' && s[i + 1] == 'x'
}

/// The pattern handed to the engine for `expression`, or the message of the
/// error that stops compilation before the engine is reached. Without
/// metacharacters and with a `\x`, the expression is a byte literal: its
/// escapes are decoded and written out again as one literal. Otherwise only
/// the escapes are put in canonical form, behind `(?-u)` so that matching is
/// by bytes there too.
pub open spec fn engine_pattern(expression: Seq<char>) -> core::result::Result<Seq<char>, Seq<char>> {
    if has_hex_marker(expression) && !has_metachar(expression) {
        match decode_hex_escapes(expression) {
            Ok(bs) => if bs.len() == 0 {
                Err("No valid hex pattern found"@)
            } else {
                Ok(literal_pattern(bs))
            },
            Err(f) => Err(parse_fault_message(f)),
        }
    } else {
        match rewrite_hex_escapes(expression) {
            Ok(p) => Ok("(?-u)"@ + p),
            Err(f) => Err(rewrite_fault_message(f)),
        }
    }
}

/// The non-overlapping occurrences of `needle` in `hay` at or after `from`,
/// leftmost first, as (start, end) offsets.
pub open spec fn literal_spans(needle: Seq<u8>, hay: Seq<u8>, from: int) -> Seq<(usize, usize)>
    decreases hay.len() - from,
{
    if from < 0 || needle.len() == 0 || from + needle.len() > hay.len() {
        Seq::empty()
    } else if hay.subrange(from, from + needle.len()) == needle {
        seq![(from as usize, (from + needle.len()) as usize)] + literal_spans(
            needle,
            hay,
            from + needle.len(),
        )
    } else {
        literal_spans(needle, hay, from + 1)
    }
}

/// The matches that the engine reports for `pattern` in `haystack`: its
/// successive non-overlapping matches, leftmost first, as (start, end) offsets.
pub uninterp spec fn regex_spans(pattern: Seq<char>, haystack: Seq<u8>) -> Seq<(usize, usize)>;

/// The spans are ordered, non-overlapping and inside a haystack of `len` bytes.
pub open spec fn spans_well_formed(spans: Seq<(usize, usize)>, len: int) -> bool {
    &&& forall|i: int| 0 <= i < spans.len() ==> (#[trigger] spans[i]).0 <= spans[i].1 <= len
    &&& forall|i: int|
        0 <= i && i + 1 < spans.len() ==> (#[trigger] spans[i]).1 <= spans[i + 1].0 && spans[i].0
            < spans[i + 1].0
}

#[verifier::external_type_specification]
#[verifier::external_body]
pub struct ExRegex(regex::bytes::Regex);

/// Whether the engine compiles `pattern` (its syntax is valid and the
/// compiled form stays within the default size limit).
pub uninterp spec fn regex_accepts(pattern: Seq<char>) -> bool;

/// The text of the error with which the engine refuses `pattern`.
pub uninterp spec fn regex_error_message(pattern: Seq<char>) -> Seq<char>;

/// Relies on regex::bytes::Regex::new: the pattern is compiled, or refused
/// with an error (invalid syntax, or over the default size limit), which
/// depends on the pattern text alone; the error is handed back as its
/// displayed text.
#[verifier::external_body]
fn compile_regex(pattern: &str) -> (r: core::result::Result<regex::bytes::Regex, String>)
    ensures
        r is Ok <==> regex_accepts(pattern@),
        r matches Err(m) ==> m@ == regex_error_message(pattern@),
{
    regex::bytes::Regex::new(pattern).map_err(|e| e.to_string())
}

/// A pattern ready for matching: the engine pattern it was compiled from,
/// and the compiled matcher. Built only by `RegexProcessor::compile_pattern`.
pub struct CompiledPattern {
    source: String,
    regex: regex::bytes::Regex,
}

impl View for CompiledPattern {
    type V = Seq<char>;

    /// The engine pattern.
    closed spec fn view(&self) -> Seq<char> {
        self.source@
    }
}

/// Relies on regex::bytes::Regex::find_iter, run by the matcher that was
/// compiled from `p.source`: its successive non-overlapping matches (each
/// inside the haystack, leftmost first). The engine's escape syntax makes
/// `\xhh` under `(?-u)` match the single byte hh, so a pattern made of such
/// escapes alone matches exactly the occurrences of those bytes.
#[verifier::external_body]
fn find_spans(p: &CompiledPattern, haystack: &[u8]) -> (r: Vec<(usize, usize)>)
    ensures
        r@ == regex_spans(p@, haystack@),
        spans_well_formed(r@, haystack@.len() as int),
        forall|bs: Seq<u8>|
            bs.len() > 0 && p@ == literal_pattern(bs) ==> r@ == literal_spans(bs, haystack@, 0),
{
    p.regex.find_iter(haystack).map(|m| (m.start(), m.end())).collect()
}

impl CompiledPattern {
    /// The engine pattern this was compiled from.
    pub fn as_str(&self) -> (r: &str)
        ensures
            r@ == self@,
    {
        self.source.as_str()
    }

    /// Every match of the pattern in `haystack`, as (start, end) offsets.
    pub fn find_all(&self, haystack: &[u8]) -> (r: Vec<(usize, usize)>)
        ensures
            r@ == regex_spans(self@, haystack@),
            spans_well_formed(r@, haystack@.len() as int),
            forall|bs: Seq<u8>|
                bs.len() > 0 && self@ == literal_pattern(bs) ==> r@ == literal_spans(
                    bs,
                    haystack@,
                    0,
                ),
    {
        find_spans(self, haystack)
    }

    /// Whether the pattern matches anywhere in `haystack`.
    pub fn is_match(&self, haystack: &[u8]) -> (r: bool)
        ensures
            r == (regex_spans(self@, haystack@).len() > 0),
            forall|bs: Seq<u8>|
                bs.len() > 0 && self@ == literal_pattern(bs) ==> r == (literal_spans(
                    bs,
                    haystack@,
                    0,
                ).len() > 0),
    {
        let spans = find_spans(self, haystack);
        spans.len() > 0
    }
}

fn hex_char_of(v: u8) -> (c: char)
    requires
        v < 16,
    ensures
        c == hex_char(v),
{
    if v < 10 {
        (v + 48) as char
    } else {
        (v + 87) as char
    }
}

fn push_escape(out: &mut String, b: u8)
    ensures
        final(out)@ == old(out)@ + escape_byte(b),
{
    out.push('\\');
    out.push('x');
    out.push(hex_char_of(b / 16));
    out.push(hex_char_of(b % 16));
    assert(final(out)@ =~= old(out)@ + escape_byte(b));
}

/// Compiles byte patterns written with `\xHH` escapes.
pub struct RegexProcessor;

fn hex_digit(c: char) -> (r: Option<u8>)
    ensures
        r == hex_value(c),
        r matches Some(v) ==> v < 16,
{
    let v = c as u32;
    if 48 <= v && v <= 57 {
        Some((v - 48) as u8)
    } else if 97 <= v && v <= 102 {
        Some((v - 87) as u8)
    } else if 65 <= v && v <= 70 {
        Some((v - 55) as u8)
    } else {
        None
    }
}

fn fault_to_string(lead: &str, f: HexFault) -> (m: String)
    ensures
        m@ == fault_message(lead@, f),
{
    let mut m = String::from_str(lead);
    match f {
        HexFault::Incomplete(None) => {},
        HexFault::Incomplete(Some(a)) => {
            m.push(a);
        },
        HexFault::Invalid(a, b) => {
            m.push(a);
            m.push(b);
        },
    }
    m
}

/// Reads the escape that starts at character `i` of `s`, an `is_escape_start`
/// position: the byte it writes, or what is wrong with it.
fn read_escape(s: &str, i: usize) -> (r: core::result::Result<u8, HexFault>)
    requires
        is_escape_start(s@, i as int),
    ensures
        ({
            let t = s@.skip(i as int);
            match r {
                Ok(b) => t.len() >= 4 && hex_value(t[2]) is Some && hex_value(t[3]) is Some && b
                    == hex_pair(t[2], t[3]),
                Err(f) => (t.len() == 2 && f == HexFault::Incomplete(None)) || (t.len() == 3 && f
                    == HexFault::Incomplete(Some(t[2]))) || (t.len() >= 4 && !(hex_value(t[2]) is Some
                    && hex_value(t[3]) is Some) && f == HexFault::Invalid(t[2], t[3])),
            }
        }),
{
    let n = s.unicode_len();
    if i + 2 >= n {
        return Err(HexFault::Incomplete(None));
    }
    let h1 = s.get_char(i + 2);
    if i + 3 >= n {
        return Err(HexFault::Incomplete(Some(h1)));
    }
    let h2 = s.get_char(i + 3);
    match (hex_digit(h1), hex_digit(h2)) {
        (Some(a), Some(b)) => Ok(a * 16 + b),
        _ => Err(HexFault::Invalid(h1, h2)),
    }
}

impl RegexProcessor {
    /// Decodes every `\xHH` escape of `pattern` (digits in either case) into
    /// a byte, skipping all other characters. A `\x` without two following
    /// characters, or followed by two that are not hexadecimal digits, is
    /// reported with the offending fragment.
    pub fn parse_hex_pattern(pattern: &str) -> (r: Result<Vec<u8>>)
        ensures
            match decode_hex_escapes(pattern@) {
                Ok(bytes) => r matches Ok(v) && v@ == bytes,
                Err(f) => r matches Err(BingrepError::InvalidPattern(m)) && m@ == parse_fault_message(f),
            },
    {
        let n = pattern.unicode_len();
        let mut result: Vec<u8> = Vec::new();
        let mut i: usize = 0;
        proof {
            assert(pattern@.skip(0) =~= pattern@);
            lemma_prefixed_empty(decode_hex_escapes(pattern@));
        }
        while i < n
            invariant
                n == pattern@.len(),
                i <= n,
                decode_hex_escapes(pattern@) == prefixed(
                    result@,
                    decode_hex_escapes(pattern@.skip(i as int)),
                ),
            decreases n - i,
        {
            let ghost t = pattern@.skip(i as int);
            assert(t.skip(1) =~= pattern@.skip(i + 1));
            let c = pattern.get_char(i);
            let mut escape = false;
            if c == '\\' && i + 1 < n {
                let x = pattern.get_char(i + 1);
                escape = x == 'x' || x == 'X';
            }
            if escape {
                match read_escape(pattern, i) {
                    Ok(b) => {
                        assert(t.skip(4) =~= pattern@.skip(i + 4));
                        assert(result@.push(b) + decode_hex_escapes(t.skip(4))->Ok_0 =~= result@ + (
                        seq![b] + decode_hex_escapes(t.skip(4))->Ok_0));
                        result.push(b);
                        i = i + 4;
                    },
                    Err(f) => {
                        if matches!(f, HexFault::Invalid(_, _)) {
                            let m = fault_to_string("Invalid hex sequence: \\x", f);
                            return Err(BingrepError::InvalidPattern(m));
                        } else {
                            let m = fault_to_string("Incomplete hex sequence: \\x", f);
                            return Err(BingrepError::InvalidPattern(m));
                        }
                    },
                }
            } else {
                i = i + 1;
            }
        }
        assert(pattern@.skip(i as int) =~= Seq::<char>::empty());
        assert(result@ + Seq::<u8>::empty() =~= result@);
        Ok(result)
    }

    /// Writes `bytes` as one engine pattern that matches exactly those bytes:
    /// `(?-u)` to turn off text interpretation, then `\xhh` for each byte.
    pub fn escape_bytes_for_regex(bytes: &[u8]) -> (r: String)
        ensures
            r@ == literal_pattern(bytes@),
    {
        let mut out = String::from_str("(?-u)");
        let mut i: usize = 0;
        while i < bytes.len()
            invariant
                i <= bytes@.len(),
                out@ == "(?-u)"@ + escape_all(bytes@.take(i as int)),
            decreases bytes@.len() - i,
        {
            let ghost before = out@;
            push_escape(&mut out, bytes[i]);
            proof {
                let t = bytes@.take(i + 1);
                assert(t.drop_last() =~= bytes@.take(i as int));
                assert(out@ =~= "(?-u)"@ + escape_all(t));
            }
            i = i + 1;
        }
        assert(bytes@.take(i as int) =~= bytes@);
        out
    }

    /// Whether `pattern` holds any of `+ * ? ( ) [ ] { } | ^ $`.
    pub fn has_regex_metacharacters(pattern: &str) -> (r: bool)
        ensures
            r == has_metachar(pattern@),
    {
        let n = pattern.unicode_len();
        let mut i: usize = 0;
        while i < n
            invariant
                n == pattern@.len(),
                i <= n,
                forall|j: int| 0 <= j < i ==> !is_metachar(#[trigger] pattern@[j]),
            decreases n - i,
        {
            let c = pattern.get_char(i);
            if c == '+' || c == '*' || c == '?' || c == '(' || c == ')' || c == '[' || c == ']'
                || c == '{' || c == '}' || c == '|' || c == '^' || c == '$' {
                return true;
            }
            i = i + 1;
        }
        false
    }

    /// Whether `pattern` holds the two characters `\x`.
    pub fn has_hex_marker(pattern: &str) -> (r: bool)
        ensures
            r == has_hex_marker(pattern@),
    {
        let n = pattern.unicode_len();
        let mut i: usize = 0;
        while i < n
            invariant
                n == pattern@.len(),
                i <= n,
                forall|j: int| 0 <= j < i && j + 1 < n ==> !(#[trigger] pattern@[j] == '\\' && pattern@[j + 1] == 'x'),
            decreases n - i,
        {
            if i + 1 < n && pattern.get_char(i) == '\\' && pattern.get_char(i + 1) == 'x' {
                return true;
            }
            i = i + 1;
        }
        false
    }

    /// Puts every `\xHH` escape of `pattern` in canonical form and keeps all
    /// other characters, so that repetition, groups and alternation keep the
    /// engine's meaning. A malformed escape is reported with its fragment.
    pub fn convert_hex_escapes_in_pattern(pattern: &str) -> (r: Result<String>)
        ensures
            match rewrite_hex_escapes(pattern@) {
                Ok(p) => r matches Ok(out) && out@ == p,
                Err(f) => r matches Err(BingrepError::InvalidPattern(m)) && m@
                    == rewrite_fault_message(f),
            },
    {
        let n = pattern.unicode_len();
        let mut result = String::new();
        let mut i: usize = 0;
        proof {
            assert(pattern@.skip(0) =~= pattern@);
            lemma_prefixed_empty(rewrite_hex_escapes(pattern@));
        }
        while i < n
            invariant
                n == pattern@.len(),
                i <= n,
                rewrite_hex_escapes(pattern@) == prefixed(
                    result@,
                    rewrite_hex_escapes(pattern@.skip(i as int)),
                ),
            decreases n - i,
        {
            let ghost t = pattern@.skip(i as int);
            assert(t.skip(1) =~= pattern@.skip(i + 1));
            let c = pattern.get_char(i);
            let mut escape = false;
            if c == '\\' && i + 1 < n {
                let x = pattern.get_char(i + 1);
                escape = x == 'x' || x == 'X';
            }
            if escape {
                match read_escape(pattern, i) {
                    Ok(b) => {
                        assert(t.skip(4) =~= pattern@.skip(i + 4));
                        let ghost rest = rewrite_hex_escapes(t.skip(4));
                        let ghost before = result@;
                        push_escape(&mut result, b);
                        proof {
                            if let Ok(tail) = rest {
                                assert(before + escape_byte(b) + tail =~= before + (escape_byte(b)
                                    + tail));
                            }
                        }
                        i = i + 4;
                    },
                    Err(f) => {
                        if matches!(f, HexFault::Invalid(_, _)) {
                            let m = fault_to_string("Invalid hex sequence in regex pattern: \\x", f);
                            return Err(BingrepError::InvalidPattern(m));
                        } else {
                            let m = fault_to_string(
                                "Incomplete hex sequence in regex pattern: \\x",
                                f,
                            );
                            return Err(BingrepError::InvalidPattern(m));
                        }
                    },
                }
            } else {
                let ghost rest = rewrite_hex_escapes(t.skip(1));
                let ghost before = result@;
                result.push(c);
                proof {
                    if let Ok(tail) = rest {
                        assert(before.push(c) + tail =~= before + (seq![c] + tail));
                    }
                }
                i = i + 1;
            }
        }
        assert(pattern@.skip(i as int) =~= Seq::<char>::empty());
        assert(result@ + Seq::<char>::empty() =~= result@);
        Ok(result)
    }

    /// Compiles `expression` for byte matching. Without metacharacters and
    /// with a `\x`, the expression is a byte literal: its escapes are decoded
    /// (other characters are ignored) and the bytes are matched exactly, never
    /// as text. Otherwise only the escapes are rewritten and the rest of the
    /// syntax keeps the engine's meaning, also in byte mode (`(?-u)`). Escape errors come before the engine
    /// is reached; a pattern the engine refuses is a `RegexCompilation` error
    /// carrying the engine's message.
    pub fn compile_pattern(expression: &str) -> (r: Result<CompiledPattern>)
        ensures
            match engine_pattern(expression@) {
                Ok(p) => if regex_accepts(p) {
                    r matches Ok(c) && c@ == p
                } else {
                    r matches Err(BingrepError::RegexCompilation(m)) && m@ == regex_error_message(p)
                },
                Err(m) => r matches Err(BingrepError::InvalidPattern(x)) && x@ == m,
            },
    {
        let pattern = if Self::has_hex_marker(expression) && !Self::has_regex_metacharacters(
            expression,
        ) {
            let bytes = match Self::parse_hex_pattern(expression) {
                Ok(b) => b,
                Err(e) => return Err(e),
            };
            if bytes.len() == 0 {
                return Err(BingrepError::InvalidPattern(String::from_str("No valid hex pattern found")));
            }
            Self::escape_bytes_for_regex(bytes.as_slice())
        } else {
            match Self::convert_hex_escapes_in_pattern(expression) {
                Ok(p) => {
                    let mut bytewise = String::from_str("(?-u)");
                    bytewise.append(p.as_str());
                    bytewise
                },
                Err(e) => return Err(e),
            }
        };
        match compile_regex(pattern.as_str()) {
            Ok(regex) => Ok(CompiledPattern { source: pattern, regex }),
            Err(m) => Err(BingrepError::RegexCompilation(m)),
        }
    }

}


/// `needle` occurs in `hay` at or after `from`.
pub open spec fn occurs_from(needle: Seq<u8>, hay: Seq<u8>, from: int) -> bool {
    exists|i: int|
        from <= i && i + needle.len() <= hay.len() && #[trigger] hay.subrange(i, i + needle.len())
            == needle
}

proof fn lemma_literal_spans_occurs(needle: Seq<u8>, hay: Seq<u8>, from: int)
    requires
        needle.len() > 0,
        0 <= from,
    ensures
        (literal_spans(needle, hay, from).len() > 0) == occurs_from(needle, hay, from),
    decreases hay.len() - from,
{
    if from + needle.len() > hay.len() {
    } else if hay.subrange(from, from + needle.len()) == needle {
    } else {
        lemma_literal_spans_occurs(needle, hay, from + 1);
        if occurs_from(needle, hay, from) {
            let i = choose|i: int|
                from <= i && i + needle.len() <= hay.len() && #[trigger] hay.subrange(
                    i,
                    i + needle.len(),
                ) == needle;
            assert(i != from);
            assert(occurs_from(needle, hay, from + 1));
        }
    }
}

/// A byte literal (an expression with a `\x` and no metacharacters, whose
/// escapes decode to at least one byte) compiles to a pattern of exactly
/// those bytes. That pattern matches the decoded bytes themselves, as one
/// match covering them, and matches a haystack exactly when those bytes occur
/// in it as raw bytes: a text encoding of the same characters with other
/// bytes does not match.
pub proof fn byte_literal_matches_exactly(expression: Seq<char>, haystack: Seq<u8>)
    requires
        has_hex_marker(expression),
        !has_metachar(expression),
        decode_hex_escapes(expression) is Ok,
        decode_hex_escapes(expression)->Ok_0.len() > 0,
    ensures
        ({
            let bytes = decode_hex_escapes(expression)->Ok_0;
            &&& engine_pattern(expression) == Ok::<Seq<char>, Seq<char>>(literal_pattern(bytes))
            &&& literal_spans(bytes, bytes, 0) == seq![(0usize, bytes.len() as usize)]
            &&& (literal_spans(bytes, haystack, 0).len() > 0) == occurs_from(bytes, haystack, 0)
        }),
{
    let bytes = decode_hex_escapes(expression)->Ok_0;
    assert(bytes.subrange(0, bytes.len() as int) =~= bytes);
    assert(literal_spans(bytes, bytes, bytes.len() as int) == Seq::<(usize, usize)>::empty());
    assert(seq![(0usize, bytes.len() as usize)] + Seq::<(usize, usize)>::empty() =~= seq![(0usize, bytes.len() as usize)]);
    lemma_literal_spans_occurs(bytes, haystack, 0);
}

} // verus!
