//! Framing of an HTTP-style message: the line-ending convention, the initial
//! line, and the header block decomposed into a header map.
use vstd::prelude::*;
use vstd::string::StringSliceAdditionalSpecFns;
use vstd::utf8::*;
use crate::headers::Headers;
use crate::search::{
    find,
    lemma_encode_concat,
    lemma_find_first,
    lemma_find_some,
    lemma_first_occurrence_in_prefix,
    split_once,
};
use crate::text::{
    ascii_lower_all,
    text_from_utf8,
    to_ascii_lower,
    trim,
    trim_white_space,
};

verus! {

/// Why a buffer could not be read as a message.
#[derive(Debug)]
pub enum ParseError {
    /// A line break is missing where the framing needs one.
    InvalidLineEndings,
    /// A header line has no `:` between name and value.
    InvalidHeaders,
    /// The buffer is not valid UTF-8.
    InvalidEncoding(core::str::Utf8Error),
}

/// The separators of one line-ending convention.
pub struct LineEndingFormat {
    /// Ends each line.
    pub line_separator: &'static str,
    /// Ends the header block, before the body.
    pub headers_and_body_separator: &'static str,
}

/// The line separator of the CRLF convention (`crlf`) or of the LF one.
pub open spec fn line_separator_for(crlf: bool) -> Seq<char> {
    if crlf {
        seq!['\r', '\n']
    } else {
        seq!['\n']
    }
}

/// The separator between header block and body, for the CRLF convention
/// (`crlf`) or the LF one.
pub open spec fn body_separator_for(crlf: bool) -> Seq<char> {
    if crlf {
        seq!['\r', '\n', '\r', '\n']
    } else {
        seq!['\r', '\n']
    }
}

/// `s` holds a line feed.
pub open spec fn has_line_feed(s: Seq<char>) -> bool {
    find(s, seq!['\n']) is Some
}

/// The first carriage return of `s` stands right before its first line feed.
pub open spec fn uses_crlf(s: Seq<char>) -> bool {
    match (find(s, seq!['\n']), find(s, seq!['\r'])) {
        (Some(p), Some(q)) => p >= 1 && q == p - 1,
        _ => false,
    }
}

/// The segments of `block` between occurrences of `sep`, in order. The bounds
/// tested on `k` hold of every first occurrence; they make the recursion's
/// progress evident.
pub open spec fn segments(block: Seq<char>, sep: Seq<char>) -> Seq<Seq<char>>
    decreases block.len(),
{
    match find(block, sep) {
        Some(k) => if 0 <= k && 0 < sep.len() && k + sep.len() <= block.len() {
            seq![block.subrange(0, k)] + segments(
                block.subrange(k + sep.len(), block.len() as int),
                sep,
            )
        } else {
            seq![block]
        },
        None => seq![block],
    }
}

/// The header that a non-empty segment holds: the name before its first `:`,
/// trimmed and lower-cased, and the value after it, trimmed. `None` without `:`.
pub open spec fn field_of(segment: Seq<char>) -> Option<(Seq<char>, Seq<char>)> {
    match find(segment, seq![':']) {
        Some(c) => Some(
            (
                ascii_lower_all(trim(segment.subrange(0, c))),
                trim(segment.subrange(c + 1, segment.len() as int)),
            ),
        ),
        None => None,
    }
}

/// The headers after reading one more segment into `acc`: an empty segment
/// changes nothing, a header replaces any earlier value of its name, and a
/// segment without `:` fails.
pub open spec fn add_segment(acc: Map<Seq<char>, Seq<char>>, segment: Seq<char>) -> Option<
    Map<Seq<char>, Seq<char>>,
> {
    if segment.len() == 0 {
        Some(acc)
    } else {
        match field_of(segment) {
            Some(f) => Some(acc.insert(f.0, f.1)),
            None => None,
        }
    }
}

/// The headers after reading every segment of `segs` into `acc`, in order.
pub open spec fn add_segments(acc: Map<Seq<char>, Seq<char>>, segs: Seq<Seq<char>>) -> Option<
    Map<Seq<char>, Seq<char>>,
>
    decreases segs.len(),
{
    if segs.len() == 0 {
        Some(acc)
    } else {
        match add_segment(acc, segs[0]) {
            Some(next) => add_segments(next, segs.drop_first()),
            None => None,
        }
    }
}

/// The header map of a header block whose lines end in `sep`.
pub open spec fn header_map(block: Seq<char>, sep: Seq<char>) -> Option<Map<Seq<char>, Seq<char>>> {
    add_segments(Map::empty(), segments(block, sep))
}

/// Splits a decoded message into its initial line and its header block.
pub open spec fn frame(s: Seq<char>) -> Option<(Seq<char>, Seq<char>)> {
    let crlf = uses_crlf(s);
    let ls = line_separator_for(crlf);
    if !has_line_feed(s) {
        None
    } else {
        match find(s, ls) {
            None => None,
            Some(k) => {
                let rest = s.subrange(k + ls.len(), s.len() as int);
                match find(rest, body_separator_for(crlf)) {
                    None => None,
                    Some(b) => Some((s.subrange(0, k), rest.subrange(0, b))),
                }
            },
        }
    }
}

impl LineEndingFormat {
    /// Carries the separators of the CRLF convention (`crlf`) or of the LF one.
    pub open spec fn is_format(&self, crlf: bool) -> bool {
        &&& self.line_separator@ == line_separator_for(crlf)
        &&& self.headers_and_body_separator@ == body_separator_for(crlf)
    }

    /// The separators are those of one of the two conventions.
    pub open spec fn wf(&self) -> bool {
        self.is_format(true) || self.is_format(false)
    }

    /// Lines end in `"\r\n"`, the header block in `"\r\n\r\n"`.
    pub fn crlf() -> (r: LineEndingFormat)
        ensures
            r.is_format(true),
    {
        proof {
            reveal_strlit("\r\n");
            reveal_strlit("\r\n\r\n");
        }
        let r = LineEndingFormat { line_separator: "\r\n", headers_and_body_separator: "\r\n\r\n" };
        assert(r.line_separator@ =~= line_separator_for(true));
        assert(r.headers_and_body_separator@ =~= body_separator_for(true));
        r
    }

    /// Lines end in `"\n"`, the header block in `"\r\n"`.
    pub fn lf() -> (r: LineEndingFormat)
        ensures
            r.is_format(false),
    {
        proof {
            reveal_strlit("\n");
            reveal_strlit("\r\n");
        }
        let r = LineEndingFormat { line_separator: "\n", headers_and_body_separator: "\r\n" };
        assert(r.line_separator@ =~= line_separator_for(false));
        assert(r.headers_and_body_separator@ =~= body_separator_for(false));
        r
    }
}

/// A message read from a buffer: its initial line, left as it is, and its
/// headers. Every value, and the initial line, is borrowed from the buffer.
pub struct Message<'a> {
    /// The request line or status line.
    pub initial_line: &'a str,
    /// Lower-cased header names mapped to trimmed values.
    pub headers: Headers<'a>,
}

impl<'a> Message<'a> {
    /// Reads one header segment into `headers`; `false` when a non-empty
    /// segment has no `:`.
    fn add_field(headers: &mut Headers<'a>, segment: &'a str) -> (r: bool)
        requires
            old(headers).wf(),
        ensures
            final(headers).wf(),
            match add_segment(old(headers)@, segment@) {
                Some(m) => r && final(headers)@ == m,
                None => !r,
            },
    {
        if segment.is_empty() {
            return true;
        }
        proof {
            reveal_strlit(":");
        }
        assert(":"@ =~= seq![':']);
        match split_once(segment, ":") {
            None => false,
            Some((name, value)) => {
                let name = to_ascii_lower(trim_white_space(name));
                let value = trim_white_space(value);
                headers.insert(name, value);
                true
            },
        }
    }

    /// Decomposes a header block into its header map, splitting it into lines
    /// with the format's line separator.
    fn parse_headers(headers_text: &'a str, line_ending_format: LineEndingFormat) -> (r: Result<
        Headers<'a>,
        ParseError,
    >)
        requires
            line_ending_format.wf(),
        ensures
            match header_map(headers_text@, line_ending_format.line_separator@) {
                Some(m) => r is Ok && r->Ok_0.wf() && r->Ok_0@ == m,
                None => r is Err && r->Err_0 is InvalidHeaders,
            },
    {
        let sep = line_ending_format.line_separator;
        let ghost goal = header_map(headers_text@, sep@);
        let mut headers = Headers::new();
        let mut remaining = headers_text;
        loop
            invariant
                sep == line_ending_format.line_separator,
                goal == header_map(headers_text@, sep@),
                sep@ == line_separator_for(true) || sep@ == line_separator_for(false),
                headers.wf(),
                goal == add_segments(headers@, segments(remaining@, sep@)),
            decreases remaining@.len(),
        {
            let ghost acc = headers@;
            let ghost rem = remaining@;
            match split_once(remaining, sep) {
                Some((segment, rest)) => {
                    proof {
                        lemma_find_some(rem, sep@);
                        let segs = segments(rem, sep@);
                        let tail = segments(rest@, sep@);
                        assert(segs == seq![segment@] + tail);
                        assert(segs[0] == segment@);
                        assert(segs.drop_first() =~= tail);
                    }
                    if !Self::add_field(&mut headers, segment) {
                        assert(add_segments(acc, segments(rem, sep@)) is None);
                        return Err(ParseError::InvalidHeaders);
                    }
                    remaining = rest;
                },
                None => {
                    proof {
                        let segs = segments(rem, sep@);
                        assert(segs == seq![rem]);
                        assert(segs[0] == rem);
                        assert(segs.drop_first() =~= Seq::<Seq<char>>::empty());
                    }
                    if !Self::add_field(&mut headers, remaining) {
                        assert(add_segments(acc, segments(rem, sep@)) is None);
                        return Err(ParseError::InvalidHeaders);
                    }
                    assert(add_segments(headers@, Seq::<Seq<char>>::empty()) == Some(headers@));
                    assert(add_segments(acc, segments(rem, sep@)) == Some(headers@));
                    return Ok(headers);
                },
            }
        }
    }

    /// Reads a message from `buf`: decodes it as UTF-8, detects its line
    /// endings, splits off the initial line and the header block, and
    /// decomposes the header block into the header map. The body is left out.
    pub fn from_buffer(buf: &'a [u8]) -> (r: Result<Message<'a>, ParseError>)
        ensures
            !valid_utf8(buf@) ==> r is Err && r->Err_0 is InvalidEncoding,
            valid_utf8(buf@) ==> match frame(decode_utf8(buf@)) {
                None => r is Err && r->Err_0 is InvalidLineEndings,
                Some(parts) => match header_map(
                    parts.1,
                    line_separator_for(uses_crlf(decode_utf8(buf@))),
                ) {
                    None => r is Err && r->Err_0 is InvalidHeaders,
                    Some(m) => {
                        &&& r is Ok
                        &&& r->Ok_0.initial_line@ == parts.0
                        &&& r->Ok_0.headers.wf()
                        &&& r->Ok_0.headers@ == m
                    },
                },
            },
            r is Ok ==> r->Ok_0.initial_line.spec_bytes() == buf@.subrange(
                0,
                r->Ok_0.initial_line.spec_bytes().len() as int,
            ),
    {
        let text = match text_from_utf8(buf) {
            Ok(t) => t,
            Err(e) => return Err(ParseError::InvalidEncoding(e)),
        };
        let ghost s = text@;
        proof {
            encode_utf8_valid_utf8(s);
            encode_utf8_decode_utf8(s);
            assert(decode_utf8(buf@) == s);
        }
        let line_ending_format = match Self::get_line_endings(text) {
            Ok(f) => f,
            Err(e) => return Err(e),
        };
        let ghost crlf = uses_crlf(s);
        assert(is_ascii_chars(line_ending_format.line_separator@));
        assert(is_ascii_chars(line_ending_format.headers_and_body_separator@));
        let (initial_line, rest) = match split_once(text, line_ending_format.line_separator) {
            Some(parts) => parts,
            None => return Err(ParseError::InvalidLineEndings),
        };
        let (headers_text, _body) = match split_once(
            rest,
            line_ending_format.headers_and_body_separator,
        ) {
            Some(parts) => parts,
            None => return Err(ParseError::InvalidLineEndings),
        };
        proof {
            let k = find(s, line_separator_for(crlf))->0;
            lemma_find_some(s, line_separator_for(crlf));
            assert(frame(s) == Some((initial_line@, headers_text@)));
            let tail = s.subrange(k, s.len() as int);
            assert(s =~= initial_line@ + tail);
            lemma_encode_concat(initial_line@, tail);
            assert(initial_line.spec_bytes() =~= buf@.subrange(
                0,
                initial_line.spec_bytes().len() as int,
            ));
        }
        let headers = match Self::parse_headers(headers_text, line_ending_format) {
            Ok(h) => h,
            Err(e) => return Err(e),
        };
        Ok(Message { initial_line, headers })
    }

    /// Finds which line-ending convention `message_text` follows: CRLF when its
    /// first carriage return stands right before its first line feed, LF
    /// otherwise. Fails when there is no line feed at all.
    pub fn get_line_endings(message_text: &'a str) -> (r: Result<LineEndingFormat, ParseError>)
        ensures
            match r {
                Ok(f) => has_line_feed(message_text@) && f.is_format(uses_crlf(message_text@)),
                Err(e) => !has_line_feed(message_text@) && e is InvalidLineEndings,
            },
    {
        proof {
            reveal_strlit("\n");
            reveal_strlit("\r");
        }
        let ghost s = message_text@;
        let ghost lf = seq!['\n'];
        let ghost cr = seq!['\r'];
        assert("\n"@ =~= lf);
        assert("\r"@ =~= cr);
        match split_once(message_text, "\n") {
            None => Err(ParseError::InvalidLineEndings),
            Some((before, _)) => {
                let ghost p = find(s, lf)->0;
                proof {
                    lemma_find_some(s, lf);
                }
                let crlf = match split_once(before, "\r") {
                    Some((_, after_cr)) => after_cr.is_empty(),
                    None => false,
                };
                proof {
                    let t = s.subrange(0, p);
                    assert(before@ == t);
                    if crlf {
                        let q = find(t, cr)->0;
                        lemma_find_some(t, cr);
                        lemma_first_occurrence_in_prefix(s, cr, p, q);
                        lemma_find_first(s, cr, q);
                    } else if uses_crlf(s) {
                        let q = p - 1;
                        lemma_find_some(s, cr);
                        lemma_first_occurrence_in_prefix(s, cr, p, q);
                        lemma_find_first(t, cr, q);
                    }
                }
                if crlf {
                    Ok(LineEndingFormat::crlf())
                } else {
                    Ok(LineEndingFormat::lf())
                }
            },
        }
    }
}

} // verus!
