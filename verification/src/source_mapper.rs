use vstd::prelude::*;

use crate::source_mapped::SourceRange;
use crate::text::{
    chars_range_to_string, concat, debug_repr, decimal, repeat_char, spec_debug_repr, str_to_chars, usize_to_string,
};
use crate::tokenizer::{skip_class, CharClass};

verus! {

/// Identifies one source text held by a `SourceMapper`.
#[derive(Debug, Clone, Copy, PartialEq, Eq, Hash, Structural)]
pub struct SourceId(pub usize);

/// The first line that a source range touches: its number (counting from 0),
/// the range's start and end within it, and the line's text.
#[derive(Debug, PartialEq)]
pub struct MappedLine {
    pub line_number: usize,
    pub start: usize,
    pub end: usize,
    pub line: String,
}

/// A line's text without the `\r` that may precede its newline.
pub open spec fn strip_cr(line: Seq<char>) -> Seq<char> {
    if line.len() > 0 && line.last() == '\r' {
        line.drop_last()
    } else {
        line
    }
}

/// The line (as `str::lines` splits text) that contains position `start`, found by
/// walking the lines from position `p`, which begins line `line_no`; `offset` is
/// the position the walk attributes to `p`, counting one character for each line
/// break. The range's start and end are given relative to the line, the end cut at
/// the line's end.
pub open spec fn spec_first_line(
    s: Seq<char>,
    p: int,
    line_no: nat,
    offset: int,
    start: int,
    end: int,
) -> Option<(nat, int, int, Seq<char>)>
    decreases s.len() - p,
{
    if p < 0 || p >= s.len() {
        None
    } else {
        let k = skip_class(s, p, CharClass::NotNewline);
        let line = strip_cr(s.subrange(p, k));
        if offset + line.len() > start {
            let rel_start = if start >= offset { start - offset } else { 0 };
            let width = if end >= start { end - start } else { 0 };
            let rel_end = if rel_start + width <= line.len() { rel_start + width } else { line.len() as int };
            Some((line_no, rel_start, rel_end, line))
        } else if k >= s.len() || k < p {
            None
        } else {
            spec_first_line(s, k + 1, line_no + 1, offset + line.len() + 1, start, end)
        }
    }
}

impl MappedLine {
    pub fn new(line_number: usize, start: usize, end: usize, line: &str) -> (res: Self)
        ensures
            res.line_number == line_number,
            res.start == start,
            res.end == end,
            res.line@ == line@,
    {
        MappedLine { line_number, start, end, line: String::from_str(line) }
    }

    /// Finds the first line of `contents` that the range `start..end` touches.
    pub fn from_source(contents: &str, start: usize, end: usize) -> (res: Option<Self>)
        ensures
            match spec_first_line(contents@, 0, 0, 0, start as int, end as int) {
                None => res is None,
                Some((n, s, e, l)) => res matches Some(m) && m.line_number == n && m.start == s
                    && m.end == e && m.line@ == l,
            },
    {
        let chars = str_to_chars(contents);
        let ghost s = chars@;
        let len = chars.len();
        let mut p: usize = 0;
        let mut line_number: usize = 0;
        let mut latest_char: usize = 0;
        while p < len
            invariant
                s == contents@,
                chars@ == s,
                len == s.len(),
                p <= len,
                latest_char <= p,
                line_number <= p,
                spec_first_line(s, p as int, line_number as nat, latest_char as int, start as int, end as int)
                    == spec_first_line(s, 0, 0, 0, start as int, end as int),
            decreases len - p,
        {
            let mut k = p;
            while k < len && chars[k] != '\n'
                invariant
                    p <= k <= len,
                    len == chars@.len(),
                    skip_class(chars@, k as int, CharClass::NotNewline) == skip_class(
                        chars@,
                        p as int,
                        CharClass::NotNewline,
                    ),
                decreases len - k,
            {
                k = k + 1;
            }
            let mut line_end = k;
            if line_end > p && chars[line_end - 1] == '\r' {
                line_end = line_end - 1;
            }
            let ghost line = strip_cr(s.subrange(p as int, k as int));
            assert(line =~= s.subrange(p as int, line_end as int));
            let line_len = line_end - p;
            if latest_char + line_len > start {
                let rel_start = if start >= latest_char { start - latest_char } else { 0 };
                let width = if end >= start { end - start } else { 0 };
                let rel_end = if width <= line_len - rel_start { rel_start + width } else { line_len };
                let text = chars_range_to_string(&chars, p, line_end);
                return Some(MappedLine { line_number, start: rel_start, end: rel_end, line: text });
            }
            if k >= len {
                return None;
            }
            latest_char = latest_char + line_len + 1;
            line_number = line_number + 1;
            p = k + 1;
        }
        None
    }
}

/// The lines that describe where a source range is: the file's name (quoted)
/// and the line number, counted from one, then the line's text and carets
/// under the range, each after `| `. A range whose source is unknown is
/// `<unknown location>`; one that starts past the end of its text is shown
/// by the file's name alone.
pub open spec fn trace_lines(sources: Seq<(Seq<char>, Seq<char>)>, range: SourceRange) -> Seq<Seq<char>> {
    match range.2 {
        None => seq!["<unknown location>"@],
        Some(id) => if id.0 >= sources.len() {
            seq!["<unknown location>"@]
        } else {
            let name = spec_debug_repr(sources[id.0 as int].0);
            match spec_first_line(sources[id.0 as int].1, 0, 0, 0, range.0 as int, range.1 as int) {
                None => seq![name],
                Some((n, start, end, line)) => seq![
                    name + ", line "@ + decimal(if n < usize::MAX { (n + 1) as nat } else { n as nat }) + ":"@,
                    "| "@ + line,
                    "| "@ + Seq::new(start as nat, |_i: int| ' ') + Seq::new(
                        (if end > start { end - start } else { 1 }) as nat,
                        |_i: int| '^',
                    ),
                ],
            }
        },
    }
}

/// A source text and the name of the file it came from.
pub struct Source {
    filename: String,
    contents: String,
}

/// Holds every source text that has been evaluated, so that ranges can be shown.
pub struct SourceMapper {
    sources: Vec<Source>,
}

impl SourceMapper {
    /// The sources held, as (file name, contents), indexed by `SourceId`.
    pub closed spec fn view(&self) -> Seq<(Seq<char>, Seq<char>)> {
        self.sources@.map_values(|s: Source| (s.filename@, s.contents@))
    }

    pub fn new() -> (res: Self)
        ensures
            res@ == Seq::<(Seq<char>, Seq<char>)>::empty(),
    {
        let res = SourceMapper { sources: Vec::new() };
        assert(res@ =~= Seq::<(Seq<char>, Seq<char>)>::empty());
        res
    }

    pub fn add(&mut self, filename: String, contents: String) -> (res: SourceId)
        ensures
            res.0 == old(self)@.len(),
            final(self)@ == old(self)@.push((filename@, contents@)),
    {
        let id = self.sources.len();
        let ghost f = filename@;
        let ghost c = contents@;
        self.sources.push(Source { filename, contents });
        assert(self@ =~= old(self)@.push((f, c)));
        SourceId(id)
    }

    pub fn get_contents(&self, id: SourceId) -> (res: &str)
        requires
            id.0 < self@.len(),
        ensures
            res@ == self@[id.0 as int].1,
    {
        self.sources[id.0].contents.as_str()
    }

    pub fn get_filename(&self, id: SourceId) -> (res: &str)
        requires
            id.0 < self@.len(),
        ensures
            res@ == self@[id.0 as int].0,
    {
        self.sources[id.0].filename.as_str()
    }

    /// Given a source range, return the line number it's on, the start position of
    /// the range within the line, and the end position of the range within the line.
    /// If the range extends past the line, the end position will be the end of the line.
    pub fn get_first_line(&self, source_range: &SourceRange) -> (res: Option<MappedLine>)
        requires
            source_range.2 matches Some(id) ==> id.0 < self@.len(),
        ensures
            match source_range.2 {
                None => res is None,
                Some(id) => match spec_first_line(
                    self@[id.0 as int].1,
                    0,
                    0,
                    0,
                    source_range.0 as int,
                    source_range.1 as int,
                ) {
                    None => res is None,
                    Some((n, s, e, l)) => res matches Some(m) && m.line_number == n && m.start
                        == s && m.end == e && m.line@ == l,
                },
            },
    {
        let (start, end, source_id) = *source_range;
        match source_id {
            None => None,
            Some(source_id) => {
                let contents = self.get_contents(source_id);
                MappedLine::from_source(contents, start, end)
            },
        }
    }

    /// Describes where a source range is, for error messages: the file and line,
    /// the line's text, and carets under the range.
    pub fn trace(&self, source_range: &SourceRange) -> (res: Vec<String>)
        ensures
            res@.map_values(|l: String| l@) == trace_lines(self@, *source_range),
    {
        let mut lines: Vec<String> = Vec::new();
        match source_range.2 {
            None => {
                lines.push(String::from_str("<unknown location>"));
            },
            Some(id) => {
                if id.0 >= self.sources.len() {
                    lines.push(String::from_str("<unknown location>"));
                    proof {
                        assert(lines@.map_values(|l: String| l@) =~= trace_lines(self@, *source_range));
                    }
                    return lines;
                }
                let name = debug_repr(self.get_filename(id));
                match self.get_first_line(source_range) {
                    None => {
                        lines.push(name);
                    },
                    Some(line) => {
                        let number = usize_to_string(if line.line_number < usize::MAX {
                            line.line_number + 1
                        } else {
                            line.line_number
                        });
                        let first = concat(
                            concat(concat(name.as_str(), ", line ").as_str(), number.as_str()).as_str(),
                            ":",
                        );
                        lines.push(first);
                        lines.push(concat("| ", line.line.as_str()));
                        let width = if line.end > line.start { line.end - line.start } else { 1 };
                        let carets = concat(
                            repeat_char(' ', line.start).as_str(),
                            repeat_char('^', width).as_str(),
                        );
                        lines.push(concat("| ", carets.as_str()));
                        proof {
                            let expected = trace_lines(self@, *source_range);
                            assert(expected.len() == 3);
                            assert(lines@.len() == 3);
                            assert(lines@[0]@ == expected[0]);
                            assert(lines@[1]@ == expected[1]);
                            assert(lines@[2]@ == expected[2]);
                        }
                    },
                }
            },
        }
        proof {
            assert(lines@.map_values(|l: String| l@) =~= trace_lines(self@, *source_range));
        }
        lines
    }
}

/// A source reads back as it was added: the id that `add` returns names the
/// file name and contents it was given, and every source added before keeps
/// its own.
pub proof fn lemma_added_source_reads_back(
    sources: Seq<(Seq<char>, Seq<char>)>,
    filename: Seq<char>,
    contents: Seq<char>,
    i: int,
)
    ensures
        sources.push((filename, contents))[sources.len() as int] == (filename, contents),
        0 <= i < sources.len() ==> sources.push((filename, contents))[i] == sources[i],
{
}

} // verus!
