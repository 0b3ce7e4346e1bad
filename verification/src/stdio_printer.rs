use vstd::prelude::*;

use crate::text::{chars_to_string, str_to_chars};

verus! {

/// If we don't get a newline for these many characters, the buffered line is
/// flushed anyway.
pub const MAX_BUFFER_SIZE: usize = 255;

/// The state of a printer after it is given character `c`: the character is
/// buffered, and the buffer is flushed to the output at a newline (unless
/// autoflush is disabled) or when it is full.
pub open spec fn print_char_state(buffer: Seq<char>, output: Seq<char>, c: char, disable_autoflush: bool) -> (Seq<char>, Seq<char>) {
    let b = buffer.push(c);
    if (!disable_autoflush && c == '\n') || b.len() == MAX_BUFFER_SIZE {
        (Seq::empty(), output + b)
    } else {
        (b, output)
    }
}

/// The state of a printer after it is given the characters of `s`.
pub open spec fn print_state(buffer: Seq<char>, output: Seq<char>, s: Seq<char>, disable_autoflush: bool) -> (Seq<char>, Seq<char>)
    decreases s.len(),
{
    if s.len() == 0 {
        (buffer, output)
    } else {
        let (b, o) = print_state(buffer, output, s.drop_last(), disable_autoflush);
        print_char_state(b, o, s.last(), disable_autoflush)
    }
}

/// Whether `after` is `before` once the line `s` and a newline are printed.
pub open spec fn printed_line(before: StdioPrinter, after: StdioPrinter, s: Seq<char>) -> bool {
    let (b, o) = print_state(before.buffer(), before.output(), s, before.autoflush_disabled());
    (after.buffer(), after.output()) == print_state(b, o, seq!['\n'], before.autoflush_disabled())
}

/// The buffer and output after printing each of `pieces` in order.
pub open spec fn print_pieces_state(
    buffer: Seq<char>,
    output: Seq<char>,
    pieces: Seq<Seq<char>>,
    disable_autoflush: bool,
) -> (Seq<char>, Seq<char>)
    decreases pieces.len(),
{
    if pieces.len() == 0 {
        (buffer, output)
    } else {
        let (b, o) = print_pieces_state(buffer, output, pieces.drop_last(), disable_autoflush);
        print_state(b, o, pieces.last(), disable_autoflush)
    }
}

/// The buffer and output after printing each of `lines` followed by a
/// newline, in order.
pub open spec fn print_lines_state(
    buffer: Seq<char>,
    output: Seq<char>,
    lines: Seq<Seq<char>>,
    disable_autoflush: bool,
) -> (Seq<char>, Seq<char>)
    decreases lines.len(),
{
    if lines.len() == 0 {
        (buffer, output)
    } else {
        let (b, o) = print_lines_state(buffer, output, lines.drop_last(), disable_autoflush);
        let (b2, o2) = print_state(b, o, lines.last(), disable_autoflush);
        print_state(b2, o2, seq!['\n'], disable_autoflush)
    }
}

/// Printing neither loses nor reorders characters: what has been flushed
/// followed by what is buffered is what was there before followed by the
/// printed text.
pub proof fn lemma_print_keeps_text(buffer: Seq<char>, output: Seq<char>, s: Seq<char>, disable_autoflush: bool)
    ensures
        ({
            let (b, o) = print_state(buffer, output, s, disable_autoflush);
            o + b == output + buffer + s
        }),
    decreases s.len(),
{
    if s.len() > 0 {
        lemma_print_keeps_text(buffer, output, s.drop_last(), disable_autoflush);
        let (b, o) = print_state(buffer, output, s.drop_last(), disable_autoflush);
        let c = s.last();
        assert(b.push(c) =~= b + seq![c]);
        assert(output + buffer + s =~= (output + buffer + s.drop_last()) + seq![c]);
        assert(o + b.push(c) =~= (o + b) + seq![c]);
    }
}

/// Buffers printed text line by line; what has been flushed waits in the
/// output until it is taken and written out.
pub struct StdioPrinter {
    pub disable_autoflush: bool,
    line_buffer: Vec<char>,
    output: Vec<char>,
}

impl StdioPrinter {
    pub closed spec fn autoflush_disabled(&self) -> bool {
        self.disable_autoflush
    }

    pub closed spec fn buffer(&self) -> Seq<char> {
        self.line_buffer@
    }

    pub closed spec fn output(&self) -> Seq<char> {
        self.output@
    }

    pub closed spec fn wf(&self) -> bool {
        self.line_buffer@.len() < MAX_BUFFER_SIZE
    }

    pub fn new() -> (res: Self)
        ensures
            res.buffer().len() == 0,
            res.output().len() == 0,
            !res.autoflush_disabled(),
    {
        StdioPrinter { disable_autoflush: false, line_buffer: Vec::new(), output: Vec::new() }
    }

    /// Takes the buffered (not yet flushed) text.
    pub fn take_buffered_output(&mut self) -> (res: String)
        ensures
            res@ == old(self).buffer(),
            final(self).buffer().len() == 0,
            final(self).output() == old(self).output(),
            final(self).autoflush_disabled() == old(self).autoflush_disabled(),
    {
        let text = chars_to_string(self.line_buffer.as_slice());
        self.line_buffer.clear();
        text
    }

    /// Takes the flushed text, which is ready to be written out.
    pub fn take_output(&mut self) -> (res: String)
        ensures
            res@ == old(self).output(),
            final(self).output().len() == 0,
            final(self).buffer() == old(self).buffer(),
            final(self).autoflush_disabled() == old(self).autoflush_disabled(),
    {
        let text = chars_to_string(self.output.as_slice());
        self.output.clear();
        text
    }

    fn flush_line_buffer(&mut self)
        ensures
            final(self).buffer().len() == 0,
            final(self).output() == old(self).output() + old(self).buffer(),
            final(self).autoflush_disabled() == old(self).autoflush_disabled(),
    {
        let ghost b = self.line_buffer@;
        let mut i: usize = 0;
        while i < self.line_buffer.len()
            invariant
                i <= self.line_buffer.len(),
                self.line_buffer@ == b,
                self.output@ == old(self).output() + b.take(i as int),
                self.autoflush_disabled() == old(self).autoflush_disabled(),
            decreases self.line_buffer.len() - i,
        {
            let c = self.line_buffer[i];
            self.output.push(c);
            i = i + 1;
            assert(self.output@ =~= old(self).output() + b.take(i as int));
        }
        assert(b.take(b.len() as int) =~= b);
        self.line_buffer.clear();
    }

    /// Flushes any buffered output followed by a newline.
    pub fn print_buffered_output(&mut self)
        ensures
            final(self).buffer().len() == 0,
            old(self).buffer().len() == 0 ==> final(self).output() == old(self).output(),
            old(self).buffer().len() > 0 ==> final(self).output() == old(self).output() + old(self).buffer().push('\n'),
            final(self).autoflush_disabled() == old(self).autoflush_disabled(),
    {
        if self.line_buffer.len() > 0 {
            self.line_buffer.push('\n');
            self.flush_line_buffer();
        }
    }

    /// Prints the given string in a line-buffered way.
    pub fn print(&mut self, value: &str)
        ensures
            (final(self).buffer(), final(self).output()) == print_state(
                old(self).buffer(),
                old(self).output(),
                value@,
                old(self).autoflush_disabled(),
            ),
            final(self).autoflush_disabled() == old(self).autoflush_disabled(),
    {
        let chars = str_to_chars(value);
        let mut i: usize = 0;
        while i < chars.len()
            invariant
                i <= chars.len(),
                chars@ == value@,
                self.autoflush_disabled() == old(self).autoflush_disabled(),
                (self.buffer(), self.output()) == print_state(
                    old(self).buffer(),
                    old(self).output(),
                    value@.take(i as int),
                    old(self).autoflush_disabled(),
                ),
            decreases chars.len() - i,
        {
            let ch = chars[i];
            assert(value@.take(i + 1).drop_last() =~= value@.take(i as int));
            self.line_buffer.push(ch);
            if !self.disable_autoflush && ch == '\n' || self.line_buffer.len() == MAX_BUFFER_SIZE {
                self.flush_line_buffer();
            }
            i = i + 1;
        }
        assert(value@.take(chars.len() as int) =~= value@);
    }

    /// Prints the given string in a line-buffered way, followed by a newline.
    pub fn println(&mut self, value: &str)
        ensures
            ({
                let (b, o) = print_state(
                    old(self).buffer(),
                    old(self).output(),
                    value@,
                    old(self).autoflush_disabled(),
                );
                (final(self).buffer(), final(self).output()) == print_state(b, o, seq!['\n'], old(self).autoflush_disabled())
            }),
            final(self).autoflush_disabled() == old(self).autoflush_disabled(),
    {
        self.print(value);
        proof {
            reveal_strlit("\n");
            assert("\n"@ =~= seq!['\n']);
        }
        self.print("\n");
    }
}

} // verus!
