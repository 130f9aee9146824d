use vstd::prelude::*;

use crate::buffered_char_reader::BufferedCharReader;
use crate::output_writer::{spaces, OutputWriter};

verus! {

/// The lexical context the scanner is in.
#[derive(Clone, Copy, Debug, PartialEq, Eq, Structural)]
pub enum State {
    Normal,
    LineComment,
    BlockComment,
    StringLiteral,
    TextBlockLiteral,
    CharLiteral,
}

/// `s` holds `c` at index `i`.
pub open spec fn char_at(s: Seq<char>, i: int, c: char) -> bool {
    0 <= i < s.len() && s[i] == c
}

pub open spec fn is_blank(c: char) -> bool {
    c == ' ' || c == '\t'
}

/// How many `*` follow one another in `s` from index `i` on.
pub open spec fn star_run(s: Seq<char>, i: int) -> nat
    decreases s.len() - i,
{
    if 0 <= i < s.len() && s[i] == '*' {
        1 + star_run(s, i + 1)
    } else {
        0
    }
}

/// How many spaces and tabs follow one another in `s` from index `i` on.
pub open spec fn blank_run(s: Seq<char>, i: int) -> nat
    decreases s.len() - i,
{
    if 0 <= i < s.len() && is_blank(s[i]) {
        1 + blank_run(s, i + 1)
    } else {
        0
    }
}

/// The continuation check of a block comment on the text `t` that follows:
/// how many characters it consumes (writing none of them), and whether it
/// found the comment's end.
pub open spec fn continuation(t: Seq<char>) -> (nat, bool) {
    let j = blank_run(t, 0);
    if char_at(t, j as int, '*') {
        if char_at(t, j + 1int, '/') {
            (j + 2, true)
        } else if char_at(t, j + 1int, ' ') {
            (j + 2, false)
        } else {
            (j + 1, false)
        }
    } else {
        (j, false)
    }
}

/// A content character of a string or text block as written out.
pub open spec fn masked(c: char, keep: bool) -> char {
    if keep {
        c
    } else {
        ' '
    }
}

/// One transition on the non-empty text `s` in state `st`: how many characters
/// of `s` it consumes, what it writes, and the state it leads to.
pub open spec fn step(s: Seq<char>, st: State, keep: bool) -> (nat, Seq<char>, State) {
    let c = s[0];
    match st {
        State::Normal => {
            if c == '/' && char_at(s, 1, '/') {
                (2, spaces(2), State::LineComment)
            } else if c == '/' && char_at(s, 1, '*') {
                let stars = star_run(s, 2);
                let (m, closed) = continuation(s.subrange(2 + stars as int, s.len() as int));
                (
                    2 + stars + m,
                    spaces(2 + stars),
                    if closed {
                        State::Normal
                    } else {
                        State::BlockComment
                    },
                )
            } else if c == '"' && char_at(s, 1, '"') && char_at(s, 2, '"') {
                (3, spaces(3), State::TextBlockLiteral)
            } else if c == '"' && char_at(s, 1, '"') {
                (2, spaces(2), State::Normal)
            } else if c == '"' {
                (1, spaces(1), State::StringLiteral)
            } else if c == '\'' {
                (1, spaces(1), State::CharLiteral)
            } else if c == '\n' {
                (1, seq!['\n'], State::Normal)
            } else {
                (1, spaces(1), State::Normal)
            }
        },
        State::LineComment => {
            if c == '\n' {
                (1, seq![c], State::Normal)
            } else {
                (1, seq![c], State::LineComment)
            }
        },
        State::BlockComment => {
            if c == '*' && char_at(s, 1, '/') {
                (2, spaces(2), State::Normal)
            } else if c == '\n' {
                let (m, closed) = continuation(s.subrange(1, s.len() as int));
                (
                    1 + m,
                    seq!['\n'],
                    if closed {
                        State::Normal
                    } else {
                        State::BlockComment
                    },
                )
            } else {
                (1, seq![c], State::BlockComment)
            }
        },
        State::StringLiteral => {
            if c == '\\' {
                if s.len() > 1 {
                    (2, seq![masked(s[1], keep)], State::StringLiteral)
                } else {
                    (1, Seq::empty(), State::StringLiteral)
                }
            } else if c == '"' {
                (1, spaces(1), State::Normal)
            } else if c == '\n' {
                (1, seq!['\n'], State::Normal)
            } else {
                (1, seq![masked(c, keep)], State::StringLiteral)
            }
        },
        State::TextBlockLiteral => {
            if c == '"' && char_at(s, 1, '"') && char_at(s, 2, '"') {
                (3, spaces(3), State::Normal)
            } else if c == '"' && char_at(s, 1, '"') {
                // Two quotes that do not close the block are both content.
                (2, seq![masked(c, keep), masked(c, keep)], State::TextBlockLiteral)
            } else if c == '\\' {
                if s.len() > 1 {
                    (2, seq![masked(s[1], keep)], State::TextBlockLiteral)
                } else {
                    (1, Seq::empty(), State::TextBlockLiteral)
                }
            } else if c == '\n' {
                (1, seq!['\n'], State::TextBlockLiteral)
            } else {
                (1, seq![masked(c, keep)], State::TextBlockLiteral)
            }
        },
        State::CharLiteral => {
            if c == '\\' {
                if s.len() > 1 {
                    (2, spaces(2), State::CharLiteral)
                } else {
                    (1, spaces(1), State::CharLiteral)
                }
            } else if c == '\'' {
                (1, spaces(1), State::Normal)
            } else if c == '\n' {
                (1, seq!['\n'], State::Normal)
            } else {
                (1, spaces(1), State::CharLiteral)
            }
        },
    }
}

/// The output of the scanner run on `s` from state `st` until the text ends.
/// (`lemma_step_bounds` shows that the guard on the step's width always holds.)
pub open spec fn scan(s: Seq<char>, st: State, keep: bool) -> Seq<char>
    decreases s.len(),
{
    if s.len() == 0 {
        Seq::empty()
    } else {
        let (k, out, next) = step(s, st, keep);
        if 1 <= k <= s.len() {
            out + scan(s.subrange(k as int, s.len() as int), next, keep)
        } else {
            out
        }
    }
}

/// The continuation check: while the next character is a space or a tab, skip
/// it; then skip a `*`, and after it a `/` (the comment is closed) or one space.
pub fn maybe_close_block_comment(reader: &mut BufferedCharReader) -> (closed: bool)
    requires
        old(reader).wf(),
    ensures
        final(reader).wf(),
        ({
            let (m, cl) = continuation(old(reader).remaining());
            &&& m <= old(reader).remaining().len()
            &&& final(reader).remaining() == old(reader).remaining().subrange(
                m as int,
                old(reader).remaining().len() as int,
            )
            &&& closed == cl
        }),
{
    let ghost t = reader.remaining();
    let ghost n = t.len() as int;
    let ghost mut j: int = 0;
    loop
        invariant
            reader.wf(),
            n == t.len(),
            0 <= j <= n,
            reader.remaining() == t.subrange(j, n),
            blank_run(t, 0) == j + blank_run(t, j),
        ensures
            reader.wf(),
            0 <= j <= n,
            reader.remaining() == t.subrange(j, n),
            blank_run(t, 0) == j,
        decreases n - j,
    {
        match reader.peek_char() {
            Some(c) => {
                assert(t.subrange(j, n).len() == n - j);
                assert(t[j] == t.subrange(j, n)[0]);
                if c == ' ' || c == '\t' {
                    reader.next_char();
                    proof {
                        j = j + 1;
                    }
                    assert(reader.remaining() =~= t.subrange(j, n));
                } else {
                    break;
                }
            },
            None => {
                assert(t.subrange(j, n).len() == n - j);
                break;
            },
        }
    }
    assert(blank_run(t, 0) == j);
    if let Some('*') = reader.peek_char() {
        reader.next_char();
        assert(reader.remaining() =~= t.subrange(j + 1, n));
        match reader.peek_char() {
            Some('/') => {
                reader.next_char();
                assert(reader.remaining() =~= t.subrange(j + 2, n));
                return true;
            },
            Some(' ') => {
                reader.next_char();
                assert(reader.remaining() =~= t.subrange(j + 2, n));
            },
            _ => {},
        }
    }
    false
}

/// Reads one character, which must be there.
fn take(reader: &mut BufferedCharReader) -> (c: char)
    requires
        old(reader).wf(),
        old(reader).remaining().len() > 0,
    ensures
        final(reader).wf(),
        c == old(reader).remaining()[0],
        final(reader).remaining() == old(reader).remaining().subrange(
            1,
            old(reader).remaining().len() as int,
        ),
{
    let c = reader.next_char().unwrap();
    assert(old(reader).remaining().drop_first() =~= old(reader).remaining().subrange(
        1,
        old(reader).remaining().len() as int,
    ));
    c
}

/// The character that `peek_char` shows, or `None` at the end of the text.
fn peek(reader: &mut BufferedCharReader) -> (r: Option<char>)
    requires
        old(reader).wf(),
    ensures
        final(reader).wf(),
        final(reader).remaining() == old(reader).remaining(),
        r == (if old(reader).remaining().len() > 0 {
            Some(old(reader).remaining()[0])
        } else {
            None
        }),
{
    reader.peek_char()
}

/// Writes a content character of a string or text block.
fn write_masked(writer: &mut OutputWriter, c: char, keep: bool)
    ensures
        final(writer).written() == old(writer).written().push(masked(c, keep)),
{
    if keep {
        writer.write_char(c);
    } else {
        writer.write_char(' ');
    }
}

/// Performs one transition of the scanner in state `st`: reads what `step`
/// consumes from `reader`, writes what it emits to `writer`, and returns the
/// next state.
pub fn scan_step(
    reader: &mut BufferedCharReader,
    writer: &mut OutputWriter,
    st: State,
    keep: bool,
) -> (next: State)
    requires
        old(reader).wf(),
        old(reader).remaining().len() > 0,
    ensures
        final(reader).wf(),
        ({
            let s = old(reader).remaining();
            let (k, out, nx) = step(s, st, keep);
            &&& 1 <= k <= s.len()
            &&& final(reader).remaining() == s.subrange(k as int, s.len() as int)
            &&& final(writer).written() == old(writer).written() + out
            &&& next == nx
        }),
{
    let ghost s = reader.remaining();
    let ghost n = s.len() as int;
    let ghost w0 = writer.written();
    let c = take(reader);
    match st {
        State::Normal => {
            if c == '/' {
                match peek(reader) {
                    Some('/') => {
                        take(reader);
                        assert(reader.remaining() =~= s.subrange(2, n));
                        writer.write_n_spaces(2);
                        State::LineComment
                    },
                    Some('*') => {
                        take(reader);
                        assert(reader.remaining() =~= s.subrange(2, n));
                        writer.write_n_spaces(2);
                        let ghost mut j: int = 2;
                        loop
                            invariant
                                reader.wf(),
                                n == s.len(),
                                2 <= j <= n,
                                reader.remaining() == s.subrange(j, n),
                                star_run(s, 2) == (j - 2) + star_run(s, j),
                                writer.written() == w0 + spaces((j - 2 + 2) as nat),
                            ensures
                                reader.wf(),
                                2 <= j <= n,
                                reader.remaining() == s.subrange(j, n),
                                star_run(s, 2) == j - 2,
                                writer.written() == w0 + spaces(j as nat),
                            decreases n - j,
                        {
                            let p = peek(reader);
                            proof {
                                if j < n {
                                    assert(s.subrange(j, n)[0] == s[j]);
                                }
                            }
                            if let Some('*') = p {
                                take(reader);
                                writer.write_char(' ');
                                proof {
                                    j = j + 1;
                                }
                                assert(reader.remaining() =~= s.subrange(j, n));
                                assert(spaces(j as nat) =~= spaces((j - 1) as nat).push(' '));
                                assert(w0 + spaces(j as nat) =~= w0 + spaces((j - 1) as nat)
                                    + seq![' ']);
                            } else {
                                break;
                            }
                        }
                        let closed = maybe_close_block_comment(reader);
                        assert(reader.remaining() =~= s.subrange(
                            2 + star_run(s, 2) + continuation(s.subrange(j, n)).0 as int,
                            n,
                        ));
                        if closed {
                            State::Normal
                        } else {
                            State::BlockComment
                        }
                    },
                    _ => {
                        writer.write_n_spaces(1);
                        State::Normal
                    },
                }
            } else if c == '"' {
                if let Some('"') = peek(reader) {
                    take(reader);
                    assert(reader.remaining() =~= s.subrange(2, n));
                    let p = peek(reader);
                    proof {
                        if n > 2 {
                            assert(s.subrange(2, n)[0] == s[2]);
                        }
                    }
                    if let Some('"') = p {
                        take(reader);
                        assert(reader.remaining() =~= s.subrange(3, n));
                        writer.write_n_spaces(3);
                        State::TextBlockLiteral
                    } else {
                        writer.write_n_spaces(2);
                        State::Normal
                    }
                } else {
                    writer.write_n_spaces(1);
                    State::StringLiteral
                }
            } else if c == '\'' {
                writer.write_n_spaces(1);
                State::CharLiteral
            } else if c == '\n' {
                writer.write_char('\n');
                State::Normal
            } else {
                writer.write_n_spaces(1);
                State::Normal
            }
        },
        State::LineComment => {
            writer.write_char(c);
            if c == '\n' {
                State::Normal
            } else {
                State::LineComment
            }
        },
        State::BlockComment => {
            if c == '*' {
                if let Some('/') = peek(reader) {
                    take(reader);
                    assert(reader.remaining() =~= s.subrange(2, n));
                    writer.write_n_spaces(2);
                    return State::Normal;
                }
                writer.write_char(c);
                State::BlockComment
            } else if c == '\n' {
                writer.write_char(c);
                let closed = maybe_close_block_comment(reader);
                assert(reader.remaining() =~= s.subrange(
                    1 + continuation(s.subrange(1, n)).0 as int,
                    n,
                ));
                if closed {
                    State::Normal
                } else {
                    State::BlockComment
                }
            } else {
                writer.write_char(c);
                State::BlockComment
            }
        },
        State::StringLiteral => {
            if c == '\\' {
                if let Some(e) = peek(reader) {
                    take(reader);
                    assert(reader.remaining() =~= s.subrange(2, n));
                    write_masked(writer, e, keep);
                }
                State::StringLiteral
            } else if c == '"' {
                writer.write_n_spaces(1);
                State::Normal
            } else if c == '\n' {
                writer.write_char(c);
                State::Normal
            } else {
                write_masked(writer, c, keep);
                State::StringLiteral
            }
        },
        State::TextBlockLiteral => {
            if c == '"' {
                if let Some('"') = peek(reader) {
                    take(reader);
                    assert(reader.remaining() =~= s.subrange(2, n));
                    let p = peek(reader);
                    proof {
                        if n > 2 {
                            assert(s.subrange(2, n)[0] == s[2]);
                        }
                    }
                    if let Some('"') = p {
                        take(reader);
                        assert(reader.remaining() =~= s.subrange(3, n));
                        writer.write_n_spaces(3);
                        return State::Normal;
                    }
                    // Only two quotes: both are content, as the second one
                    // would be on the next transition.
                    write_masked(writer, '"', keep);
                    write_masked(writer, '"', keep);
                    return State::TextBlockLiteral;
                }
                write_masked(writer, c, keep);
                State::TextBlockLiteral
            } else if c == '\\' {
                if let Some(e) = peek(reader) {
                    take(reader);
                    assert(reader.remaining() =~= s.subrange(2, n));
                    write_masked(writer, e, keep);
                }
                State::TextBlockLiteral
            } else if c == '\n' {
                writer.write_char(c);
                State::TextBlockLiteral
            } else {
                write_masked(writer, c, keep);
                State::TextBlockLiteral
            }
        },
        State::CharLiteral => {
            if c == '\\' {
                writer.write_n_spaces(1);
                if let Some(_) = peek(reader) {
                    take(reader);
                    assert(reader.remaining() =~= s.subrange(2, n));
                    writer.write_n_spaces(1);
                }
                State::CharLiteral
            } else if c == '\'' {
                writer.write_n_spaces(1);
                State::Normal
            } else if c == '\n' {
                writer.write_char(c);
                State::Normal
            } else {
                writer.write_n_spaces(1);
                State::CharLiteral
            }
        },
    }
}

/// Masks `input`: code becomes spaces, comments are kept, line breaks stay,
/// and string and text-block content is kept only when `preserve_strings`.
pub fn process(input: &str, preserve_strings: bool) -> (r: String)
    ensures
        r@ == scan(input@, State::Normal, preserve_strings),
{
    let mut reader = BufferedCharReader::new(input);
    let mut writer = OutputWriter::new();
    let mut state = State::Normal;
    loop
        invariant
            reader.wf(),
            writer.written() + scan(reader.remaining(), state, preserve_strings) == scan(
                input@,
                State::Normal,
                preserve_strings,
            ),
        ensures
            writer.written() == scan(input@, State::Normal, preserve_strings),
        decreases reader.remaining().len(),
    {
        if peek(&mut reader).is_none() {
            assert(writer.written() + Seq::<char>::empty() =~= writer.written());
            break;
        }
        let ghost s = reader.remaining();
        let ghost w = writer.written();
        let ghost st = state;
        state = scan_step(&mut reader, &mut writer, state, preserve_strings);
        proof {
            let (k, out, nx) = step(s, st, preserve_strings);
            let rest = scan(reader.remaining(), state, preserve_strings);
            assert(scan(s, st, preserve_strings) == out + rest);
            assert(w + (out + rest) =~= (w + out) + rest);
        }
    }
    writer.flush()
}

} // verus!
