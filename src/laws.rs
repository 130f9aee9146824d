use vstd::prelude::*;

use crate::output_writer::spaces;
use crate::scanner::{
    blank_run, char_at, continuation, is_blank, masked, scan, star_run, step, State,
};

verus! {

proof fn lemma_star_run(s: Seq<char>, i: int)
    requires
        0 <= i <= s.len(),
    ensures
        i + star_run(s, i) <= s.len(),
        forall|j: int| i <= j < i + star_run(s, i) ==> s[j] == '*',
    decreases s.len() - i,
{
    if i < s.len() && s[i] == '*' {
        lemma_star_run(s, i + 1);
    }
}

proof fn lemma_blank_run(s: Seq<char>, i: int)
    requires
        0 <= i <= s.len(),
    ensures
        i + blank_run(s, i) <= s.len(),
        forall|j: int| i <= j < i + blank_run(s, i) ==> is_blank(s[j]),
    decreases s.len() - i,
{
    if i < s.len() && is_blank(s[i]) {
        lemma_blank_run(s, i + 1);
    }
}

proof fn lemma_continuation(t: Seq<char>)
    ensures
        continuation(t).0 <= t.len(),
        forall|j: int| 0 <= j < continuation(t).0 ==> t[j] != '\n',
{
    lemma_blank_run(t, 0);
}

/// Every transition consumes at least one character and no more than there are.
pub proof fn lemma_step_bounds(s: Seq<char>, st: State, keep: bool)
    requires
        s.len() > 0,
    ensures
        1 <= step(s, st, keep).0 <= s.len(),
{
    lemma_continuation(s.subrange(1, s.len() as int));
    if s.len() >= 2 {
        lemma_star_run(s, 2);
        lemma_continuation(s.subrange(2 + star_run(s, 2) as int, s.len() as int));
    }
}

/// Text made only of spaces and line breaks comes out unchanged.
pub proof fn lemma_blank_text_fixed(s: Seq<char>, keep: bool)
    requires
        forall|i: int| 0 <= i < s.len() ==> s[i] == ' ' || s[i] == '\n',
    ensures
        scan(s, State::Normal, keep) == s,
    decreases s.len(),
{
    if s.len() > 0 {
        let rest = s.subrange(1, s.len() as int);
        lemma_blank_text_fixed(rest, keep);
        assert(spaces(1) =~= seq![' ']);
        assert(s =~= seq![s[0]] + rest);
    }
}

/// The number of line breaks in `s`.
pub open spec fn breaks(s: Seq<char>) -> nat
    decreases s.len(),
{
    if s.len() == 0 {
        0
    } else {
        (if s[0] == '\n' {
            1nat
        } else {
            0nat
        }) + breaks(s.drop_first())
    }
}

/// Whether the transition on `s` is an escape whose target, a line break,
/// is written as a space.
pub open spec fn escapes_break(s: Seq<char>, st: State, keep: bool) -> bool {
    &&& char_at(s, 0, '\\')
    &&& char_at(s, 1, '\n')
    &&& (st == State::CharLiteral || (!keep && (st == State::StringLiteral || st
        == State::TextBlockLiteral)))
}

/// How many line breaks the scanner, run on `s` from state `st`, meets as the
/// target of an escape that it masks.
pub open spec fn masked_breaks(s: Seq<char>, st: State, keep: bool) -> nat
    decreases s.len(),
{
    if s.len() == 0 {
        0
    } else {
        let (k, out, next) = step(s, st, keep);
        let here: nat = if escapes_break(s, st, keep) {
            1
        } else {
            0
        };
        if 1 <= k <= s.len() {
            here + masked_breaks(s.subrange(k as int, s.len() as int), next, keep)
        } else {
            here
        }
    }
}

proof fn lemma_breaks_add(a: Seq<char>, b: Seq<char>)
    ensures
        breaks(a + b) == breaks(a) + breaks(b),
    decreases a.len(),
{
    if a.len() == 0 {
        assert(a + b =~= b);
    } else {
        assert((a + b).drop_first() =~= a.drop_first() + b);
        lemma_breaks_add(a.drop_first(), b);
    }
}

proof fn lemma_breaks_none(a: Seq<char>)
    requires
        forall|i: int| 0 <= i < a.len() ==> a[i] != '\n',
    ensures
        breaks(a) == 0,
    decreases a.len(),
{
    if a.len() > 0 {
        lemma_breaks_none(a.drop_first());
    }
}

proof fn lemma_breaks_one(c: char)
    ensures
        breaks(seq![c]) == (if c == '\n' {
            1nat
        } else {
            0nat
        }),
{
    assert(seq![c].drop_first() =~= Seq::<char>::empty());
    reveal_with_fuel(breaks, 2);
}

/// The first `k` characters of `s`, taken one by one.
proof fn lemma_prefix_parts(s: Seq<char>)
    ensures
        s.len() >= 1 ==> s.subrange(0, 1) =~= seq![s[0]],
        s.len() >= 2 ==> s.subrange(0, 2) =~= seq![s[0]] + seq![s[1]],
        s.len() >= 3 ==> s.subrange(0, 3) =~= seq![s[0]] + seq![s[1]] + seq![s[2]],
{
}

/// On one transition, the line breaks written are those consumed, but for a
/// masked escaped one.
proof fn lemma_step_breaks(s: Seq<char>, st: State, keep: bool)
    requires
        s.len() > 0,
    ensures
        breaks(step(s, st, keep).1) + (if escapes_break(s, st, keep) {
            1nat
        } else {
            0nat
        }) == breaks(s.subrange(0, step(s, st, keep).0 as int)),
{
    let n = s.len() as int;
    let (k, out, next) = step(s, st, keep);
    lemma_step_bounds(s, st, keep);
    lemma_prefix_parts(s);
    lemma_breaks_none(spaces(1));
    lemma_breaks_none(spaces(2));
    lemma_breaks_none(spaces(3));
    lemma_breaks_none(Seq::<char>::empty());
    lemma_breaks_one(s[0]);
    lemma_breaks_one(' ');
    lemma_breaks_one('\n');
    lemma_breaks_one('"');
    lemma_breaks_add(seq![s[0]], Seq::<char>::empty());
    if n >= 2 {
        lemma_breaks_one(s[1]);
        lemma_breaks_add(seq![s[0]], seq![s[1]]);
        if n >= 3 {
            lemma_breaks_one(s[2]);
            lemma_breaks_add(seq![s[0]] + seq![s[1]], seq![s[2]]);
        }
        lemma_breaks_one(' ');
        lemma_breaks_add(seq![s[1]], Seq::<char>::empty());
        assert(seq![' ', ' '] =~= seq![' '] + seq![' ']);
        assert(seq!['"', '"'] =~= seq!['"'] + seq!['"']);
        lemma_breaks_add(seq![' '], seq![' ']);
        lemma_breaks_add(seq!['"'], seq!['"']);
    }
    if st == State::Normal && s[0] == '/' && char_at(s, 1, '*') {
        let stars = star_run(s, 2);
        lemma_star_run(s, 2);
        let t = s.subrange(2 + stars as int, n);
        lemma_continuation(t);
        lemma_breaks_none(spaces(2 + stars));
        assert forall|i: int| 0 <= i < k implies #[trigger] s.subrange(0, k as int)[i] != '\n' by {
            if i >= 2 + stars {
                assert(s[i] == t[i - 2 - stars]);
            }
        }
        lemma_breaks_none(s.subrange(0, k as int));
    } else if st == State::BlockComment && s[0] == '\n' {
        let t = s.subrange(1, n);
        lemma_continuation(t);
        assert(s.subrange(0, k as int) =~= seq![s[0]] + s.subrange(1, k as int));
        lemma_breaks_none(s.subrange(1, k as int));
        lemma_breaks_add(seq![s[0]], s.subrange(1, k as int));
    }
}

/// Line breaks are kept: the output holds as many as the input, less those
/// that stand right after a backslash in a literal that is masked.
pub proof fn lemma_line_breaks_kept(s: Seq<char>, st: State, keep: bool)
    ensures
        breaks(scan(s, st, keep)) + masked_breaks(s, st, keep) == breaks(s),
    decreases s.len(),
{
    if s.len() > 0 {
        let n = s.len() as int;
        let (k, out, next) = step(s, st, keep);
        lemma_step_bounds(s, st, keep);
        let rest = s.subrange(k as int, n);
        lemma_line_breaks_kept(rest, next, keep);
        lemma_step_breaks(s, st, keep);
        lemma_breaks_add(out, scan(rest, next, keep));
        assert(s =~= s.subrange(0, k as int) + rest);
        lemma_breaks_add(s.subrange(0, k as int), rest);
    }
}

/// No backslash in `s` stands right before a line break.
pub open spec fn no_escaped_break(s: Seq<char>) -> bool {
    forall|i: int| 0 <= i < s.len() - 1 ==> !(s[i] == '\\' && #[trigger] s[i + 1] == '\n')
}

proof fn lemma_no_masked_breaks(s: Seq<char>, st: State, keep: bool)
    requires
        no_escaped_break(s),
    ensures
        masked_breaks(s, st, keep) == 0,
    decreases s.len(),
{
    if s.len() > 0 {
        let n = s.len() as int;
        let (k, out, next) = step(s, st, keep);
        lemma_step_bounds(s, st, keep);
        let rest = s.subrange(k as int, n);
        assert forall|i: int| 0 <= i < rest.len() - 1 implies !(rest[i] == '\\' && #[trigger] rest[i
            + 1] == '\n') by {
            assert(rest[i] == s[i + k] && rest[i + 1] == s[i + k + 1]);
        }
        if n >= 2 {
            assert(!(s[0] == '\\' && s[0int + 1] == '\n'));
        }
        lemma_no_masked_breaks(rest, next, keep);
    }
}

/// Where no backslash stands right before a line break, the output holds
/// exactly as many line breaks as the input.
pub proof fn lemma_line_break_count(s: Seq<char>, keep: bool)
    requires
        no_escaped_break(s),
    ensures
        breaks(scan(s, State::Normal, keep)) == breaks(s),
{
    lemma_line_breaks_kept(s, State::Normal, keep);
    lemma_no_masked_breaks(s, State::Normal, keep);
}

/// How many consumed characters one transition writes nothing for: an escape
/// in a string or text block collapses, and the continuation check of a block
/// comment writes nothing.
pub open spec fn step_narrowing(s: Seq<char>, st: State) -> nat {
    let n = s.len() as int;
    match st {
        State::Normal => {
            if s[0] == '/' && char_at(s, 1, '*') {
                continuation(s.subrange(2 + star_run(s, 2) as int, n)).0
            } else {
                0
            }
        },
        State::BlockComment => {
            if s[0] == '\n' {
                continuation(s.subrange(1, n)).0
            } else {
                0
            }
        },
        State::StringLiteral | State::TextBlockLiteral => {
            if s[0] == '\\' {
                1
            } else {
                0
            }
        },
        _ => 0,
    }
}

/// `step_narrowing` summed over the run of the scanner on `s` from state `st`.
pub open spec fn narrowing(s: Seq<char>, st: State, keep: bool) -> nat
    decreases s.len(),
{
    if s.len() == 0 {
        0
    } else {
        let (k, out, next) = step(s, st, keep);
        if 1 <= k <= s.len() {
            step_narrowing(s, st) + narrowing(s.subrange(k as int, s.len() as int), next, keep)
        } else {
            step_narrowing(s, st)
        }
    }
}

/// The output is as long as the input, less one character for each escape in
/// a string or text block and the characters that block-comment continuation
/// checks consume; with neither, the lengths are equal.
pub proof fn lemma_output_length(s: Seq<char>, st: State, keep: bool)
    ensures
        scan(s, st, keep).len() + narrowing(s, st, keep) == s.len(),
        narrowing(s, st, keep) == 0 ==> scan(s, st, keep).len() == s.len(),
    decreases s.len(),
{
    if s.len() > 0 {
        let n = s.len() as int;
        let (k, out, next) = step(s, st, keep);
        lemma_step_bounds(s, st, keep);
        lemma_output_length(s.subrange(k as int, n), next, keep);
    }
}

/// Whether `c` is plain content in state `st`: it neither ends the construct
/// nor starts an escape, so the scanner writes it at once and stays.
pub open spec fn plain_in(c: char, st: State) -> bool {
    match st {
        State::Normal => false,
        State::LineComment => c != '\n',
        State::BlockComment => c != '*' && c != '\n',
        State::StringLiteral => c != '\\' && c != '"' && c != '\n',
        State::TextBlockLiteral => c != '\\' && c != '"',
        State::CharLiteral => c != '\\' && c != '\'' && c != '\n',
    }
}

/// What the scanner writes for plain content `c` in state `st`.
pub open spec fn content_out(c: char, st: State, keep: bool) -> char {
    match st {
        State::LineComment | State::BlockComment => c,
        State::StringLiteral | State::TextBlockLiteral => {
            if c == '\n' {
                c
            } else {
                masked(c, keep)
            }
        },
        _ => ' ',
    }
}

/// What the scanner writes for the content `body` in state `st`.
pub open spec fn contents_out(body: Seq<char>, st: State, keep: bool) -> Seq<char> {
    body.map_values(|c: char| content_out(c, st, keep))
}

proof fn lemma_plain_step(s: Seq<char>, st: State, keep: bool)
    requires
        s.len() > 0,
        plain_in(s[0], st),
    ensures
        step(s, st, keep) == (1nat, seq![content_out(s[0], st, keep)], st),
{
    assert(spaces(1) =~= seq![' ']);
}

proof fn lemma_plain_run(body: Seq<char>, t: Seq<char>, st: State, keep: bool)
    requires
        forall|i: int| 0 <= i < body.len() ==> plain_in(#[trigger] body[i], st),
    ensures
        scan(body + t, st, keep) == contents_out(body, st, keep) + scan(t, st, keep),
    decreases body.len(),
{
    if body.len() == 0 {
        assert(body + t =~= t);
        assert(contents_out(body, st, keep) + scan(t, st, keep) =~= scan(t, st, keep));
    } else {
        let s = body + t;
        let rest = body.subrange(1, body.len() as int);
        assert(s[0] == body[0]);
        assert(plain_in(body[0], st));
        assert(s.subrange(1, s.len() as int) =~= rest + t);
        lemma_plain_step(s, st, keep);
        lemma_plain_run(rest, t, st, keep);
        assert(contents_out(body, st, keep) =~= seq![content_out(body[0], st, keep)]
            + contents_out(rest, st, keep));
    }
}

/// The characters that open a construct of state `st`.
pub open spec fn opening(st: State) -> Seq<char> {
    match st {
        State::Normal => Seq::empty(),
        State::LineComment => seq!['/', '/'],
        State::BlockComment => seq!['/', '*'],
        State::StringLiteral => seq!['"'],
        State::TextBlockLiteral => seq!['"', '"', '"'],
        State::CharLiteral => seq!['\''],
    }
}

/// The characters that close a construct of state `st`.
pub open spec fn closing(st: State) -> Seq<char> {
    match st {
        State::Normal => Seq::empty(),
        State::LineComment => seq!['\n'],
        State::BlockComment => seq!['*', '/'],
        State::StringLiteral => seq!['"'],
        State::TextBlockLiteral => seq!['"', '"', '"'],
        State::CharLiteral => seq!['\''],
    }
}

/// What the scanner writes for `closing(st)`: the line break that ends a line
/// comment, spaces for the rest.
pub open spec fn closing_out(st: State) -> Seq<char> {
    if st == State::LineComment {
        seq!['\n']
    } else {
        spaces(closing(st).len())
    }
}

/// `body` is the content of a well-formed construct of state `st`: a block
/// comment's content is not empty and holds no `*`; the content of the other
/// constructs holds only plain characters, and a string's is not empty (two
/// quotes are an empty string of their own).
pub open spec fn well_formed_body(body: Seq<char>, st: State) -> bool {
    &&& st != State::Normal
    &&& st == State::BlockComment ==> body.len() > 0 && forall|i: int|
        0 <= i < body.len() ==> #[trigger] body[i] != '*'
    &&& st != State::BlockComment ==> forall|i: int|
        0 <= i < body.len() ==> plain_in(#[trigger] body[i], st)
    &&& st == State::StringLiteral ==> body.len() > 0
}

proof fn lemma_scan_unfold(s: Seq<char>, st: State, keep: bool)
    requires
        s.len() > 0,
    ensures
        scan(s, st, keep) == step(s, st, keep).1 + scan(
            s.subrange(step(s, st, keep).0 as int, s.len() as int),
            step(s, st, keep).2,
            keep,
        ),
{
    lemma_step_bounds(s, st, keep);
}

proof fn lemma_open_step(body: Seq<char>, r: Seq<char>, st: State, keep: bool)
    requires
        well_formed_body(body, st),
        st != State::BlockComment,
    ensures
        step(opening(st) + body + r, State::Normal, keep) == (
            opening(st).len(),
            spaces(opening(st).len()),
            st,
        ),
{
    let s = opening(st) + body + r;
    let n = s.len() as int;
    match st {
        State::StringLiteral => {
            assert(s[0] == '"');
            assert(s[1] == body[0]);
        },
        State::LineComment => {
            assert(s[0] == '/' && s[1] == '/');
        },
        State::TextBlockLiteral => {
            assert(s[0] == '"' && s[1] == '"' && s[2] == '"');
        },
        State::CharLiteral => {
            assert(s[0] == '\'');
        },
        _ => {},
    }
}

proof fn lemma_close_step(t: Seq<char>, st: State, keep: bool)
    requires
        st != State::Normal,
    ensures
        step(closing(st) + t, st, keep) == (closing(st).len(), closing_out(st), State::Normal),
{
    let s = closing(st) + t;
    match st {
        State::BlockComment => {
            assert(s[0] == '*' && s[1] == '/');
        },
        State::TextBlockLiteral => {
            assert(s[0] == '"' && s[1] == '"' && s[2] == '"');
        },
        _ => {
            assert(s[0] == closing(st)[0]);
        },
    }
}

/// What the scanner writes for a well-formed construct other than a block
/// comment, whatever follows it.
proof fn lemma_construct_out(body: Seq<char>, t: Seq<char>, st: State, keep: bool)
    requires
        well_formed_body(body, st),
        st != State::BlockComment,
    ensures
        scan(opening(st) + body + closing(st) + t, State::Normal, keep) == spaces(
            opening(st).len(),
        ) + contents_out(body, st, keep) + closing_out(st) + scan(t, State::Normal, keep),
{
    let x = opening(st);
    let y = closing(st);
    let s = x + body + y + t;
    let n = s.len() as int;
    let yt = y + t;
    assert(s =~= x + (body + yt));
    assert(s.subrange(x.len() as int, n) =~= body + yt);
    assert(yt.subrange(y.len() as int, yt.len() as int) =~= t);
    lemma_open_step(body, y + t, st, keep);
    assert(x + body + (y + t) =~= s);
    lemma_scan_unfold(s, State::Normal, keep);
    lemma_plain_run(body, yt, st, keep);
    lemma_close_step(t, st, keep);
    lemma_scan_unfold(yt, st, keep);
    assert(spaces(x.len()) + (contents_out(body, st, keep) + (closing_out(st) + scan(
        t,
        State::Normal,
        keep,
    ))) =~= spaces(x.len()) + contents_out(body, st, keep) + closing_out(st) + scan(
        t,
        State::Normal,
        keep,
    ));
}

proof fn lemma_blank_agree(u1: Seq<char>, u2: Seq<char>, i: int, l: int)
    requires
        0 <= i <= l <= u1.len(),
        l <= u2.len(),
        forall|j: int| i <= j < l ==> u1[j] == u2[j],
        i + blank_run(u1, i) < l,
    ensures
        blank_run(u2, i) == blank_run(u1, i),
    decreases l - i,
{
    if is_blank(u1[i]) {
        lemma_blank_agree(u1, u2, i + 1, l);
    }
}

/// The continuation check on `x` then `*/` sees nothing of what follows, and
/// closes the comment just when `x` is all blanks.
proof fn lemma_continuation_before_close(x: Seq<char>, t: Seq<char>)
    requires
        forall|i: int| 0 <= i < x.len() ==> x[i] != '*',
    ensures
        continuation(x + seq!['*', '/'] + t) == continuation(x + seq!['*', '/']),
        continuation(x + seq!['*', '/']).1 ==> continuation(x + seq!['*', '/']).0 == x.len()
            + 2,
        !continuation(x + seq!['*', '/']).1 ==> continuation(x + seq!['*', '/']).0 < x.len(),
{
    let y = seq!['*', '/'];
    let u1 = x + y + t;
    let u2 = x + y;
    let l = x.len() as int;
    lemma_blank_run(u1, 0);
    lemma_blank_run(u2, 0);
    if blank_run(u1, 0) > l {
        assert(u1[l] == '*');
    }
    lemma_blank_agree(u1, u2, 0, l + 2);
    let j = blank_run(u1, 0) as int;
    if j < l {
        assert(u1[j] == x[j] && u2[j] == x[j]);
    } else {
        assert(u1[l] == '*' && u1[l + 1] == '/' && u2[l] == '*' && u2[l + 1] == '/');
    }
}

/// Inside a block comment whose rest holds no `*` before its `*/`, what follows
/// the comment is scanned as from the start.
proof fn lemma_block_tail(x: Seq<char>, t: Seq<char>, keep: bool)
    requires
        forall|i: int| 0 <= i < x.len() ==> x[i] != '*',
    ensures
        scan(x + seq!['*', '/'] + t, State::BlockComment, keep) == scan(
            x + seq!['*', '/'],
            State::BlockComment,
            keep,
        ) + scan(t, State::Normal, keep),
    decreases x.len(),
{
    let y = seq!['*', '/'];
    let a = x + y + t;
    let b = x + y;
    lemma_scan_unfold(a, State::BlockComment, keep);
    lemma_scan_unfold(b, State::BlockComment, keep);
    let e = Seq::<char>::empty();
    assert(scan(e, State::Normal, keep) == e);
    if x.len() == 0 {
        assert(a[0] == '*' && a[1] == '/' && b[0] == '*' && b[1] == '/');
        assert(a.subrange(2, a.len() as int) =~= t);
        assert(b.subrange(2, b.len() as int) =~= e);
        assert(spaces(2) + e =~= spaces(2));
    } else if x[0] != '\n' {
        let x1 = x.subrange(1, x.len() as int);
        assert(a[0] == x[0] && b[0] == x[0]);
        assert(a.subrange(1, a.len() as int) =~= x1 + y + t);
        assert(b.subrange(1, b.len() as int) =~= x1 + y);
        lemma_block_tail(x1, t, keep);
        assert(seq![x[0]] + (scan(x1 + y, State::BlockComment, keep) + scan(
            t,
            State::Normal,
            keep,
        )) =~= seq![x[0]] + scan(x1 + y, State::BlockComment, keep) + scan(
            t,
            State::Normal,
            keep,
        ));
    } else {
        let x1 = x.subrange(1, x.len() as int);
        assert(a[0] == '\n' && b[0] == '\n');
        assert(a.subrange(1, a.len() as int) =~= x1 + y + t);
        assert(b.subrange(1, b.len() as int) =~= x1 + y);
        lemma_continuation_before_close(x1, t);
        let (m, closed) = continuation(x1 + y);
        if closed {
            assert(a.subrange(1 + m as int, a.len() as int) =~= t);
            assert(b.subrange(1 + m as int, b.len() as int) =~= e);
            assert(seq!['\n'] + e =~= seq!['\n']);
        } else {
            let x2 = x.subrange(1 + m as int, x.len() as int);
            assert(a.subrange(1 + m as int, a.len() as int) =~= x2 + y + t);
            assert(b.subrange(1 + m as int, b.len() as int) =~= x2 + y);
            lemma_block_tail(x2, t, keep);
            assert(seq!['\n'] + (scan(x2 + y, State::BlockComment, keep) + scan(
                t,
                State::Normal,
                keep,
            )) =~= seq!['\n'] + scan(x2 + y, State::BlockComment, keep) + scan(
                t,
                State::Normal,
                keep,
            ));
        }
    }
}

proof fn lemma_block_comment(body: Seq<char>, t: Seq<char>, keep: bool)
    requires
        body.len() > 0,
        forall|i: int| 0 <= i < body.len() ==> body[i] != '*',
    ensures
        scan(seq!['/', '*'] + body + seq!['*', '/'] + t, State::Normal, keep) == scan(
            seq!['/', '*'] + body + seq!['*', '/'],
            State::Normal,
            keep,
        ) + scan(t, State::Normal, keep),
{
    let x = seq!['/', '*'];
    let y = seq!['*', '/'];
    let a = x + body + y + t;
    let b = x + body + y;
    let e = Seq::<char>::empty();
    lemma_scan_unfold(a, State::Normal, keep);
    lemma_scan_unfold(b, State::Normal, keep);
    assert(scan(e, State::Normal, keep) == e);
    assert(a[0] == '/' && a[1] == '*' && a[2] == body[0]);
    assert(b[0] == '/' && b[1] == '*' && b[2] == body[0]);
    assert(star_run(a, 2) == 0 && star_run(b, 2) == 0);
    assert(a.subrange(2, a.len() as int) =~= body + y + t);
    assert(b.subrange(2, b.len() as int) =~= body + y);
    lemma_continuation_before_close(body, t);
    let (m, closed) = continuation(body + y);
    if closed {
        assert(a.subrange(2 + m as int, a.len() as int) =~= t);
        assert(b.subrange(2 + m as int, b.len() as int) =~= e);
        assert(spaces(2) + e =~= spaces(2));
    } else {
        let x2 = body.subrange(m as int, body.len() as int);
        assert(a.subrange(2 + m as int, a.len() as int) =~= x2 + y + t);
        assert(b.subrange(2 + m as int, b.len() as int) =~= x2 + y);
        lemma_block_tail(x2, t, keep);
        assert(spaces(2) + (scan(x2 + y, State::BlockComment, keep) + scan(
            t,
            State::Normal,
            keep,
        )) =~= spaces(2) + scan(x2 + y, State::BlockComment, keep) + scan(
            t,
            State::Normal,
            keep,
        ));
    }
}

/// After a well-formed comment, string, text block or character literal the
/// scanner is back in plain code: the text that follows is scanned as if it
/// stood alone.
pub proof fn lemma_back_to_normal(body: Seq<char>, v: Seq<char>, st: State, keep: bool)
    requires
        well_formed_body(body, st),
    ensures
        scan(opening(st) + body + closing(st) + v, State::Normal, keep) == scan(
            opening(st) + body + closing(st),
            State::Normal,
            keep,
        ) + scan(v, State::Normal, keep),
{
    let w = opening(st) + body + closing(st);
    let e = Seq::<char>::empty();
    if st == State::BlockComment {
        lemma_block_comment(body, v, keep);
    } else {
        lemma_construct_out(body, v, st, keep);
        lemma_construct_out(body, e, st, keep);
        assert(w + e =~= w);
        assert(scan(e, State::Normal, keep) == e);
        let o = spaces(opening(st).len()) + contents_out(body, st, keep) + closing_out(st);
        assert(o + e =~= o);
    }
}

/// On one transition that narrows nothing and masks no escaped line break,
/// each written character is a line break just where the consumed one is.
proof fn lemma_step_break_places(s: Seq<char>, st: State, keep: bool)
    requires
        s.len() > 0,
        step_narrowing(s, st) == 0,
        !escapes_break(s, st, keep),
    ensures
        step(s, st, keep).1.len() == step(s, st, keep).0,
        forall|j: int|
            0 <= j < step(s, st, keep).0 ==> (#[trigger] step(s, st, keep).1[j] == '\n' <==> s[j]
                == '\n'),
{
    lemma_step_bounds(s, st, keep);
    if st == State::Normal && s[0] == '/' && char_at(s, 1, '*') {
        lemma_star_run(s, 2);
    }
}

/// Where the scanner narrows nothing and masks no escaped line break, the
/// output is as long as the input and holds its line breaks at the same places.
pub proof fn lemma_line_break_places(s: Seq<char>, st: State, keep: bool)
    requires
        narrowing(s, st, keep) == 0,
        masked_breaks(s, st, keep) == 0,
    ensures
        scan(s, st, keep).len() == s.len(),
        forall|i: int|
            0 <= i < s.len() ==> (#[trigger] scan(s, st, keep)[i] == '\n' <==> s[i] == '\n'),
    decreases s.len(),
{
    if s.len() > 0 {
        let n = s.len() as int;
        let (k, out, next) = step(s, st, keep);
        lemma_step_bounds(s, st, keep);
        let rest = s.subrange(k as int, n);
        lemma_line_break_places(rest, next, keep);
        lemma_step_break_places(s, st, keep);
        let r = scan(rest, next, keep);
        assert(scan(s, st, keep) == out + r);
        assert forall|i: int| 0 <= i < n implies (#[trigger] scan(s, st, keep)[i] == '\n' <==> s[i]
            == '\n') by {
            if i >= k {
                assert(rest[i - k] == s[i]);
                assert(r[i - k] == (out + r)[i]);
            } else {
                assert(out[i] == (out + r)[i]);
            }
        }
    }
}

} // verus!
