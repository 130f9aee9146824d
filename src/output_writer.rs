use vstd::prelude::*;

use crate::buffered_char_reader::chars_of;

verus! {

/// Number of spaces that `write_n_spaces` appends per round.
pub const SPACE_CHUNK: usize = 16;

/// `n` space characters.
pub open spec fn spaces(n: nat) -> Seq<char> {
    Seq::new(n, |i: int| ' ')
}

/// A push-based sink that collects the characters written to it until they
/// are taken out with `flush`.
pub struct OutputWriter {
    buf: Vec<char>,
}

/// Relies on `String: FromIterator<char>`: the string made of the characters of `v`, in order.
#[verifier::external_body]
fn string_of(v: &Vec<char>) -> (r: String)
    ensures
        r@ == v@,
{
    v.iter().collect()
}

impl OutputWriter {
    /// Everything written since creation or since the last `flush`.
    pub closed spec fn written(&self) -> Seq<char> {
        self.buf@
    }

    pub fn new() -> (w: Self)
        ensures
            w.written() == Seq::<char>::empty(),
    {
        OutputWriter { buf: Vec::new() }
    }

    pub fn write_char(&mut self, c: char)
        ensures
            final(self).written() == old(self).written().push(c),
    {
        self.buf.push(c);
    }

    pub fn write_str(&mut self, s: &str)
        ensures
            final(self).written() == old(self).written() + s@,
    {
        let cs = chars_of(s);
        let mut i: usize = 0;
        while i < cs.len()
            invariant
                i <= cs.len(),
                cs@ == s@,
                self.written() == old(self).written() + cs@.subrange(0, i as int),
            decreases cs.len() - i,
        {
            self.buf.push(cs[i]);
            i = i + 1;
            assert(cs@.subrange(0, i as int) == cs@.subrange(0, i - 1).push(cs@[i - 1]));
        }
        assert(cs@.subrange(0, i as int) == cs@);
    }

    /// Appends `n` spaces, `SPACE_CHUNK` at a time.
    pub fn write_n_spaces(&mut self, n: usize)
        ensures
            final(self).written() == old(self).written() + spaces(n as nat),
    {
        let mut remaining: usize = n;
        while remaining > 0
            invariant
                remaining <= n,
                self.written() == old(self).written() + spaces((n - remaining) as nat),
            decreases remaining,
        {
            let len: usize = if remaining < SPACE_CHUNK { remaining } else { SPACE_CHUNK };
            let ghost before = self.written();
            let mut k: usize = 0;
            while k < len
                invariant
                    k <= len,
                    len <= remaining,
                    self.written() == before + spaces(k as nat),
                decreases len - k,
            {
                self.buf.push(' ');
                k = k + 1;
                assert(spaces(k as nat) == spaces((k - 1) as nat).push(' '));
            }
            remaining = remaining - len;
            assert(spaces((n - remaining) as nat) == spaces((n - remaining - len) as nat) + spaces(
                len as nat,
            ));
        }
    }

    /// Hands out everything written so far as a `String` and empties the sink.
    pub fn flush(&mut self) -> (r: String)
        ensures
            r@ == old(self).written(),
            final(self).written() == Seq::<char>::empty(),
    {
        let r = string_of(&self.buf);
        self.buf = Vec::new();
        r
    }
}

} // verus!
