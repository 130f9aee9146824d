use vstd::prelude::*;
use vstd::std_specs::iter::IteratorSpec;

verus! {

/// The characters of `s`, in order.
pub(crate) fn chars_of(s: &str) -> (r: Vec<char>)
    ensures
        r@ == s@,
{
    broadcast use vstd::string::axiom_spec_iter, vstd::string::next_postcondition;

    let mut it = s.chars();
    let mut r: Vec<char> = Vec::new();
    loop
        invariant
            it.obeys_prophetic_iter_laws(),
            it.decrease() is Some,
            r@ + it.remaining() == s@,
        ensures
            r@ == s@,
        decreases it.decrease()->0,
    {
        match it.next() {
            Some(c) => {
                r.push(c);
                assert(r@ + it.remaining() =~= s@);
            },
            None => {
                assert(r@ + it.remaining() =~= r@);
                assert(r@ =~= s@);
                break;
            },
        }
    }
    r
}

/// A pull-based character source with one character of lookahead.
pub struct BufferedCharReader {
    buf: Vec<char>,
    pos: usize,
    peeked: Option<char>,
}

impl BufferedCharReader {
    pub closed spec fn wf(&self) -> bool {
        self.pos <= self.buf.len()
    }

    /// Whether a character taken by `peek_char` waits to be read.
    pub closed spec fn holds_peeked(&self) -> bool {
        self.peeked is Some
    }

    /// The characters still to be read, a peeked one first.
    pub closed spec fn remaining(&self) -> Seq<char> {
        let rest = self.buf@.subrange(self.pos as int, self.buf.len() as int);
        match self.peeked {
            Some(c) => seq![c] + rest,
            None => rest,
        }
    }

    pub fn new(text: &str) -> (r: Self)
        ensures
            r.wf(),
            !r.holds_peeked(),
            r.remaining() == text@,
    {
        let buf = chars_of(text);
        let r = BufferedCharReader { buf, pos: 0, peeked: None };
        assert(r.buf@.subrange(0, r.buf.len() as int) == r.buf@);
        r
    }

    pub fn next_char(&mut self) -> (r: Option<char>)
        requires
            old(self).wf(),
        ensures
            final(self).wf(),
            !final(self).holds_peeked(),
            old(self).remaining().len() == 0 ==> r is None && final(self).remaining() == old(
                self,
            ).remaining(),
            old(self).remaining().len() > 0 ==> r == Some(old(self).remaining()[0])
                && final(self).remaining() == old(self).remaining().drop_first(),
    {
        if let Some(c) = self.peeked {
            self.peeked = None;
            assert(old(self).remaining().drop_first() == self.remaining());
            return Some(c);
        }
        if self.pos >= self.buf.len() {
            return None;
        }
        let c = self.buf[self.pos];
        self.pos = self.pos + 1;
        assert(old(self).remaining().drop_first() == self.remaining());
        Some(c)
    }

    pub fn peek_char(&mut self) -> (r: Option<char>)
        requires
            old(self).wf(),
        ensures
            final(self).wf(),
            final(self).remaining() == old(self).remaining(),
            old(self).remaining().len() == 0 ==> r is None,
            old(self).remaining().len() > 0 ==> r == Some(old(self).remaining()[0]),
    {
        if self.peeked.is_none() {
            let c = self.next_char();
            self.peeked = c;
            if c.is_some() {
                assert(self.remaining() =~= old(self).remaining());
            }
        }
        self.peeked
    }
}

} // verus!
