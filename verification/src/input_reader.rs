//! The input source that the lexer reads from.

use vstd::prelude::*;

verus! {

/// A failure reported by an input source, with the source's own description
/// of what went wrong.
#[derive(Debug)]
pub struct Error {
    message: String,
}

impl View for Error {
    type V = Seq<char>;

    /// The source's description of the failure.
    closed spec fn view(&self) -> Seq<char> {
        self.message@
    }
}

impl Error {
    /// An error with the given description.
    pub fn new(message: String) -> (e: Error)
        ensures
            e@ == message@,
    {
        Error { message }
    }

    /// The description, as a string of its own.
    pub fn to_string(&self) -> (text: String)
        ensures
            text@ == self@,
    {
        self.message.clone()
    }
}

/// A stream of characters with lookahead.
///
/// The characters that have not been consumed yet are `remaining()`. A source
/// is free to fail when asked to consume, unless it declares itself
/// `infallible()`.
pub trait ReadInput {
    /// The characters not yet consumed, next one first.
    spec fn remaining(&self) -> Seq<char>;

    /// Whether `consume` is certain to succeed on this source.
    spec fn infallible(&self) -> bool;

    /// Looks `offset` characters ahead without consuming anything.
    fn peek(&self, offset: usize) -> (c: Option<char>)
        ensures
            c == if offset < self.remaining().len() {
                Some(self.remaining()[offset as int])
            } else {
                None
            },
    ;

    /// Moves past the next `count` characters.
    fn consume(&mut self, count: usize) -> (r: Result<(), Error>)
        requires
            0 < count <= old(self).remaining().len(),
        ensures
            r is Ok ==> final(self).remaining() == old(self).remaining().skip(count as int),
            old(self).infallible() ==> r is Ok,
            final(self).infallible() == old(self).infallible(),
    ;
}

/// An input source over text held in memory. It never fails.
#[derive(Debug)]
pub struct StringReader {
    chars: Vec<char>,
    position: usize,
}

impl StringReader {
    #[verifier::type_invariant]
    spec fn well_formed(&self) -> bool {
        self.position <= self.chars@.len()
    }

    /// A source whose remaining characters are those of `text`.
    pub fn new(text: &str) -> (reader: StringReader)
        ensures
            reader.remaining() == text@,
            reader.infallible(),
    {
        let mut chars: Vec<char> = Vec::new();
        for c in it: text.chars()
            invariant
                chars@ == it.seq().take(it.index()),
        {
            chars.push(c);
        }
        StringReader { chars, position: 0 }
    }
}

impl ReadInput for StringReader {
    closed spec fn remaining(&self) -> Seq<char> {
        self.chars@.skip(self.position as int)
    }

    open spec fn infallible(&self) -> bool {
        true
    }

    fn peek(&self, offset: usize) -> (c: Option<char>) {
        proof {
            use_type_invariant(self);
        }
        if offset < self.chars.len() - self.position {
            Some(self.chars[self.position + offset])
        } else {
            None
        }
    }

    fn consume(&mut self, count: usize) -> (r: Result<(), Error>) {
        proof {
            use_type_invariant(&*self);
        }
        assert(self.remaining().len() == self.chars.len() - self.position);
        self.position = self.position + count;
        Ok(())
    }
}

/// An input source that hands on another source, but lets no more than a
/// set number of characters be consumed: a guard against input without end.
///
/// Lookahead is not counted. A `consume` that would go past the allowance
/// fails and consumes nothing.
#[derive(Debug)]
pub struct Limited<R> {
    inner: R,
    allowance: usize,
}

impl<R> Limited<R> {
    /// The source that is guarded.
    pub closed spec fn inner(&self) -> R {
        self.inner
    }

    /// How many characters may still be consumed.
    pub closed spec fn allowance(&self) -> nat {
        self.allowance as nat
    }

    /// Guards `inner`, allowing `allowance` characters to be consumed.
    pub fn new(inner: R, allowance: usize) -> (reader: Limited<R>)
        ensures
            reader.inner() == inner,
            reader.allowance() == allowance,
    {
        Limited { inner, allowance }
    }
}

impl<R: ReadInput> ReadInput for Limited<R> {
    open spec fn remaining(&self) -> Seq<char> {
        self.inner().remaining()
    }

    open spec fn infallible(&self) -> bool {
        false
    }

    fn peek(&self, offset: usize) -> (c: Option<char>) {
        self.inner.peek(offset)
    }

    fn consume(&mut self, count: usize) -> (r: Result<(), Error>)
        ensures
            count > old(self).allowance() ==> {
                &&& r matches Err(e) && e@ == "input limit reached"@
                &&& *final(self) == *old(self)
            },
            count <= old(self).allowance() && old(self).inner().infallible() ==> r is Ok,
            r is Ok ==> final(self).allowance() == old(self).allowance() - count,
            r is Err ==> final(self).allowance() == old(self).allowance(),
    {
        if count > self.allowance {
            return Err(Error::new(String::from_str("input limit reached")));
        }
        match self.inner.consume(count) {
            Ok(()) => {
                self.allowance = self.allowance - count;
                Ok(())
            },
            Err(e) => Err(e),
        }
    }
}

} // verus!
