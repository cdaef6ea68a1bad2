use vstd::prelude::*;
use vstd::utf8::{decode_utf8, valid_utf8};

use crate::lines::{CARRIAGE_RETURN, NEW_LINE, trim_line};
use crate::scanner::{BackBufReader, Poll, ScanView, Step, fetch_len, poll_spec, supply_spec};

verus! {

/// What a call to `BackLines::next` hands out, as values.
pub ghost enum TextStep {
    Line(Seq<char>),
    Invalid(Seq<u8>),
    Fetch(nat, nat),
    End,
}

/// The text of a line once its ending is removed: its characters where its
/// bytes are UTF-8, else those bytes as an error.
pub open spec fn decoded(l: Seq<u8>) -> TextStep {
    let t = trim_line(l);
    if valid_utf8(t) {
        TextStep::Line(decode_utf8(t))
    } else {
        TextStep::Invalid(t)
    }
}

/// What the line sequence does with one step of the scanner.
pub open spec fn text_step(s: Step) -> TextStep {
    match s {
        Step::Line(l) => decoded(l),
        Step::Fetch(start, len) => TextStep::Fetch(start, len),
        Step::End => TextStep::End,
    }
}

/// What `BackLines::next` returns.
pub enum Next {
    /// A line, without its ending.
    Line(String),
    /// A line whose bytes, without the ending, are not UTF-8.
    Invalid(Vec<u8>),
    /// Read `len` bytes from position `start` and hand them to `supply`.
    Fetch { start: u64, len: usize },
    /// Every line has been handed out.
    End,
}

impl View for Next {
    type V = TextStep;

    open spec fn view(&self) -> TextStep {
        match self {
            Next::Line(s) => TextStep::Line(s@),
            Next::Invalid(b) => TextStep::Invalid(b@),
            Next::Fetch { start, len } => TextStep::Fetch(*start as nat, *len as nat),
            Next::End => TextStep::End,
        }
    }
}

/// Relies on `String::from_utf8`: it succeeds exactly on valid UTF-8 and then
/// holds the characters that the bytes encode; its error gives the bytes back
/// through `FromUtf8Error::into_bytes`.
#[verifier::external_body]
fn decode(bytes: Vec<u8>) -> (r: Result<String, Vec<u8>>)
    ensures
        match r {
            Ok(s) => valid_utf8(bytes@) && s@ == decode_utf8(bytes@),
            Err(b) => !valid_utf8(bytes@) && b@ == bytes@,
        },
{
    match String::from_utf8(bytes) {
        Ok(s) => Ok(s),
        Err(e) => Err(e.into_bytes()),
    }
}

/// Removes one trailing terminator, and then one carriage return before it.
pub fn trim(line: Vec<u8>) -> (r: Vec<u8>)
    ensures
        r@ == trim_line(line@),
{
    let mut l = line;
    let n = l.len();
    if n > 0 && l[n - 1] == NEW_LINE {
        l.pop();
        if n > 1 && l[n - 2] == CARRIAGE_RETURN {
            l.pop();
        }
    }
    proof {
        if n > 0 && line@.last() == NEW_LINE {
            let m = line@.drop_last();
            if m.len() > 0 && m.last() == CARRIAGE_RETURN {
                assert(l@ =~= m.drop_last());
            } else {
                assert(l@ =~= m);
            }
        }
    }
    l
}

/// The lines of a stream, the last one first, without their endings and
/// decoded as UTF-8. Like the scanner it wraps, it asks its caller for blocks.
pub struct BackLines {
    buf: BackBufReader,
}

impl View for BackLines {
    type V = ScanView;

    closed spec fn view(&self) -> ScanView {
        self.buf@
    }
}

impl BackLines {
    /// Blocks are never empty.
    pub open spec fn wf(&self) -> bool {
        self@.block_size > 0
    }

    /// The next line, older than the last one; or the block that is needed
    /// to find it; or the end, and after it the end again.
    pub fn next(&mut self) -> (r: Next)
        requires
            old(self).wf(),
        ensures
            final(self).wf(),
            final(self)@ == poll_spec(old(self)@).1,
            r@ == text_step(poll_spec(old(self)@).0),
    {
        match self.buf.poll() {
            Poll::Line(l) => {
                let t = trim(l);
                match decode(t) {
                    Ok(s) => Next::Line(s),
                    Err(b) => Next::Invalid(b),
                }
            },
            Poll::Fetch { start, len } => Next::Fetch { start, len },
            Poll::End => Next::End,
        }
    }

    /// Takes the block that `next` asked for.
    pub fn supply(&mut self, block: Vec<u8>)
        requires
            old(self).wf(),
            old(self)@.lines.len() == 0,
            old(self)@.pos > 0,
            block@.len() == fetch_len(old(self)@),
        ensures
            final(self).wf(),
            final(self)@ == supply_spec(old(self)@, block@),
    {
        self.buf.supply(block);
    }
}

impl BackBufReader {
    /// The lines that this scanner hands out, as text.
    pub fn lines(self) -> (r: BackLines)
        requires
            self.wf(),
        ensures
            r.wf(),
            r@ == self@,
    {
        BackLines { buf: self }
    }
}

} // verus!
