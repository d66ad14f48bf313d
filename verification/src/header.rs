use vstd::prelude::*;
use crate::digits::{dec_digits, dec_of, lemma_dec_digits_len_20, lemma_dec_digits_len_3};

verus! {

/// The magic token of the plain PPM variant, newline included: "P3\n".
pub open spec fn magic_bytes() -> Seq<u8> {
    seq![80u8, 51u8, 10u8]
}

/// The header of a plain PPM image: magic token, dimensions and the
/// largest integer a channel can encode to.
pub struct PPMHeader {
    pub magic: [u8; 3],
    pub width: usize,
    pub height: usize,
    pub color_scale: u8,
}

impl PPMHeader {
    pub open spec fn wf(&self) -> bool {
        self.magic@ == magic_bytes()
    }
}

impl Default for PPMHeader {
    fn default() -> (h: Self)
        ensures
            h.wf(),
            h.width == 0,
            h.height == 0,
            h.color_scale == 255,
    {
        let h = PPMHeader { magic: [80u8, 51u8, 10u8], width: 0, height: 0, color_scale: 255 };
        proof {
            assert(h.magic@ =~= magic_bytes());
        }
        h
    }
}

/// The emission phases of the header state machine, visited in strict
/// order, each exactly once.
#[derive(Clone, Copy)]
pub enum PPMHeaderReaderState {
    Magic,
    Width,
    Height,
    ColorScale,
    Finished,
}

/// The phase that follows `s`.
pub open spec fn next_state(s: PPMHeaderReaderState) -> PPMHeaderReaderState {
    match s {
        PPMHeaderReaderState::Magic => PPMHeaderReaderState::Width,
        PPMHeaderReaderState::Width => PPMHeaderReaderState::Height,
        PPMHeaderReaderState::Height => PPMHeaderReaderState::ColorScale,
        PPMHeaderReaderState::ColorScale => PPMHeaderReaderState::Finished,
        PPMHeaderReaderState::Finished => PPMHeaderReaderState::Finished,
    }
}

/// How many phases are left from `s` on; orders the phases.
pub open spec fn state_rank(s: PPMHeaderReaderState) -> nat {
    match s {
        PPMHeaderReaderState::Magic => 4,
        PPMHeaderReaderState::Width => 3,
        PPMHeaderReaderState::Height => 2,
        PPMHeaderReaderState::ColorScale => 1,
        PPMHeaderReaderState::Finished => 0,
    }
}

/// The bytes one phase emits: its field rendered in decimal ASCII
/// where it is a number, followed by the field's separator.
pub open spec fn field_bytes(h: PPMHeader, s: PPMHeaderReaderState) -> Seq<u8> {
    match s {
        PPMHeaderReaderState::Magic => h.magic@,
        PPMHeaderReaderState::Width => dec_digits(h.width as nat).push(32u8),
        PPMHeaderReaderState::Height => dec_digits(h.height as nat).push(10u8),
        PPMHeaderReaderState::ColorScale => dec_digits(h.color_scale as nat).push(10u8),
        PPMHeaderReaderState::Finished => Seq::empty(),
    }
}

/// All the header bytes from phase `s` on.
pub open spec fn tail_bytes(h: PPMHeader, s: PPMHeaderReaderState) -> Seq<u8>
    decreases state_rank(s),
{
    match s {
        PPMHeaderReaderState::Finished => Seq::empty(),
        _ => field_bytes(h, s) + tail_bytes(h, next_state(s)),
    }
}

/// The whole serialized header.
pub open spec fn header_bytes(h: PPMHeader) -> Seq<u8> {
    tail_bytes(h, PPMHeaderReaderState::Magic)
}

/// Streams the bytes of a PPMHeader phase by phase; `written` counts
/// the bytes of the current phase already handed out, so a read may
/// stop mid-field and resume later.
pub struct PPMHeaderReader<'c> {
    pub state: PPMHeaderReaderState,
    pub written: usize,
    pub header: &'c PPMHeader,
}

impl<'c> PPMHeaderReader<'c> {
    pub open spec fn wf(&self) -> bool {
        match self.state {
            PPMHeaderReaderState::Finished => self.written == 0,
            _ => self.written < field_bytes(*self.header, self.state).len(),
        }
    }

    /// The bytes this reader has not yet handed out.
    pub open spec fn remaining(&self) -> Seq<u8> {
        tail_bytes(*self.header, self.state).skip(self.written as int)
    }

    pub fn new(header: &'c PPMHeader) -> (r: PPMHeaderReader<'c>)
        ensures
            r.wf(),
            r.header == header,
            r.written == 0,
            r.remaining() == header_bytes(*header),
    {
        let r = PPMHeaderReader { state: PPMHeaderReaderState::Magic, written: 0, header };
        proof {
            assert(r.remaining() =~= header_bytes(*header));
        }
        r
    }

    /// True when every phase has been emitted in full.
    pub fn done(&self) -> (r: bool)
        ensures
            r == (self.state is Finished),
    {
        matches!(self.state, PPMHeaderReaderState::Finished)
    }

    /// Hands out the next `max` not-yet-emitted header bytes, or all
    /// of them if fewer are left; once exhausted it returns nothing.
    pub fn read(&mut self, max: usize) -> (out: Vec<u8>)
        requires
            old(self).wf(),
        ensures
            final(self).wf(),
            final(self).header == old(self).header,
            out@.len() == vstd::math::min(max as int, old(self).remaining().len() as int),
            out@ == old(self).remaining().take(out@.len() as int),
            final(self).remaining() == old(self).remaining().skip(out@.len() as int),
    {
        let ghost all = old(self).remaining();
        let ghost hdr = old(self).header;
        let mut out: Vec<u8> = Vec::new();
        while out.len() < max && !self.done()
            invariant
                self.wf(),
                self.header == hdr,
                out@.len() <= max,
                all == out@ + self.remaining(),
            decreases max - out@.len(),
        {
            let field = field_vec(self.header, &self.state);
            let ghost tail_next = tail_bytes(*self.header, next_state(self.state));
            let ghost w = self.written as int;
            assert(tail_bytes(*self.header, self.state) == field@ + tail_next);
            let room = max - out.len();
            let avail = field.len() - self.written;
            let take = if room < avail {
                room
            } else {
                avail
            };
            let ghost out0 = out@;
            proof {
                assert(out@ =~= out0 + field@.subrange(w, w + 0));
            }
            let mut j: usize = 0;
            while j < take
                invariant
                    j <= take,
                    0 <= w,
                    w + take <= field@.len(),
                    field@.len() <= usize::MAX,
                    self.written == w,
                    out@ == out0 + field@.subrange(w, w + j),
                decreases take - j,
            {
                out.push(field[self.written + j]);
                proof {
                    assert(out@ =~= out0 + field@.subrange(w, w + j + 1));
                }
                j = j + 1;
            }
            if take == avail {
                self.written = 0;
                self.state = next_state_of(&self.state);
                proof {
                    assert(self.remaining() =~= tail_next);
                    assert((field@ + tail_next).skip(w) =~= field@.subrange(w, field@.len() as int)
                        + tail_next);
                    assert(all =~= out@ + self.remaining());
                }
            } else {
                self.written = self.written + take;
                proof {
                    assert((field@ + tail_next).skip(w) =~= field@.subrange(w, w + take as int) + (
                    field@ + tail_next).skip(w + take as int));
                    assert(all =~= out@ + self.remaining());
                }
            }
        }
        proof {
            if self.state is Finished {
                assert(self.remaining() =~= Seq::<u8>::empty());
            }
            assert(out@ =~= all.take(out@.len() as int));
            assert(self.remaining() =~= all.skip(out@.len() as int));
        }
        out
    }

    /// Hands out every byte the reader has left.
    pub fn read_to_end(&mut self) -> (out: Vec<u8>)
        requires
            old(self).wf(),
        ensures
            final(self).wf(),
            final(self).header == old(self).header,
            out@ == old(self).remaining(),
            final(self).remaining() == Seq::<u8>::empty(),
    {
        proof {
            lemma_remaining_short(*old(self));
            assert(old(self).remaining().take(old(self).remaining().len() as int) =~= old(
            self).remaining());
        }
        let out = self.read(usize::MAX);
        proof {
            assert(self.remaining() =~= Seq::<u8>::empty());
        }
        out
    }
}

/// The serialized header is short: at most 49 bytes, whatever the
/// dimensions, since a 64-bit number takes at most twenty digits.
pub proof fn lemma_remaining_short(r: PPMHeaderReader)
    requires
        r.wf(),
    ensures
        r.remaining().len() <= 49,
{
    lemma_tail_short(*r.header, r.state);
}

/// Bytes still owed from phase `s` on never exceed 49.
pub proof fn lemma_tail_short(h: PPMHeader, s: PPMHeaderReaderState)
    ensures
        tail_bytes(h, s).len() <= 49,
{
    reveal_with_fuel(tail_bytes, 6);
    lemma_dec_digits_len_20(h.width as nat);
    lemma_dec_digits_len_20(h.height as nat);
    lemma_dec_digits_len_3(h.color_scale as nat);
}

/// The phase that follows `s`, computed.
fn next_state_of(s: &PPMHeaderReaderState) -> (r: PPMHeaderReaderState)
    ensures
        r == next_state(*s),
{
    match s {
        PPMHeaderReaderState::Magic => PPMHeaderReaderState::Width,
        PPMHeaderReaderState::Width => PPMHeaderReaderState::Height,
        PPMHeaderReaderState::Height => PPMHeaderReaderState::ColorScale,
        PPMHeaderReaderState::ColorScale => PPMHeaderReaderState::Finished,
        PPMHeaderReaderState::Finished => PPMHeaderReaderState::Finished,
    }
}

/// The bytes of one phase, computed.
fn field_vec(h: &PPMHeader, s: &PPMHeaderReaderState) -> (v: Vec<u8>)
    ensures
        v@ == field_bytes(*h, *s),
{
    match s {
        PPMHeaderReaderState::Magic => {
            let mut v: Vec<u8> = Vec::new();
            v.push(h.magic[0]);
            v.push(h.magic[1]);
            v.push(h.magic[2]);
            proof {
                assert(v@ =~= h.magic@);
            }
            v
        },
        PPMHeaderReaderState::Width => {
            let mut v = dec_of(h.width as u64);
            v.push(32u8);
            v
        },
        PPMHeaderReaderState::Height => {
            let mut v = dec_of(h.height as u64);
            v.push(10u8);
            v
        },
        PPMHeaderReaderState::ColorScale => {
            let mut v = dec_of(h.color_scale as u64);
            v.push(10u8);
            v
        },
        PPMHeaderReaderState::Finished => {
            let v: Vec<u8> = Vec::new();
            proof {
                assert(v@ =~= Seq::<u8>::empty());
            }
            v
        },
    }
}

} // verus!
