//! A fixed-capacity byte buffer used to stage formatted text before a
//! caller applies field-width padding.  Writes that would overflow the
//! capacity are refused whole.

use vstd::prelude::*;
use vstd::string::StringSliceAdditionalSpecFns;
use crate::text::ascii_chars;
use crate::text::ascii_string;
use crate::text::is_text_byte;

verus! {

pub struct DisplayBuffer<const SIZE: usize> {
    buf: Vec<u8>,
}

impl<const SIZE: usize> View for DisplayBuffer<SIZE> {
    type V = Seq<u8>;

    closed spec fn view(&self) -> Seq<u8> {
        self.buf@
    }
}

impl<const SIZE: usize> DisplayBuffer<SIZE> {
    /// The staged text never exceeds the capacity and stays within the
    /// formatters' output alphabet.
    pub open spec fn wf(self) -> bool {
        self@.len() <= SIZE && forall|i: int| 0 <= i < self@.len() ==> is_text_byte(
            #[trigger] self@[i],
        )
    }

    /// An empty buffer.
    pub fn new() -> (r: DisplayBuffer<SIZE>)
        ensures
            r@ == Seq::<u8>::empty(),
            r.wf(),
    {
        let r = DisplayBuffer { buf: Vec::new() };
        proof {
            assert(r@ =~= Seq::<u8>::empty());
        }
        r
    }

    /// Appends the bytes of `s` whole if they fit the remaining capacity;
    /// refuses them whole otherwise.
    pub fn write_str(&mut self, s: &str) -> (ok: bool)
        requires
            old(self).wf(),
            forall|i: int| 0 <= i < s.spec_bytes().len() ==> is_text_byte(
                #[trigger] s.spec_bytes()[i],
            ),
        ensures
            final(self).wf(),
            ok ==> final(self)@ == old(self)@ + s.spec_bytes(),
            !ok ==> final(self)@ == old(self)@ && old(self)@.len() + s.spec_bytes().len() > SIZE,
    {
        let b = s.as_bytes();
        if b.len() <= SIZE - self.buf.len() {
            let mut i: usize = 0;
            while i < b.len()
                invariant
                    0 <= i <= b@.len(),
                    self@ == old(self)@ + b@.take(i as int),
                    self@.len() <= SIZE,
                    old(self)@.len() + b@.len() <= SIZE,
                    forall|k: int| 0 <= k < b@.len() ==> is_text_byte(#[trigger] b@[k]),
                    forall|k: int| 0 <= k < old(self)@.len() ==> is_text_byte(
                        #[trigger] old(self)@[k],
                    ),
                decreases b@.len() - i,
            {
                self.buf.push(b[i]);
                i = i + 1;
                proof {
                    assert(self@ =~= old(self)@ + b@.take(i as int));
                }
            }
            proof {
                assert(b@.take(b@.len() as int) =~= b@);
            }
            true
        } else {
            false
        }
    }

    /// The staged text as a `String`.
    pub fn as_str(&self) -> (r: String)
        requires
            self.wf(),
        ensures
            r@ == ascii_chars(self@),
    {
        ascii_string(&self.buf)
    }
}

} // verus!
