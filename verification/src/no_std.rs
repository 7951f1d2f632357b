//! A cursor over a byte buffer, for writing text where `std::io::Cursor` is not available.
use vstd::prelude::*;
use vstd::string::StringSliceAdditionalSpecFns;

verus! {

/// `core::fmt::Error`, the error of formatting.
#[verifier::external_type_specification]
#[verifier::external_body]
pub struct ExFmtError(core::fmt::Error);

/// Avoids the use of `std::io::Cursor` in `no_std` context
pub struct Cursor<const N: usize> {
    buffer: [u8; N],
    position: usize,
}

impl<const N: usize> Cursor<N> {
    #[verifier::type_invariant]
    spec fn well_formed(self) -> bool {
        self.position <= N
    }

    /// The bytes of the buffer.
    pub closed spec fn contents(self) -> Seq<u8> {
        self.buffer@
    }

    /// The number of bytes written so far.
    pub closed spec fn pos(self) -> nat {
        self.position as nat
    }

    /// A cursor at the start of `buffer`.
    pub fn new(buffer: [u8; N]) -> (r: Self)
        ensures
            r.pos() == 0,
            r.contents() == buffer@,
            r.contents().len() == N,
    {
        Self { buffer, position: 0 }
    }

    /// The number of bytes written so far.
    pub fn position(&self) -> (r: usize)
        ensures
            r == self.pos(),
            r <= N,
            self.contents().len() == N,
    {
        proof {
            use_type_invariant(self);
        }
        self.position
    }

    /// Writes the bytes of `s` at the position and moves the position past them. The
    /// bytes must fit in the rest of the buffer.
    pub fn write_str(&mut self, s: &str) -> (r: Result<(), core::fmt::Error>)
        requires
            old(self).pos() + s.spec_bytes().len() <= N,
        ensures
            r is Ok,
            final(self).contents().len() == N,
            final(self).pos() == old(self).pos() + s.spec_bytes().len(),
            final(self).contents() == old(self).contents().subrange(0, old(self).pos() as int)
                + s.spec_bytes() + old(self).contents().subrange(
                final(self).pos() as int,
                N as int,
            ),
    {
        proof {
            use_type_invariant(&*self);
        }
        let raw_s = s.as_bytes();
        let pos = self.position;
        let mut i: usize = 0;
        while i < raw_s.len()
            invariant
                0 <= i <= raw_s@.len(),
                raw_s@ == s.spec_bytes(),
                pos == old(self).pos(),
                pos + raw_s@.len() <= N,
                self.position == pos,
                self.buffer@.len() == N,
                self.buffer@ == old(self).contents().subrange(0, pos as int) + raw_s@.subrange(
                    0,
                    i as int,
                ) + old(self).contents().subrange(pos + i, N as int),
            decreases raw_s@.len() - i,
        {
            self.buffer[pos + i] = raw_s[i];
            i += 1;
            proof {
                assert(self.buffer@ =~= old(self).contents().subrange(0, pos as int)
                    + raw_s@.subrange(0, i as int) + old(self).contents().subrange(
                    pos + i,
                    N as int,
                ));
            }
        }
        self.position = pos + raw_s.len();
        proof {
            assert(raw_s@.subrange(0, i as int) =~= raw_s@);
        }
        Ok(())
    }
}

} // verus!
