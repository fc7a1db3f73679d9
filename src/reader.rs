use vstd::prelude::*;
use vstd::string::StringSliceAdditionalSpecFns;

verus! {

/// A sequential reader over the UTF-8 bytes of a borrowed string.
///
/// The reader never copies the string: it keeps a view of its bytes and a
/// cursor counting how many of them have been handed out so far.
pub struct StringReader<'a> {
    data: &'a [u8],
    pos: usize,
}

impl<'a> StringReader<'a> {
    /// The bytes the reader was made from.
    pub closed spec fn contents(&self) -> Seq<u8> {
        self.data@
    }

    /// How many bytes have been consumed.
    pub closed spec fn cursor(&self) -> nat {
        self.pos as nat
    }

    /// The bytes not yet handed out.
    pub open spec fn remaining(&self) -> Seq<u8> {
        self.contents().skip(self.cursor() as int)
    }

    #[verifier::type_invariant]
    closed spec fn cursor_in_bounds(&self) -> bool {
        self.pos <= self.data@.len()
    }

    /// Wrap a string in a `StringReader`, which implements `std::io::Read`.
    pub fn new(data: &'a str) -> (r: Self)
        ensures
            r.contents() == data.spec_bytes(),
            r.cursor() == 0,
    {
        Self { data: data.as_bytes(), pos: 0 }
    }
}

/// What a read into a buffer of `n` bytes hands out when `rest` is left:
/// the first `n` bytes of `rest`, or all of it when fewer remain.
pub open spec fn chunk(rest: Seq<u8>, n: nat) -> Seq<u8> {
    if n <= rest.len() {
        rest.take(n as int)
    } else {
        rest
    }
}

/// The bytes handed out, in order, by reads with buffers of the sizes in
/// `sizes`, one after another, starting with `rest` left to read.
pub open spec fn drained(rest: Seq<u8>, sizes: Seq<nat>) -> Seq<u8>
    decreases sizes.len(),
{
    if sizes.len() == 0 {
        Seq::empty()
    } else {
        let c = chunk(rest, sizes[0]);
        c + drained(rest.skip(c.len() as int), sizes.drop_first())
    }
}

/// What is left to read after those same reads.
pub open spec fn left_after(rest: Seq<u8>, sizes: Seq<nat>) -> Seq<u8>
    decreases sizes.len(),
{
    if sizes.len() == 0 {
        rest
    } else {
        left_after(rest.skip(chunk(rest, sizes[0]).len() as int), sizes.drop_first())
    }
}

/// Reads of any sizes hand out a string's bytes in order, each exactly once:
/// what was handed out followed by what is left is the string itself. When
/// no buffer is empty and there are at least as many reads as bytes, the
/// reads reach the end of the stream, and then what was handed out is the
/// whole string, with no byte dropped, repeated or moved.
pub proof fn lemma_reads_reconstruct(s: Seq<u8>, sizes: Seq<nat>)
    ensures
        drained(s, sizes) + left_after(s, sizes) == s,
        (forall|i: int| 0 <= i < sizes.len() ==> sizes[i] >= 1) && sizes.len() >= s.len()
            ==> left_after(s, sizes).len() == 0,
        left_after(s, sizes).len() == 0 ==> drained(s, sizes) == s,
    decreases sizes.len(),
{
    if sizes.len() == 0 {
        assert(Seq::<u8>::empty() + s =~= s);
    } else {
        let c = chunk(s, sizes[0]);
        let rest = s.skip(c.len() as int);
        let more = sizes.drop_first();
        lemma_reads_reconstruct(rest, more);
        assert(c + rest =~= s);
        assert(c + drained(rest, more) + left_after(rest, more) =~= c + (drained(rest, more)
            + left_after(rest, more)));
        if (forall|i: int| 0 <= i < sizes.len() ==> sizes[i] >= 1) && sizes.len() >= s.len() {
            assert(forall|i: int| 0 <= i < more.len() ==> more[i] >= 1) by {
                assert forall|i: int| 0 <= i < more.len() implies more[i] >= 1 by {
                    assert(more[i] == sizes[i + 1]);
                }
            }
            assert(sizes[0] >= 1);
        }
    }
    assert(left_after(s, sizes).len() == 0 ==> left_after(s, sizes) =~= Seq::<u8>::empty());
    assert(drained(s, sizes) + Seq::<u8>::empty() =~= drained(s, sizes));
}

/// Declares `std::io::Error` so that `read` can return `std::io::Result`,
/// as the `Read` trait asks; no value of it is ever made or inspected here.
#[verifier::external_type_specification]
#[verifier::external_body]
pub struct ExIoError(std::io::Error);

impl<'a> std::io::Read for StringReader<'a> {
    /// Copies as many of the remaining bytes as fit into the front of
    /// `buf` and moves the cursor past them. A return of zero on a
    /// non-empty buffer means the string is used up; the call never fails.
    fn read(&mut self, buf: &mut [u8]) -> (r: std::io::Result<usize>)
        ensures
            old(self).cursor() <= old(self).contents().len(),
            final(self).contents() == old(self).contents(),
            r is Ok,
            r->Ok_0 == chunk(old(self).remaining(), old(buf)@.len()).len(),
            final(self).cursor() == old(self).cursor() + r->Ok_0,
            final(self).remaining() == old(self).remaining().skip(r->Ok_0 as int),
            final(buf)@.len() == old(buf)@.len(),
            final(buf)@.take(r->Ok_0 as int) == chunk(old(self).remaining(), old(buf)@.len()),
            final(buf)@.skip(r->Ok_0 as int) == old(buf)@.skip(r->Ok_0 as int),
            old(buf)@.len() == 0 ==> r->Ok_0 == 0 && final(self).cursor() == old(self).cursor(),
            old(self).remaining().len() == 0 ==> r->Ok_0 == 0 && final(self).remaining().len() == 0,
            old(buf)@.len() > old(self).remaining().len() ==> r->Ok_0
                == old(self).remaining().len(),
    {
        proof {
            use_type_invariant(&*self);
        }
        let avail: usize = self.data.len() - self.pos;
        let n: usize = if buf.len() < avail {
            buf.len()
        } else {
            avail
        };
        let mut i: usize = 0;
        while i < n
            invariant
                self.data@ == old(self).data@,
                self.pos == old(self).pos,
                n <= buf@.len(),
                self.pos + n <= self.data.len(),
                self.data.len() == self.data@.len(),
                i <= n,
                buf@.len() == old(buf)@.len(),
                forall|j: int| 0 <= j < i ==> buf@[j] == self.data@[self.pos + j],
                forall|j: int| i <= j < buf@.len() ==> buf@[j] == old(buf)@[j],
            decreases n - i,
        {
            buf[i] = self.data[self.pos + i];
            i = i + 1;
        }
        proof {
            let rest = old(self).remaining();
            assert(buf@.take(n as int) =~= chunk(rest, old(buf)@.len()));
            assert(buf@.skip(n as int) =~= old(buf)@.skip(n as int));
        }
        self.pos = self.pos + n;
        Ok(n)
    }
}

} // verus!
