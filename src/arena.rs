//! An append-only arena of text buffers.
//!
//! Text is appended to one active buffer. When the active buffer lacks room, a
//! fresh buffer is started and the old one is sealed: it is kept, unchanged, for
//! as long as the arena lives. A `Span` names a stored text by buffer and byte
//! range, so it stays valid however the arena grows.
use vstd::prelude::*;
use vstd::arithmetic::power2::is_pow2;
use vstd::utf8::*;
use vstd::string::{StringExecFns, StringSliceAdditionalSpecFns};
use crate::text::{byte_len, lemma_boundary_after_prefix, lemma_byte_len_concat, lemma_encode_concat, lemma_encode_injective, same_text};

verus! {

broadcast use vstd::string::group_string_axioms;

/// The smallest power of two that is at least `n` (1 for 0).
pub fn next_pow2(n: usize) -> (r: usize)
    requires
        n <= usize::MAX / 2 + 1,
    ensures
        is_pow2(r as int),
        n <= r,
        r == 1 || r / 2 < n,
{
    let mut r: usize = 1;
    proof {
        reveal(is_pow2);
    }
    while r < n
        invariant
            is_pow2(r as int),
            1 <= r,
            r == 1 || r / 2 < n,
            n <= usize::MAX / 2 + 1,
        decreases usize::MAX - r,
    {
        proof {
            reveal(is_pow2);
            assert((2 * r) as int % 2 == 0);
            assert((2 * r) as int / 2 == r);
        }
        r = r * 2;
    }
    r
}

/// Relies on `String::with_capacity`: the new string is empty.
#[verifier::external_body]
fn new_buffer(cap: usize) -> (r: String)
    ensures
        r@ == Seq::<char>::empty(),
{
    String::with_capacity(cap)
}

/// The place of a stored text: a buffer of the arena and a byte range in it.
#[derive(Clone, Copy)]
pub struct Span {
    pub chunk: usize,
    pub start: usize,
    pub end: usize,
    /// The same range counted in characters.
    pub first: Ghost<int>,
    pub last: Ghost<int>,
}

/// Total byte length of a sequence of buffers.
pub open spec fn bytes_of(v: Seq<String>) -> nat
    decreases v.len(),
{
    if v.len() == 0 {
        0
    } else {
        bytes_of(v.drop_last()) + byte_len(v.last()@)
    }
}

/// `new_cap` is the capacity that replaces `cap` when `len` more bytes do not
/// fit: the smallest power of two above both.
pub open spec fn grown_capacity(cap: nat, len: nat, new_cap: nat) -> bool {
    let need = if cap >= len {
        cap + 1
    } else {
        len + 1
    };
    &&& is_pow2(new_cap as int)
    &&& need <= new_cap
    &&& new_cap == 1 || new_cap / 2 < need
}

/// The most bytes that an arena holds.
pub open spec fn max_stored() -> int {
    usize::MAX as int / 2
}

pub struct Arena {
    /// The active buffer; only ever appended to.
    buf: String,
    /// The byte capacity of the active buffer.
    cap: usize,
    /// Sealed buffers, in the order they were sealed.
    full: Vec<String>,
}

impl Arena {
    /// Byte capacity of the active buffer.
    pub closed spec fn capacity(&self) -> nat {
        self.cap as nat
    }

    /// Number of sealed buffers.
    pub closed spec fn sealed(&self) -> nat {
        self.full@.len()
    }

    /// Text of buffer `k`: a sealed one below `sealed()`, the active one at it.
    pub closed spec fn chunk(&self, k: int) -> Seq<char> {
        if k < self.full@.len() {
            self.full@[k]@
        } else {
            self.buf@
        }
    }

    /// Text of the active buffer.
    pub closed spec fn active(&self) -> Seq<char> {
        self.buf@
    }

    /// Bytes held over all buffers, sealed and active.
    pub closed spec fn stored(&self) -> nat {
        bytes_of(self.full@) + byte_len(self.buf@)
    }

    pub closed spec fn wf(&self) -> bool {
        &&& is_pow2(self.cap as int)
        &&& byte_len(self.buf@) <= self.cap
        &&& self.stored() <= max_stored()
    }

    /// `sp` names a range of whole characters of an existing buffer.
    pub closed spec fn valid(&self, sp: Span) -> bool {
        let c = self.chunk(sp.chunk as int);
        &&& sp.chunk <= self.full@.len()
        &&& 0 <= sp.first@ <= sp.last@ <= c.len()
        &&& byte_len(c.subrange(0, sp.first@)) == sp.start
        &&& byte_len(c.subrange(sp.first@, sp.last@)) == sp.end - sp.start
    }

    /// The text that `sp` names.
    pub closed spec fn text_of(&self, sp: Span) -> Seq<char> {
        self.chunk(sp.chunk as int).subrange(sp.first@, sp.last@)
    }

    /// An empty arena whose first buffer has room for `cap` bytes, rounded up to
    /// a power of two.
    pub fn with_capacity(cap: usize) -> (r: Arena)
        requires
            cap <= usize::MAX / 2 + 1,
        ensures
            r.wf(),
            r.stored() == 0,
            r.sealed() == 0,
            r.active() == Seq::<char>::empty(),
            is_pow2(r.capacity() as int),
            r.capacity() >= cap,
            r.capacity() == 1 || r.capacity() / 2 < cap,
    {
        let cap = next_pow2(cap);
        let r = Arena { buf: new_buffer(cap), cap, full: Vec::new() };
        assert(encode_utf8(r.buf@) =~= Seq::<u8>::empty());
        r
    }

    /// Bytes held over all buffers.
    pub fn stored_bytes(&self) -> (r: usize)
        requires
            self.wf(),
        ensures
            r == self.stored(),
    {
        let mut acc: usize = 0;
        let mut i: usize = 0;
        while i < self.full.len()
            invariant
                self.wf(),
                i <= self.full@.len(),
                acc == bytes_of(self.full@.subrange(0, i as int)),
            decreases self.full@.len() - i,
        {
            proof {
                let p = self.full@.subrange(0, i + 1);
                assert(p.drop_last() =~= self.full@.subrange(0, i as int));
                lemma_bytes_of_prefix(self.full@, i + 1);
            }
            acc = acc + self.full[i].as_str().len();
            i = i + 1;
        }
        assert(self.full@.subrange(0, i as int) =~= self.full@);
        acc + self.buf.as_str().len()
    }
}

impl Arena {
    /// The text that `sp` names, read in place.
    pub fn text(&self, sp: Span) -> (r: &str)
        requires
            self.valid(sp),
        ensures
            r@ == self.text_of(sp),
    {
        let whole: &str = if sp.chunk < self.full.len() {
            self.full[sp.chunk].as_str()
        } else {
            self.buf.as_str()
        };
        let ghost c = self.chunk(sp.chunk as int);
        let ghost p = c.subrange(0, sp.first@);
        let ghost m = c.subrange(sp.first@, sp.last@);
        let ghost q = c.subrange(sp.last@, c.len() as int);
        proof {
            assert(c =~= p + (m + q));
            lemma_boundary_after_prefix(p, m + q);
            lemma_encode_concat(p, m + q);
            lemma_boundary_after_prefix(m, q);
            lemma_encode_concat(m, q);
        }
        let (_, rest) = whole.split_at(sp.start);
        assert(rest.spec_bytes() =~= encode_utf8(m + q));
        let (r, _) = rest.split_at(sp.end - sp.start);
        proof {
            assert(r.spec_bytes() =~= encode_utf8(m));
            lemma_encode_injective(r@, m);
        }
        r
    }

    /// Whether `sp` names the text `s`.
    pub fn holds(&self, sp: Span, s: &str) -> (r: bool)
        requires
            self.valid(sp),
        ensures
            r == (self.text_of(sp) == s@),
    {
        same_text(self.text(sp), s)
    }

    /// Copies `s` into the active buffer, first sealing it and starting a larger
    /// one if it lacks room, and returns where the copy stands. Every span
    /// handed out before keeps naming the same text.
    pub fn allocate(&mut self, s: &str) -> (sp: Span)
        requires
            old(self).wf(),
            old(self).stored() + byte_len(s@) <= max_stored(),
        ensures
            final(self).wf(),
            final(self).valid(sp),
            final(self).text_of(sp) == s@,
            final(self).stored() == old(self).stored() + byte_len(s@),
            forall|k: int|
                0 <= k < old(self).sealed() ==> #[trigger] final(self).chunk(k) == old(self).chunk(k),
            if old(self).capacity() < byte_len(old(self).active()) + byte_len(s@) {
                &&& final(self).sealed() == old(self).sealed() + 1
                &&& final(self).chunk(old(self).sealed() as int) == old(self).active()
                &&& final(self).active() == s@
                &&& grown_capacity(old(self).capacity(), byte_len(s@), final(self).capacity())
            } else {
                &&& final(self).sealed() == old(self).sealed()
                &&& final(self).active() == old(self).active() + s@
                &&& final(self).capacity() == old(self).capacity()
            },
            forall|x: Span|
                #![trigger final(self).valid(x)]
                #![trigger final(self).text_of(x)]
                old(self).valid(x) ==> final(self).valid(x) && final(self).text_of(x)
                    == old(self).text_of(x),
    {
        let ghost pre = *self;
        let used = self.buf.as_str().len();
        let n = s.len();
        if self.cap < used + n {
            let wanted = if self.cap >= n {
                self.cap
            } else {
                n
            } + 1;
            let new_cap = next_pow2(wanted);
            let mut fresh = new_buffer(new_cap);
            std::mem::swap(&mut self.buf, &mut fresh);
            self.full.push(fresh);
            self.cap = new_cap;
            proof {
                assert(self.full@.drop_last() =~= pre.full@);
                assert(encode_utf8(self.buf@) =~= Seq::<u8>::empty());
            }
        }
        let ghost before = self.buf@;
        let start = self.buf.as_str().len();
        self.buf.append(s);
        proof {
            lemma_byte_len_concat(before, s@);
        }
        let sp = Span {
            chunk: self.full.len(),
            start,
            end: start + n,
            first: Ghost(before.len() as int),
            last: Ghost((before.len() + s@.len()) as int),
        };
        proof {
            let c = self.buf@;
            assert(c.subrange(0, sp.first@) =~= before);
            assert(c.subrange(sp.first@, sp.last@) =~= s@);
            assert forall|x: Span| pre.valid(x) implies self.valid(x) && self.text_of(x)
                == pre.text_of(x) by {
                let c0 = pre.chunk(x.chunk as int);
                let c1 = self.chunk(x.chunk as int);
                if x.chunk < pre.full@.len() {
                    assert(c1 == c0);
                } else if self.full@.len() > pre.full@.len() {
                    assert(c1 == c0);
                } else {
                    assert(c1 == c0 + s@);
                    assert(c1.subrange(0, x.first@) =~= c0.subrange(0, x.first@));
                    assert(c1.subrange(x.first@, x.last@) =~= c0.subrange(x.first@, x.last@));
                }
            }
        }
        sp
    }
}

/// The buffers of a prefix hold no more bytes than the whole.
pub proof fn lemma_bytes_of_prefix(v: Seq<String>, n: int)
    requires
        0 <= n <= v.len(),
    ensures
        bytes_of(v.subrange(0, n)) <= bytes_of(v),
    decreases v.len(),
{
    if n < v.len() {
        assert(v.drop_last().subrange(0, n) =~= v.subrange(0, n));
        lemma_bytes_of_prefix(v.drop_last(), n);
    } else {
        assert(v.subrange(0, n) =~= v);
    }
}

} // verus!
