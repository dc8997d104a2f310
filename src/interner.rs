//! The interner: one handle per distinct text, handed out densely from 0.
use vstd::prelude::*;
use vstd::utf8::encode_utf8;
use vstd::arithmetic::power2::is_pow2;
use vstd::std_specs::hash::DefaultHasherAdditionalSpecFns;
use std::collections::HashMap;
use std::collections::hash_map::DefaultHasher;
use std::hash::Hasher;
use crate::arena::{Arena, Span, max_stored};
use crate::text::byte_len;

verus! {

broadcast use vstd::std_specs::hash::group_hash_axioms;

/// Hash of a text's UTF-8 bytes, as written to a fresh `DefaultHasher` in one piece.
pub open spec fn text_hash(s: Seq<char>) -> u64 {
    DefaultHasher::spec_finish(seq![encode_utf8(s)])
}

fn hash_text(s: &str) -> (r: u64)
    ensures
        r == text_hash(s@),
{
    let mut h = DefaultHasher::new();
    h.write(s.as_bytes());
    assert(h@ =~= seq![encode_utf8(s@)]);
    h.finish()
}

/// Total byte length of a sequence of texts.
pub open spec fn bytes_total(t: Seq<Seq<char>>) -> nat
    decreases t.len(),
{
    if t.len() == 0 {
        0
    } else {
        bytes_total(t.drop_last()) + byte_len(t.last())
    }
}

/// The table after interning `s` into table `t`: unchanged if `s` is already
/// there, else `s` appended.
pub open spec fn interned(t: Seq<Seq<char>>, s: Seq<char>) -> Seq<Seq<char>> {
    if t.contains(s) {
        t
    } else {
        t.push(s)
    }
}

/// The handle that interning `s` into table `t` gives: the position of `s` if
/// it is there, else the next free position.
pub open spec fn handle_of(t: Seq<Seq<char>>, s: Seq<char>) -> nat {
    if t.contains(s) {
        t.index_of(s) as nat
    } else {
        t.len()
    }
}

/// Whether interning `s` into table `t` fits the limits of the machine: a new
/// text needs a free 32-bit handle (its handle is the table's length) and room
/// in the arena.
pub open spec fn can_intern(t: Seq<Seq<char>>, s: Seq<char>) -> bool {
    t.contains(s) || (t.len() <= u32::MAX && bytes_total(t) + byte_len(s) <= max_stored())
}

/// A handle for an interned string.
#[derive(Clone, Copy, PartialEq, Eq, Structural, Hash, Debug)]
pub struct StrId(u32);

impl View for StrId {
    type V = nat;

    closed spec fn view(&self) -> nat {
        self.0 as nat
    }
}

impl StrId {
    /// Two handles are equal exactly when their numbers are.
    pub proof fn lemma_eq(self, other: StrId)
        ensures
            (self == other) == (self@ == other@),
    {
    }

    /// The handle's number.
    pub fn index(self) -> (r: u32)
        ensures
            r == self@,
    {
        self.0
    }
}

/// A summary of an interner's contents.
#[derive(Debug)]
pub struct Stats {
    /// Number of distinct strings interned.
    pub uniq_count: usize,
    /// Bytes written to the arena, over all its buffers.
    pub total_size: usize,
}

pub struct Interner {
    /// Hash of a text's bytes to the handles whose texts have that hash.
    map: HashMap<u64, Vec<u32>>,
    /// Where each handle's text stands in the arena.
    vec: Vec<Span>,
    arena: Arena,
}

impl View for Interner {
    type V = Seq<Seq<char>>;

    /// The interned texts, by handle.
    closed spec fn view(&self) -> Seq<Seq<char>> {
        Seq::new(self.vec@.len(), |i: int| self.arena.text_of(self.vec@[i]))
    }
}

impl Interner {
    pub closed spec fn wf(&self) -> bool {
        &&& self.arena.wf()
        &&& forall|i: int| 0 <= i < self.vec@.len() ==> self.arena.valid(#[trigger] self.vec@[i])
        &&& self.vec@.len() <= u32::MAX + 1
        &&& self@.no_duplicates()
        &&& self.arena.stored() == bytes_total(self@)
        &&& bytes_total(self@) <= max_stored()
        &&& forall|i: int|
            #![trigger self@[i]]
            0 <= i < self@.len() ==> {
                &&& self.map@.contains_key(text_hash(self@[i]))
                &&& self.map@[text_hash(self@[i])]@.contains(i as u32)
            }
        &&& forall|k: u64, j: int|
            #![trigger self.map@[k]@[j]]
            self.map@.contains_key(k) && 0 <= j < self.map@[k]@.len() ==> self.map@[k]@[j]
                < self.vec@.len()
    }

    /// Byte capacity of the arena's active buffer.
    pub closed spec fn capacity(&self) -> nat {
        self.arena.capacity()
    }

    /// Number of sealed arena buffers.
    pub closed spec fn sealed(&self) -> nat {
        self.arena.sealed()
    }

    /// Text of the arena's active buffer.
    pub closed spec fn active(&self) -> Seq<char> {
        self.arena.active()
    }

    /// A well-formed interner never names one text twice, and its texts fit
    /// in the arena's byte limit.
    pub proof fn lemma_wf(&self)
        requires
            self.wf(),
        ensures
            self@.no_duplicates(),
            bytes_total(self@) <= max_stored(),
    {
    }

    /// An empty interner whose first arena buffer has room for `cap` bytes,
    /// rounded up to a power of two.
    pub fn with_capacity(cap: usize) -> (r: Interner)
        requires
            cap <= usize::MAX / 2 + 1,
        ensures
            r.wf(),
            r@ == Seq::<Seq<char>>::empty(),
            r.sealed() == 0,
            r.active() == Seq::<char>::empty(),
            is_pow2(r.capacity() as int),
            r.capacity() >= cap,
            r.capacity() == 1 || r.capacity() / 2 < cap,
    {
        let r = Interner { map: HashMap::new(), vec: Vec::new(), arena: Arena::with_capacity(cap) };
        assert(r@ =~= Seq::<Seq<char>>::empty());
        r
    }

    /// The handle of `name` if it is interned.
    fn find(&self, key: u64, name: &str) -> (r: Option<u32>)
        requires
            self.wf(),
            key == text_hash(name@),
        ensures
            match r {
                Some(id) => id < self@.len() && self@[id as int] == name@,
                None => !self@.contains(name@),
            },
    {
        match self.map.get(&key) {
            None => None,
            Some(bucket) => {
                let mut j: usize = 0;
                while j < bucket.len()
                    invariant
                        self.wf(),
                        key == text_hash(name@),
                        self.map@.contains_key(key),
                        bucket@ == self.map@[key]@,
                        j <= bucket@.len(),
                        forall|k: int| 0 <= k < j ==> self@[bucket@[k] as int] != name@,
                    decreases bucket@.len() - j,
                {
                    let id = bucket[j];
                    assert(self.map@[key]@[j as int] < self.vec@.len());
                    if self.arena.holds(self.vec[id as usize], name) {
                        return Some(id);
                    }
                    j = j + 1;
                }
                proof {
                    if self@.contains(name@) {
                        let i = choose|i: int| 0 <= i < self@.len() && self@[i] == name@;
                        assert(self.map@[key]@.contains(i as u32));
                    }
                }
                None
            },
        }
    }

    /// The handle of `name`, interning it first if it is new.
    pub fn intern(&mut self, name: &str) -> (r: StrId)
        requires
            old(self).wf(),
            can_intern(old(self)@, name@),
        ensures
            final(self).wf(),
            final(self)@ == interned(old(self)@, name@),
            r@ == handle_of(old(self)@, name@),
            r@ < final(self)@.len(),
            final(self)@[r@ as int] == name@,
            final(self)@.no_duplicates(),
            bytes_total(final(self)@) <= max_stored(),
            old(self)@.contains(name@) ==> *final(self) == *old(self),
    {
        let key = hash_text(name);
        if let Some(id) = self.find(key, name) {
            proof {
                assert(self@.no_duplicates());
                assert(self@[self@.index_of(name@)] == name@);
            }
            return StrId(id);
        }
        let ghost pre = *self;
        let sp = self.arena.allocate(name);
        let id = self.vec.len() as u32;
        self.vec.push(sp);
        let mut bucket = match self.map.remove(&key) {
            Some(b) => b,
            None => Vec::new(),
        };
        let ghost old_bucket = bucket@;
        bucket.push(id);
        self.map.insert(key, bucket);
        proof {
            assert(self@ =~= pre@.push(name@)) by {
                assert forall|i: int| 0 <= i < pre.vec@.len() implies self.vec@[i] == pre.vec@[i]
                    && self.arena.text_of(self.vec@[i]) == pre.arena.text_of(pre.vec@[i]) by {
                    assert(pre.arena.valid(pre.vec@[i]));
                }
            }
            assert(self@.drop_last() =~= pre@);
            assert forall|i: int| 0 <= i < self.vec@.len() implies self.arena.valid(
                #[trigger] self.vec@[i],
            ) by {
                if i < pre.vec@.len() {
                    assert(pre.arena.valid(pre.vec@[i]));
                }
            }
            assert forall|i: int|
                #![trigger self@[i]]
                0 <= i < self@.len() implies {
                &&& self.map@.contains_key(text_hash(self@[i]))
                &&& self.map@[text_hash(self@[i])]@.contains(i as u32)
            } by {
                if i < pre@.len() {
                    assert(pre@[i] == self@[i]);
                    if text_hash(self@[i]) == key {
                        let k = choose|k: int|
                            0 <= k < pre.map@[key]@.len() && pre.map@[key]@[k] == i as u32;
                        assert(self.map@[key]@[k] == i as u32);
                    }
                } else {
                    assert(self.map@[key]@[old_bucket.len() as int] == i as u32);
                }
            }
            assert forall|k: u64, j: int|
                #![trigger self.map@[k]@[j]]
                self.map@.contains_key(k) && 0 <= j < self.map@[k]@.len() implies self.map@[k]@[j]
                < self.vec@.len() by {
                if k == key && j < old_bucket.len() {
                    assert(pre.map@[key]@[j] == self.map@[k]@[j]);
                } else if k != key {
                    assert(pre.map@[k]@[j] == self.map@[k]@[j]);
                }
            }
        }
        StrId(id)
    }

    /// The text interned under `id`.
    pub fn lookup(&self, id: StrId) -> (r: &str)
        requires
            self.wf(),
            id@ < self@.len(),
        ensures
            r@ == self@[id@ as int],
    {
        self.arena.text(self.vec[id.0 as usize])
    }

    /// Number of distinct strings interned.
    pub fn len(&self) -> (r: usize)
        requires
            self.wf(),
        ensures
            r == self@.len(),
    {
        self.vec.len()
    }

    /// Bytes written to the arena over all its buffers: the byte lengths of the
    /// distinct strings, added up.
    pub fn total_size(&self) -> (r: usize)
        requires
            self.wf(),
        ensures
            r == bytes_total(self@),
    {
        self.arena.stored_bytes()
    }

    /// Summarises the interner, which is consumed.
    pub fn stats(self) -> (r: Stats)
        requires
            self.wf(),
        ensures
            r.uniq_count == self@.len(),
            r.total_size == bytes_total(self@),
    {
        Stats { uniq_count: self.len(), total_size: self.total_size() }
    }
}

} // verus!
