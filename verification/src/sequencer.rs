//! The sequencer: the engine's random-access working buffer.  It starts as a
//! growable heap vector and may be promoted, once, to a fixed-size anonymous
//! memory mapping when the working length outgrows what should stay on the
//! heap.

use vstd::prelude::*;
use memmap::MmapMut;
use crate::MAX_FILE_SIZE;

verus! {

/// The soft cap on the heap-resident representation: past this the engine
/// promotes the sequencer to a memory mapping.
pub const MAX_IN_MEMORY_SIZE: usize = 50 * 1024 * 1024;

#[verifier::external_type_specification]
#[verifier::external_body]
pub struct ExMmapMut(MmapMut);

/// The bytes an anonymous memory mapping holds.
pub uninterp spec fn mmap_contents(m: MmapMut) -> Seq<u8>;

/// Relies on memmap's MmapMut::map_anon: an anonymous read-write mapping of
/// exactly the requested length, and fresh anonymous memory is zero-filled.
#[verifier::external_body]
fn mmap_anon(length: usize) -> (r: Option<MmapMut>)
    requires
        length > 0,
    ensures
        r matches Some(m) ==> mmap_contents(m)
            == Seq::new(length as nat, |i: int| 0u8),
{
    MmapMut::map_anon(length).ok()
}

/// Relies on memmap's MmapMut Deref to a byte slice: one byte of the mapping.
#[verifier::external_body]
fn mmap_get(m: &MmapMut, index: usize) -> (r: u8)
    requires
        index < mmap_contents(*m).len(),
    ensures
        r == mmap_contents(*m)[index as int],
{
    m[index]
}

/// Relies on memmap's MmapMut::len: the length of the mapping, which is the
/// length it was created with and the length of the slice it derefs to.
#[verifier::external_body]
fn mmap_len(m: &MmapMut) -> (r: usize)
    ensures
        r == mmap_contents(*m).len(),
{
    m.len()
}

/// Relies on memmap's MmapMut DerefMut to a byte slice: writes one byte of
/// the mapping and leaves the rest.
#[verifier::external_body]
fn mmap_set(m: &mut MmapMut, index: usize, value: u8)
    requires
        index < mmap_contents(*old(m)).len(),
    ensures
        mmap_contents(*final(m)) == mmap_contents(*old(m)).update(index as int, value),
{
    m[index] = value;
}

enum Data {
    Vector(Vec<u8>),
    Mapped(MmapMut),
}

/// A sequence of bytes held either in a vector or in a memory map.
pub struct Sequencer {
    data: Data,
}

impl View for Sequencer {
    type V = Seq<u8>;

    closed spec fn view(&self) -> Seq<u8> {
        match self.data {
            Data::Vector(v) => v@,
            Data::Mapped(m) => mmap_contents(m),
        }
    }
}

impl Sequencer {
    /// Whether the bytes are still heap-resident.
    pub closed spec fn is_vector(&self) -> bool {
        self.data is Vector
    }

    /// A vector never outgrows the maximum file size; a mapping has exactly
    /// that size.
    pub closed spec fn wf(&self) -> bool {
        match self.data {
            Data::Vector(v) => v@.len() <= MAX_FILE_SIZE,
            Data::Mapped(m) => mmap_contents(m).len() == MAX_FILE_SIZE,
        }
    }

    /// Initialise as an empty vector.
    pub fn new_as_vector() -> (r: Sequencer)
        ensures
            r.wf(),
            r.is_vector(),
            r@ == Seq::<u8>::empty(),
    {
        Sequencer { data: Data::Vector(Vec::new()) }
    }

    /// Initialise as a memory map of the maximum file size.  Fails when the
    /// mapping cannot be made.
    pub fn new_as_mmap() -> (r: Option<Sequencer>)
        ensures
            r matches Some(s) ==> s.wf() && !s.is_vector()
                && s@ == Seq::new(MAX_FILE_SIZE as nat, |i: int| 0u8),
    {
        match mmap_anon(MAX_FILE_SIZE) {
            Some(m) => Some(Sequencer { data: Data::Mapped(m) }),
            None => None,
        }
    }

    /// Return the current length of the sequencer.
    pub fn len(&self) -> (r: usize)
        ensures
            r == self@.len(),
    {
        match &self.data {
            Data::Vector(v) => v.len(),
            Data::Mapped(m) => mmap_len(m),
        }
    }

    /// Read the byte at `index`.
    pub fn get(&self, index: usize) -> (r: u8)
        requires
            index < self@.len(),
        ensures
            r == self@[index as int],
    {
        match &self.data {
            Data::Vector(v) => v[index],
            Data::Mapped(m) => mmap_get(m, index),
        }
    }

    /// Overwrite the byte at `index`.
    pub fn set(&mut self, index: usize, value: u8)
        requires
            old(self).wf(),
            index < old(self)@.len(),
        ensures
            final(self).wf(),
            final(self).is_vector() == old(self).is_vector(),
            final(self)@ == old(self)@.update(index as int, value),
    {
        match &mut self.data {
            Data::Vector(v) => {
                v.set(index, value);
            },
            Data::Mapped(m) => {
                mmap_set(m, index, value);
            },
        }
    }

    /// Append one byte; only the vector representation grows.
    pub fn push(&mut self, value: u8)
        requires
            old(self).wf(),
            old(self).is_vector(),
            old(self)@.len() < MAX_FILE_SIZE,
        ensures
            final(self).wf(),
            final(self).is_vector(),
            final(self)@ == old(self)@.push(value),
    {
        match &mut self.data {
            Data::Vector(v) => {
                v.push(value);
            },
            Data::Mapped(_) => {},
        }
    }

    /// Initialise the sequencer with `content`: appended to a vector,
    /// written at the start of a mapping.
    pub fn init(&mut self, content: &[u8])
        requires
            old(self).wf(),
            old(self).is_vector() ==> old(self)@.len() + content@.len() <= MAX_FILE_SIZE,
            !old(self).is_vector() ==> content@.len() <= old(self)@.len(),
        ensures
            final(self).wf(),
            final(self).is_vector() == old(self).is_vector(),
            old(self).is_vector() ==> final(self)@ == old(self)@ + content@,
            !old(self).is_vector() ==> final(self)@ == content@
                + old(self)@.skip(content@.len() as int),
    {
        if self.is_vector_rep() {
            let mut i: usize = 0;
            while i < content.len()
                invariant
                    self.wf(),
                    self.is_vector(),
                    old(self).is_vector(),
                    0 <= i <= content@.len(),
                    old(self)@.len() + content@.len() <= MAX_FILE_SIZE,
                    self@ == old(self)@ + content@.take(i as int),
                decreases content@.len() - i,
            {
                self.push(content[i]);
                proof {
                    assert(old(self)@ + content@.take(i + 1)
                        =~= (old(self)@ + content@.take(i as int)).push(content@[i as int]));
                }
                i = i + 1;
            }
            proof {
                assert(content@.take(content@.len() as int) =~= content@);
            }
        } else {
            let mut i: usize = 0;
            while i < content.len()
                invariant
                    self.wf(),
                    !self.is_vector(),
                    0 <= i <= content@.len(),
                    content@.len() <= old(self)@.len(),
                    self@.len() == old(self)@.len(),
                    self@ == content@.take(i as int) + old(self)@.skip(i as int),
                decreases content@.len() - i,
            {
                self.set(i, content[i]);
                proof {
                    assert(content@.take(i + 1) + old(self)@.skip(i + 1)
                        =~= (content@.take(i as int) + old(self)@.skip(i as int))
                            .update(i as int, content@[i as int]));
                }
                i = i + 1;
            }
            proof {
                assert(content@.take(content@.len() as int) =~= content@);
            }
        }
    }

    /// Truncate to `size` bytes.  This affects the vector only, since the
    /// memory map has a fixed size.
    pub fn truncate(&mut self, size: usize)
        requires
            old(self).wf(),
        ensures
            final(self).wf(),
            final(self).is_vector() == old(self).is_vector(),
            old(self).is_vector() && size <= old(self)@.len()
                ==> final(self)@ == old(self)@.take(size as int),
            old(self).is_vector() && size > old(self)@.len() ==> final(self)@ == old(self)@,
            !old(self).is_vector() ==> final(self)@ == old(self)@,
    {
        match &mut self.data {
            Data::Vector(v) => {
                v.truncate(size);
            },
            Data::Mapped(_) => {},
        }
    }

    /// Promote the vector to a memory map of the maximum file size, copying
    /// the bytes held so far; idempotent.  On failure nothing changes.
    pub fn create_mapping(&mut self) -> (r: Result<(), ()>)
        requires
            old(self).wf(),
        ensures
            final(self).wf(),
            !old(self).is_vector() ==> r is Ok && *final(self) == *old(self),
            r is Ok ==> !final(self).is_vector()
                && final(self)@.len() == MAX_FILE_SIZE
                && final(self)@.take(old(self)@.len() as int) == old(self)@.take(old(self)@.len() as int),
            r is Ok && old(self).is_vector() ==> final(self)@
                == old(self)@ + Seq::new((MAX_FILE_SIZE - old(self)@.len()) as nat, |k: int| 0u8),
            r is Err ==> *final(self) == *old(self),
    {
        let is_vec = self.is_vector_rep();
        if !is_vec {
            proof {
                assert(self@.take(self@.len() as int) =~= self@);
            }
            return Ok(());
        }
        let mut mapping = match mmap_anon(MAX_FILE_SIZE) {
            Some(m) => m,
            None => {
                return Err(());
            },
        };
        match &self.data {
            Data::Vector(v) => {
                proof {
                    assert(mmap_contents(mapping)
                        =~= v@.take(0) + Seq::new((MAX_FILE_SIZE - 0) as nat, |k: int| 0u8));
                }
                let mut i: usize = 0;
                while i < v.len()
                    invariant
                        v@.len() <= MAX_FILE_SIZE,
                        mmap_contents(mapping).len() == MAX_FILE_SIZE,
                        0 <= i <= v@.len(),
                        mmap_contents(mapping)
                            == v@.take(i as int)
                                + Seq::new((MAX_FILE_SIZE - i) as nat, |k: int| 0u8),
                    decreases v@.len() - i,
                {
                    mmap_set(&mut mapping, i, v[i]);
                    proof {
                        assert(mmap_contents(mapping)
                            =~= v@.take(i + 1)
                                + Seq::new((MAX_FILE_SIZE - i - 1) as nat, |k: int| 0u8));
                    }
                    i = i + 1;
                }
                proof {
                    assert(v@.take(v@.len() as int) =~= v@);
                }
            },
            Data::Mapped(_) => {},
        }
        self.data = Data::Mapped(mapping);
        Ok(())
    }

    /// Whether the bytes are still heap-resident.
    pub fn is_vector_rep(&self) -> (r: bool)
        ensures
            r == self.is_vector(),
    {
        match &self.data {
            Data::Vector(_) => true,
            Data::Mapped(_) => false,
        }
    }

}

/// Copy a byte range of the sequencer out into a vector.
pub fn read_range(s: &Sequencer, start: usize, end: usize) -> (r: Vec<u8>)
    requires
        start <= end <= s@.len(),
    ensures
        r@ == s@.subrange(start as int, end as int),
{
    let mut r: Vec<u8> = Vec::new();
    let mut i: usize = start;
    while i < end
        invariant
            start <= i <= end <= s@.len(),
            r@ == s@.subrange(start as int, i as int),
        decreases end - i,
    {
        r.push(s.get(i));
        proof {
            assert(s@.subrange(start as int, i + 1)
                =~= s@.subrange(start as int, i as int).push(s@[i as int]));
        }
        i = i + 1;
    }
    r
}

} // verus!
