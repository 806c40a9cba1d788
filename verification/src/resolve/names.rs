//! Interned names and the handles that the linker passes around.

use std::collections::HashMap;
use vstd::prelude::*;
use crate::text;
use crate::text::same_text;

verus! {

broadcast use vstd::std_specs::hash::group_hash_axioms;

/// Handle of a name in a `StringInterner`. Names are compared by their handles.
#[derive(Debug, Clone, Copy, PartialEq, Eq, Hash, PartialOrd, Ord, Structural)]
pub struct Istr(pub u32);

impl Istr {
    pub fn as_u32(self) -> (r: u32)
        ensures
            r == self.0,
    {
        self.0
    }
}

/// An input file's place in the link.
#[derive(Debug, Clone, Copy, PartialEq, Eq, Hash, PartialOrd, Ord, Structural)]
pub struct InputId(pub u32);

impl InputId {
    pub fn as_u32(self) -> (r: u32)
        ensures
            r == self.0,
    {
        self.0
    }
}

/// An atom's place in the atom table.
#[derive(Debug, Clone, Copy, PartialEq, Eq, Hash, PartialOrd, Ord, Structural)]
pub struct AtomId(pub u32);

impl AtomId {
    pub fn as_u32(self) -> (r: u32)
        ensures
            r == self.0,
    {
        self.0
    }
}

/// A dylib's place in the registry of dylibs.
#[derive(Debug, Clone, Copy, PartialEq, Eq, Hash, PartialOrd, Ord, Structural)]
pub struct DylibId(pub u32);

impl DylibId {
    pub fn as_u32(self) -> (r: u32)
        ensures
            r == self.0,
    {
        self.0
    }
}

/// An archive's place in the registry of archives.
#[derive(Debug, Clone, Copy, PartialEq, Eq, Hash, PartialOrd, Ord, Structural)]
pub struct ArchiveId(pub u32);

impl ArchiveId {
    pub fn as_u32(self) -> (r: u32)
        ensures
            r == self.0,
    {
        self.0
    }
}

/// A member of an archive, by the offset of its header.
#[derive(Debug, Clone, Copy, PartialEq, Eq, Hash, PartialOrd, Ord, Structural)]
pub struct MemberId(pub u32);

impl MemberId {
    pub fn as_u32(self) -> (r: u32)
        ensures
            r == self.0,
    {
        self.0
    }
}

/// A symbol's place in the symbol table. It stays the same for the whole link.
#[derive(Debug, Clone, Copy, PartialEq, Eq, Hash, PartialOrd, Ord, Structural)]
pub struct SymbolId(pub u32);

impl SymbolId {
    pub fn as_u32(self) -> (r: u32)
        ensures
            r == self.0,
    {
        self.0
    }
}

/// The bucket of a name.
pub closed spec fn bucket_of(s: Seq<u8>) -> u64
    decreases s.len(),
{
    if s.len() == 0 {
        0xcbf29ce484222325
    } else {
        (bucket_of(s.drop_last()) ^ (s.last() as u64)).wrapping_mul(0x100000001b3)
    }
}

fn bucket(name: &str) -> (h: u64)
    ensures
        h == bucket_of(text::utf8(name@)),
{
    let bytes = name.as_bytes();
    let mut h: u64 = 0xcbf29ce484222325;
    let mut i: usize = 0;
    while i < bytes.len()
        invariant
            i <= bytes@.len(),
            h == bucket_of(bytes@.take(i as int)),
        decreases bytes@.len() - i,
    {
        assert(bytes@.take(i + 1).drop_last() =~= bytes@.take(i as int));
        h = (h ^ (bytes[i] as u64)).wrapping_mul(0x100000001b3);
        i += 1;
    }
    assert(bytes@.take(i as int) =~= bytes@);
    h
}

/// Gives every distinct name a handle, in the order in which names come.
#[derive(Debug)]
pub struct StringInterner {
    strings: Vec<String>,
    index: HashMap<u64, Vec<usize>>,
}

/// The first place of `name`, if it is there.
pub open spec fn place_of(names: Seq<Seq<char>>, name: Seq<char>) -> Option<int> {
    if names.contains(name) {
        Some(names.index_of(name))
    } else {
        None
    }
}

impl View for StringInterner {
    type V = Seq<Seq<char>>;

    /// The names in the order of their handles.
    closed spec fn view(&self) -> Seq<Seq<char>> {
        self.strings@.map_values(|s: String| s@)
    }
}

impl StringInterner {
    /// Every name is held once and is found through its bucket.
    pub closed spec fn wf(self) -> bool {
        &&& self@.no_duplicates()
        &&& forall|i: int|
            0 <= i < self@.len() ==> self.index@.contains_key(
                bucket_of(text::utf8(#[trigger] self@[i])),
            ) && self.index@[bucket_of(text::utf8(self@[i]))]@.contains(i as usize)
        &&& forall|h: u64, k: int|
            self.index@.contains_key(h) && 0 <= k < self.index@[h]@.len() ==> (
            #[trigger] self.index@[h]@[k]) < self@.len()
    }

    pub fn new() -> (r: StringInterner)
        ensures
            r.wf(),
            r@ == Seq::<Seq<char>>::empty(),
    {
        let r = StringInterner { strings: Vec::new(), index: HashMap::new() };
        assert(r@ =~= Seq::<Seq<char>>::empty());
        r
    }

    fn find(&self, s: &str) -> (r: Option<usize>)
        requires
            self.wf(),
        ensures
            match r {
                Some(i) => i < self@.len() && self@[i as int] == s@,
                None => !self@.contains(s@),
            },
    {
        let h: u64 = bucket(s);
        match self.index.get(&h) {
            None => {
                proof {
                    if self@.contains(s@) {
                        let i = choose|i: int| 0 <= i < self@.len() && self@[i] == s@;
                        assert(self.index@.contains_key(bucket_of(text::utf8(self@[i]))));
                    }
                }
                None
            },
            Some(places) => {
                let mut k: usize = 0;
                while k < places.len()
                    invariant
                        self.wf(),
                        self.index@.contains_key(h),
                        *places == self.index@[h],
                        k <= places@.len(),
                        forall|j: int| 0 <= j < k ==> self@[(#[trigger] places@[j]) as int] != s@,
                    decreases places@.len() - k,
                {
                    assert(self.index@[h]@[k as int] < self@.len());
                    let i: usize = places[k];
                    assert(self@[i as int] == self.strings@[i as int]@);
                    if same_text(self.strings[i].as_str(), s) {
                        return Some(i);
                    }
                    k += 1;
                }
                proof {
                    if self@.contains(s@) {
                        let i = choose|i: int| 0 <= i < self@.len() && self@[i] == s@;
                        assert(self.index@[bucket_of(text::utf8(self@[i]))]@.contains(i as usize));
                        let j = choose|j: int|
                            0 <= j < places@.len() && places@[j] == i as usize;
                        assert(self@[places@[j] as int] != s@);
                        assert(i == (i as usize) as int) by {
                            assert(self@.len() == self.strings@.len());
                            assert(self.strings.len() == self.strings@.len());
                        }
                    }
                }
                None
            },
        }
    }

    /// The handle of `s`, a new one where the name was not seen before.
    pub fn intern(&mut self, s: &str) -> (r: Istr)
        requires
            old(self).wf(),
        ensures
            final(self).wf(),
            match place_of(old(self)@, s@) {
                Some(i) => r == Istr(i as u32) && final(self)@ == old(self)@,
                None => r == Istr(old(self)@.len() as u32) && final(self)@ == old(self)@.push(s@),
            },
    {
        if let Some(i) = self.find(s) {
            assert(self@.index_of(s@) == i);
            return Istr(i as u32);
        }
        let i: usize = self.strings.len();
        let h: u64 = bucket(s);
        let mut places: Vec<usize> = match self.index.remove(&h) {
            Some(places) => places,
            None => Vec::new(),
        };
        let ghost before = places@;
        places.push(i);
        self.index.insert(h, places);
        self.strings.push(s.to_owned());
        proof {
            let was = old(self)@;
            assert(self@ =~= was.push(s@));
            assert forall|j: int| 0 <= j < self@.len() implies self.index@.contains_key(
                bucket_of(text::utf8(#[trigger] self@[j])),
            ) && self.index@[bucket_of(text::utf8(self@[j]))]@.contains(j as usize) by {
                if j == i {
                    assert(self.index@[h]@[before.len() as int] == i);
                } else {
                    assert(self@[j] == was[j]);
                    let b = bucket_of(text::utf8(was[j]));
                    assert(old(self).index@.contains_key(b));
                    if b == h {
                        let m = choose|m: int|
                            0 <= m < before.len() && before[m] == j as usize;
                        assert(self.index@[h]@[m] == j as usize);
                    }
                }
            }
            assert forall|b: u64, k: int|
                self.index@.contains_key(b) && 0 <= k < self.index@[b]@.len() implies (
            #[trigger] self.index@[b]@[k]) < self@.len() by {
                if b == h {
                    if k < before.len() {
                        assert(before[k] == old(self).index@[h]@[k]);
                    }
                } else {
                    assert(old(self).index@[b]@[k] < was.len());
                }
            }
        }
        Istr(i as u32)
    }

    /// The handle of `s`, if it has one.
    pub fn get(&self, s: &str) -> (r: Option<Istr>)
        requires
            self.wf(),
        ensures
            r == match place_of(self@, s@) {
                Some(i) => Some(Istr(i as u32)),
                None => None,
            },
    {
        match self.find(s) {
            Some(i) => {
                assert(self@.index_of(s@) == i);
                Some(Istr(i as u32))
            },
            None => None,
        }
    }

    /// The name behind a handle.
    pub fn resolve(&self, i: Istr) -> (r: &str)
        requires
            i.0 < self@.len(),
        ensures
            r@ == self@[i.0 as int],
    {
        self.strings[i.0 as usize].as_str()
    }

    pub fn len(&self) -> (r: usize)
        ensures
            r == self@.len(),
    {
        self.strings.len()
    }

    pub fn is_empty(&self) -> (r: bool)
        ensures
            r == (self@.len() == 0),
    {
        self.strings.len() == 0
    }
}

/// What `intern` gives for `name` when the names so far are `names`.
pub open spec fn interned(names: Seq<Seq<char>>, name: Seq<char>) -> (Seq<Seq<char>>, Istr) {
    match place_of(names, name) {
        Some(i) => (names, Istr(i as u32)),
        None => (names.push(name), Istr(names.len() as u32)),
    }
}

/// As long as there are fewer than 2^32 names, a handle leads back to the name
/// it was given for, and interning the name again gives the same handle.
pub proof fn law_intern_resolves(names: Seq<Seq<char>>, name: Seq<char>)
    requires
        names.len() < u32::MAX,
    ensures
        interned(names, name).1.0 < interned(names, name).0.len(),
        interned(names, name).0[interned(names, name).1.0 as int] == name,
        interned(interned(names, name).0, name) == interned(names, name),
{
    let (after, h) = interned(names, name);
    if names.contains(name) {
    } else {
        assert(after[names.len() as int] == name);
        assert(after.contains(name));
        let k = after.index_of(name);
        assert(after[k] == name);
        if k < names.len() {
            assert(names[k] == name);
        }
    }
}

/// Handles that were given out stay valid and keep their names.
pub proof fn law_intern_keeps(names: Seq<Seq<char>>, name: Seq<char>, i: int)
    requires
        0 <= i < names.len(),
    ensures
        i < interned(names, name).0.len(),
        interned(names, name).0[i] == names[i],
{
}

} // verus!
