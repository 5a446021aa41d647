use std::collections::hash_map::DefaultHasher;
use std::collections::HashMap;
use std::hash::Hasher;
use vstd::prelude::*;
use vstd::std_specs::hash::DefaultHasherAdditionalSpecFns;
use vstd::utf8::encode_utf8;

verus! {

broadcast use {vstd::string::group_string_axioms, vstd::std_specs::hash::group_hash_axioms};

/// The hash of a label: its UTF-8 bytes written once to a fresh `DefaultHasher`.
pub open spec fn label_hash(s: Seq<char>) -> u64 {
    DefaultHasher::spec_finish(seq![encode_utf8(s)])
}

fn hash_label(s: &str) -> (r: u64)
    ensures
        r == label_hash(s@),
{
    let mut hasher = DefaultHasher::new();
    hasher.write(s.as_bytes());
    hasher.finish()
}

/// `names` after interning `s`: unchanged when `s` is already there, else `s` appended.
pub open spec fn interned(names: Seq<Seq<char>>, s: Seq<char>) -> Seq<Seq<char>> {
    if names.contains(s) {
        names
    } else {
        names.push(s)
    }
}

/// Maps label strings to dense handles and back: the handle of a string is
/// its position in the list of distinct strings seen so far. Handles are
/// found by hash bucket.
pub struct StringInterner {
    strings: HashMap<u64, Vec<usize>>,
    indices: Vec<String>,
}

impl View for StringInterner {
    type V = Seq<Seq<char>>;

    closed spec fn view(&self) -> Seq<Seq<char>> {
        self.indices@.map_values(|s: String| s@)
    }
}

impl StringInterner {
    /// No string has two handles; every bucket holds handles only; every
    /// handle is in the bucket of its string's hash.
    pub closed spec fn wf(&self) -> bool {
        &&& self@.no_duplicates()
        &&& forall|h: u64, j: int|
            self.strings@.contains_key(h) && 0 <= j < self.strings@[h]@.len()
                ==> #[trigger] self.strings@[h]@[j] < self.indices@.len()
        &&& forall|i: int|
            0 <= i < self.indices@.len() ==> {
                &&& self.strings@.contains_key(label_hash(#[trigger] self@[i]))
                &&& self.strings@[label_hash(self@[i])]@.contains(i as usize)
            }
    }

    /// A well-formed interner holds no string twice.
    pub proof fn lemma_distinct(&self)
        requires
            self.wf(),
        ensures
            self@.no_duplicates(),
    {
    }

    pub fn new() -> (r: StringInterner)
        ensures
            r.wf(),
            r@ == Seq::<Seq<char>>::empty(),
    {
        let r = StringInterner { strings: HashMap::new(), indices: Vec::new() };
        assert(r@ =~= Seq::<Seq<char>>::empty());
        r
    }

    /// The handle of `s`, given a new handle if `s` was not seen before.
    pub fn intern(&mut self, s: &str) -> (r: usize)
        requires
            old(self).wf(),
            old(self)@.len() < usize::MAX,
        ensures
            final(self).wf(),
            final(self)@ == interned(old(self)@, s@),
            r < final(self)@.len(),
            final(self)@[r as int] == s@,
    {
        let ghost names = self@;
        let owned = s.to_string();
        let h = hash_label(s);
        match self.strings.get(&h) {
            Some(bucket) => {
                let mut k: usize = 0;
                while k < bucket.len()
                    invariant
                        self@ == names,
                        self.wf(),
                        owned@ == s@,
                        self.strings@.contains_key(h),
                        bucket@ == self.strings@[h]@,
                        k <= bucket@.len(),
                        forall|j: int| 0 <= j < k ==> names[#[trigger] bucket@[j] as int] != s@,
                    decreases bucket@.len() - k,
                {
                    let idx = bucket[k];
                    assert(self.strings@[h]@[k as int] == idx);
                    if self.indices[idx] == owned {
                        assert(names[idx as int] == s@);
                        assert(names.contains(s@));
                        return idx;
                    }
                    k = k + 1;
                }
                proof {
                    if names.contains(s@) {
                        let i = choose|i: int| 0 <= i < names.len() && names[i] == s@;
                        assert(self.strings@[label_hash(self@[i])]@.contains(i as usize));
                        let j = choose|j: int| 0 <= j < bucket@.len() && bucket@[j] == i as usize;
                        assert(names[bucket@[j] as int] != s@);
                    }
                }
            },
            None => {
                proof {
                    if names.contains(s@) {
                        let i = choose|i: int| 0 <= i < names.len() && names[i] == s@;
                        assert(self.strings@.contains_key(label_hash(self@[i])));
                    }
                }
            },
        }
        let index = self.indices.len();
        let ghost old_strings = self.strings@;
        let ghost old_indices = self.indices@;
        let mut bucket = match self.strings.remove(&h) {
            Some(v) => v,
            None => Vec::new(),
        };
        bucket.push(index);
        self.strings.insert(h, bucket);
        self.indices.push(owned);
        proof {
            assert(!names.contains(s@));
            assert(self@ =~= names.push(s@));
            assert forall|a: int, b: int|
                0 <= a < self@.len() && 0 <= b < self@.len() && a != b implies self@[a] != self@[b] by {
                if a < names.len() && b < names.len() {
                } else if a < names.len() {
                    assert(names.contains(self@[a]));
                } else {
                    assert(names.contains(self@[b]));
                }
            }
            assert forall|g: u64, j: int|
                self.strings@.contains_key(g) && 0 <= j < self.strings@[g]@.len()
                    implies #[trigger] self.strings@[g]@[j] < self.indices@.len() by {
                if g != h {
                    assert(old_strings.contains_key(g));
                    assert(old_strings[g]@[j] < old_indices.len());
                } else if j < self.strings@[g]@.len() - 1 {
                    assert(old_strings.contains_key(g));
                    assert(old_strings[g]@[j] < old_indices.len());
                }
            }
            assert forall|i: int| 0 <= i < self.indices@.len() implies {
                &&& self.strings@.contains_key(label_hash(#[trigger] self@[i]))
                &&& self.strings@[label_hash(self@[i])]@.contains(i as usize)
            } by {
                if i < names.len() {
                    assert(self@[i] == names[i]);
                    let g = label_hash(names[i]);
                    assert(old_strings.contains_key(g));
                    assert(old_strings[g]@.contains(i as usize));
                    let j = choose|j: int| 0 <= j < old_strings[g]@.len() && old_strings[g]@[j] == i as usize;
                    if g == h {
                        assert(self.strings@[g]@[j] == i as usize);
                    }
                } else {
                    assert(self@[i] == s@);
                    let last = self.strings@[h]@.len() - 1;
                    assert(self.strings@[h]@[last] == index);
                }
            }
        }
        index
    }

    /// The string of a handle, if the handle was given out.
    pub fn get_string(&self, index: usize) -> (r: Option<&str>)
        ensures
            r.is_some() <==> index < self@.len(),
            r.is_some() ==> r.unwrap()@ == self@[index as int],
    {
        if index < self.indices.len() {
            Some(self.indices[index].as_str())
        } else {
            None
        }
    }

    pub fn len(&self) -> (r: usize)
        ensures
            r == self@.len(),
    {
        self.indices.len()
    }

    /// An interner with the same handles.
    pub fn copy(&self) -> (r: StringInterner)
        ensures
            r@ == self@,
            self.wf() ==> r.wf(),
    {
        let mut indices: Vec<String> = Vec::new();
        let mut k: usize = 0;
        while k < self.indices.len()
            invariant
                k <= self.indices@.len(),
                indices@.len() == k,
                forall|j: int| 0 <= j < k ==> #[trigger] indices@[j]@ == self.indices@[j]@,
            decreases self.indices@.len() - k,
        {
            let c = self.indices[k].clone();
            indices.push(c);
            k = k + 1;
        }
        let r = StringInterner { strings: self.strings.clone(), indices };
        assert(r@ =~= self@);
        r
    }
}

} // verus!
