//! Maps whose keys are the chunks of files.
use std::collections::HashMap;
use vstd::prelude::*;
use vstd::relations::injective_on;
use vstd::set_lib::lemma_map_size;
use vstd::std_specs::iter::IteratorSpec;

verus! {

broadcast use vstd::std_specs::hash::group_hash_axioms;

/// A chunk, as one number.
pub open spec fn packed(file_id: u32, chunk_idx: usize) -> u128 {
    (file_id * 0x1_0000_0000_0000_0000 + chunk_idx) as u128
}

/// The chunk that a number stands for.
spec fn unpacked(k: u128) -> (u32, usize) {
    (
        (k / 0x1_0000_0000_0000_0000) as u32,
        (k % 0x1_0000_0000_0000_0000) as usize,
    )
}

fn pack(file_id: u32, chunk_idx: usize) -> (k: u128)
    ensures
        k == packed(file_id, chunk_idx),
{
    file_id as u128 * 0x1_0000_0000_0000_0000 + chunk_idx as u128
}

fn unpack(k: u128) -> (c: (u32, usize))
    ensures
        c == unpacked(k),
{
    ((k / 0x1_0000_0000_0000_0000) as u32, (k % 0x1_0000_0000_0000_0000) as usize)
}

/// Different chunks are different numbers.
pub broadcast proof fn packed_is_injective(f: u32, c: usize, g: u32, d: usize)
    requires
        #[trigger] packed(f, c) == #[trigger] packed(g, d),
    ensures
        f == g,
        c == d,
{
}

proof fn lemma_unpacked(f: u32, c: usize)
    ensures
        unpacked(packed(f, c)) == (f, c),
{
}

/// Values by file and chunk.
#[verifier::reject_recursive_types(V)]
pub struct AssetMap<V> {
    entries: HashMap<u128, V>,
}

impl<V> View for AssetMap<V> {
    type V = Map<(u32, usize), V>;

    closed spec fn view(&self) -> Map<(u32, usize), V> {
        Map::new(
            |k: (u32, usize)| self.entries@.contains_key(packed(k.0, k.1)),
            |k: (u32, usize)| self.entries@[packed(k.0, k.1)],
        )
    }
}

impl<V> AssetMap<V> {
    /// Every number is that of a chunk.
    #[verifier::type_invariant]
    spec fn keys_are_packed(self) -> bool {
        forall|k: u128| #[trigger]
            self.entries@.contains_key(k) ==> k == packed(unpacked(k).0, unpacked(k).1)
    }

    proof fn lemma_size(self)
        requires
            self.keys_are_packed(),
        ensures
            self@.dom().finite(),
            self@.dom().len() == self.entries@.dom().len(),
    {
        let numbers = self.entries@.dom();
        let f = |k: u128| unpacked(k);
        assert(injective_on(f, numbers)) by {
            assert forall|a: u128, b: u128|
                numbers.contains(a) && numbers.contains(b) && #[trigger] f(a) == #[trigger] f(
                    b,
                ) implies a == b by {
                assert(self.entries@.contains_key(a));
                assert(self.entries@.contains_key(b));
            }
        }
        assert(numbers.map(f) =~= self@.dom()) by {
            assert forall|k: (u32, usize)| numbers.map(f).contains(k) == self@.dom().contains(k) by {
                if self@.dom().contains(k) {
                    lemma_unpacked(k.0, k.1);
                    assert(numbers.contains(packed(k.0, k.1)));
                    assert(f(packed(k.0, k.1)) == k);
                }
                if numbers.map(f).contains(k) {
                    let n = choose|n: u128| numbers.contains(n) && f(n) == k;
                    assert(self.entries@.contains_key(n));
                }
            }
        }
        lemma_map_size(numbers, self@.dom(), f);
    }

    pub fn new() -> (m: AssetMap<V>)
        ensures
            m@ == Map::<(u32, usize), V>::empty(),
    {
        let m = AssetMap { entries: HashMap::new() };
        assert(m@ =~= Map::<(u32, usize), V>::empty());
        m
    }

    /// How many entries there are.
    pub fn len(&self) -> (n: usize)
        ensures
            self@.dom().finite(),
            n == self@.dom().len(),
    {
        proof {
            use_type_invariant(self);
            self.lemma_size();
        }
        self.entries.len()
    }

    /// The chunks that have an entry, each once, in no particular order.
    pub fn chunks(&self) -> (out: Vec<(u32, usize)>)
        ensures
            out@.no_duplicates(),
            out@.to_set() == self@.dom(),
    {
        proof {
            use_type_invariant(self);
        }
        let mut out: Vec<(u32, usize)> = Vec::new();
        let ghost numbers = self.entries.keys().remaining().unref();
        for k in it: self.entries.keys()
            invariant
                it.seq().unref() == numbers,
                out@ =~= numbers.take(it.index() as int).map_values(|k: u128| unpacked(k)),
        {
            out.push(unpack(*k));
        }
        proof {
            assert(numbers.take(numbers.len() as int) =~= numbers);
            let f = |k: u128| unpacked(k);
            assert(out@ =~= numbers.map_values(f));
            assert forall|i: int, j: int|
                0 <= i < out@.len() && 0 <= j < out@.len() && i != j implies out@[i] != out@[j] by {
                assert(numbers.to_set().contains(numbers[i]));
                assert(numbers.to_set().contains(numbers[j]));
                assert(self.entries@.contains_key(numbers[i]));
                assert(self.entries@.contains_key(numbers[j]));
                assert(numbers[i] != numbers[j]);
            }
            assert forall|c: (u32, usize)| out@.to_set().contains(c) == self@.dom().contains(c) by {
                if out@.to_set().contains(c) {
                    let i = choose|i: int| 0 <= i < out@.len() && out@[i] == c;
                    assert(numbers.to_set().contains(numbers[i]));
                    assert(self.entries@.contains_key(numbers[i]));
                }
                if self@.dom().contains(c) {
                    lemma_unpacked(c.0, c.1);
                    let k = packed(c.0, c.1);
                    assert(numbers.to_set().contains(k));
                    let i = choose|i: int| 0 <= i < numbers.len() && numbers[i] == k;
                    assert(out@[i] == c);
                }
            }
            assert(out@.to_set() =~= self@.dom());
        }
        out
    }

    pub fn contains(&self, file_id: u32, chunk_idx: usize) -> (b: bool)
        ensures
            b == self@.contains_key((file_id, chunk_idx)),
    {
        self.entries.contains_key(&pack(file_id, chunk_idx))
    }

    pub fn get(&self, file_id: u32, chunk_idx: usize) -> (r: Option<&V>)
        ensures
            match r {
                Some(v) => self@.contains_key((file_id, chunk_idx)) && *v == self@[(
                    file_id,
                    chunk_idx,
                )],
                None => !self@.contains_key((file_id, chunk_idx)),
            },
    {
        self.entries.get(&pack(file_id, chunk_idx))
    }

    pub fn insert(&mut self, file_id: u32, chunk_idx: usize, value: V)
        ensures
            final(self)@ == old(self)@.insert((file_id, chunk_idx), value),
    {
        proof {
            use_type_invariant(&*self);
            lemma_unpacked(file_id, chunk_idx);
        }
        let mut entries: HashMap<u128, V> = HashMap::new();
        std::mem::swap(&mut entries, &mut self.entries);
        entries.insert(pack(file_id, chunk_idx), value);
        self.entries = entries;
        proof {
            broadcast use packed_is_injective;

            assert(self@ =~= old(self)@.insert((file_id, chunk_idx), value));
        }
    }

    pub fn remove(&mut self, file_id: u32, chunk_idx: usize) -> (r: Option<V>)
        ensures
            r == (if old(self)@.contains_key((file_id, chunk_idx)) {
                Some(old(self)@[(file_id, chunk_idx)])
            } else {
                None
            }),
            final(self)@ == old(self)@.remove((file_id, chunk_idx)),
    {
        proof {
            use_type_invariant(&*self);
        }
        let mut entries: HashMap<u128, V> = HashMap::new();
        std::mem::swap(&mut entries, &mut self.entries);
        let r = entries.remove(&pack(file_id, chunk_idx));
        self.entries = entries;
        proof {
            broadcast use packed_is_injective;

            assert(self@ =~= old(self)@.remove((file_id, chunk_idx)));
        }
        r
    }
}

} // verus!
