//! Bytes-keyed name interner.

use std::collections::HashMap;
use vstd::prelude::*;
use vstd::slice::slice_subrange;

use crate::bytes::{push_bytes, same_bytes};

verus! {

broadcast use vstd::std_specs::hash::group_hash_axioms;

/// Marks the end of a chain of equal-hash names.
const NO_ID: u32 = u32::MAX;

/// Hash of the first `n` bytes of `name`.
spec fn hash_of(name: Seq<u8>, n: int) -> u64
    decreases n,
{
    if n <= 0 {
        0xcbf29ce484222325u64
    } else {
        (((hash_of(name, n - 1) ^ (name[n - 1] as u64)) as int * 0x100000001b3) % 0x1_0000_0000_0000_0000) as u64
    }
}

fn hash_bytes(name: &[u8]) -> (h: u64)
    ensures
        h == hash_of(name@, name@.len() as int),
{
    let mut h: u64 = 0xcbf29ce484222325;
    let mut i: usize = 0;
    while i < name.len()
        invariant
            i <= name@.len(),
            h == hash_of(name@, i as int),
        decreases name@.len() - i,
    {
        let mixed: u64 = h ^ (name[i] as u64);
        h = mixed.wrapping_mul(0x100000001b3);
        i += 1;
    }
    h
}

/// Following `next` from `from` meets `target`.
spec fn chained(next: Seq<u32>, from: int, target: int) -> bool
    decreases from,
{
    if from < 0 || from >= next.len() {
        false
    } else if from == target {
        true
    } else {
        0 <= next[from] < from && chained(next, next[from] as int, target)
    }
}

proof fn lemma_chained_push(next: Seq<u32>, more: u32, from: int, target: int)
    requires
        chained(next, from, target),
    ensures
        chained(next.push(more), from, target),
    decreases from,
{
    if from != target {
        lemma_chained_push(next, more, next[from] as int, target);
    }
}

/// Assigns small consecutive ids to byte strings: JSON object keys, XML
/// element and attribute names, heading texts. Same lifetime as the
/// document they come from.
///
/// All the bytes sit end to end in `buf`; names whose hashes agree are
/// chained newest first through `next`, starting from `heads`.
#[derive(Debug)]
pub struct NameInterner {
    heads: HashMap<u64, u32>,
    next: Vec<u32>,
    buf: Vec<u8>,
    ranges: Vec<(usize, usize)>,
}

/// The id `name` gets in `names`: its first occurrence, or the next free
/// id when it is new.
pub open spec fn intern_id(names: Seq<Seq<u8>>, name: Seq<u8>) -> int {
    if names.contains(name) {
        names.index_of(name)
    } else {
        names.len() as int
    }
}

/// The table after interning `name`: unchanged when it was there, with
/// `name` appended otherwise.
pub open spec fn interned(names: Seq<Seq<u8>>, name: Seq<u8>) -> Seq<Seq<u8>> {
    if names.contains(name) {
        names
    } else {
        names.push(name)
    }
}

impl View for NameInterner {
    type V = Seq<Seq<u8>>;

    /// The interned names, by id.
    closed spec fn view(&self) -> Seq<Seq<u8>> {
        Seq::new(
            self.ranges@.len(),
            |i: int| self.buf@.subrange(self.ranges@[i].0 as int, self.ranges@[i].1 as int),
        )
    }
}

impl NameInterner {
    /// Every stored range lies in the buffer, no name is stored twice,
    /// and the hash chains reach every name.
    pub closed spec fn wf(&self) -> bool {
        &&& self.next@.len() == self.ranges@.len()
        &&& self.ranges@.len() <= NO_ID
        &&& forall|i: int|
            0 <= i < self.ranges@.len() ==> (#[trigger] self.ranges@[i]).0 <= self.ranges@[i].1
                && self.ranges@[i].1 <= self.buf@.len()
        &&& self@.no_duplicates()
        &&& forall|i: int| 0 <= i < self.next@.len() ==> (#[trigger] self.next@[i] == NO_ID || self.next@[i] < i)
        &&& forall|h: u64| self.heads@.contains_key(h) ==> (#[trigger] self.heads@[h]) < self.next@.len()
        &&& forall|i: int|
            0 <= i < self.ranges@.len() ==> self.heads@.contains_key(
                hash_of(#[trigger] self@[i], self@[i].len() as int),
            ) && chained(self.next@, self.heads@[hash_of(self@[i], self@[i].len() as int)] as int, i)
    }

    pub fn new() -> (r: Self)
        ensures
            r.wf(),
            r@ == Seq::<Seq<u8>>::empty(),
    {
        let r = NameInterner { heads: HashMap::new(), next: Vec::new(), buf: Vec::new(), ranges: Vec::new() };
        assert(r@ =~= Seq::<Seq<u8>>::empty());
        r
    }

    /// Id of `name`, which is added when it is not there yet.
    pub fn intern(&mut self, name: &[u8]) -> (id: u32)
        requires
            old(self).wf(),
            old(self)@.len() < u32::MAX,
        ensures
            final(self).wf(),
            final(self)@ == interned(old(self)@, name@),
            id == intern_id(old(self)@, name@),
            final(self)@[id as int] == name@,
    {
        let h = hash_bytes(name);
        let head: u32 = match self.heads.get(&h) {
            Some(id) => *id,
            None => NO_ID,
        };
        let mut at: u32 = head;
        while at != NO_ID
            invariant
                self.wf(),
                *self == *old(self),
                h == hash_of(name@, name@.len() as int),
                at == NO_ID || at < self.next@.len(),
                forall|i: int|
                    0 <= i < self@.len() && #[trigger] self@[i] == name@ ==> at != NO_ID && chained(
                        self.next@,
                        at as int,
                        i,
                    ),
            decreases (if at == NO_ID { 0int } else { at + 1 }),
        {
            let (start, end) = self.ranges[at as usize];
            let stored = slice_subrange(self.buf.as_slice(), start, end);
            assert(stored@ == self@[at as int]);
            if same_bytes(stored, name) {
                proof {
                    assert(self@[at as int] == name@);
                    assert(self@.contains(name@));
                }
                return at;
            }
            at = self.next[at as usize];
        }
        proof {
            assert(!self@.contains(name@));
        }
        let ghost before = *self;
        let start: usize = self.buf.len();
        push_bytes(&mut self.buf, name);
        let end: usize = self.buf.len();
        let id: u32 = self.ranges.len() as u32;
        self.ranges.push((start, end));
        self.next.push(head);
        self.heads.insert(h, id);
        proof {
            assert(self.buf@.subrange(start as int, end as int) =~= name@);
            assert forall|i: int| 0 <= i < before@.len() implies #[trigger] self@[i] == before@[i] by {
                assert(before.ranges@[i] == self.ranges@[i]);
                assert(self.buf@.subrange(self.ranges@[i].0 as int, self.ranges@[i].1 as int)
                    =~= before.buf@.subrange(self.ranges@[i].0 as int, self.ranges@[i].1 as int));
            }
            assert(self@ =~= before@.push(name@));
            assert forall|i: int| 0 <= i < self.ranges@.len() implies self.heads@.contains_key(
                hash_of(#[trigger] self@[i], self@[i].len() as int),
            ) && chained(self.next@, self.heads@[hash_of(self@[i], self@[i].len() as int)] as int, i) by {
                if i < before@.len() {
                    let hi = hash_of(before@[i], before@[i].len() as int);
                    assert(before.heads@.contains_key(hi));
                    lemma_chained_push(before.next@, head, before.heads@[hi] as int, i);
                    if hi == h {
                        assert(self.next@[id as int] == head);
                    }
                }
            }
        }
        id
    }

    /// The bytes interned under `id`.
    pub fn get(&self, id: u32) -> (r: &[u8])
        requires
            self.wf(),
            id < self@.len(),
        ensures
            r@ == self@[id as int],
    {
        let (start, end) = self.ranges[id as usize];
        slice_subrange(self.buf.as_slice(), start, end)
    }

    /// Number of distinct names.
    pub fn len(&self) -> (n: usize)
        ensures
            n == self@.len(),
    {
        self.ranges.len()
    }

    /// No two ids name the same bytes.
    pub proof fn law_names_distinct(&self)
        requires
            self.wf(),
        ensures
            self@.no_duplicates(),
            self@.len() <= u32::MAX,
    {
    }
}

impl Default for NameInterner {
    fn default() -> (r: Self)
        ensures
            r.wf(),
            r@ == Seq::<Seq<u8>>::empty(),
    {
        NameInterner::new()
    }
}

/// Interning a name again gives the same id and changes nothing.
pub proof fn law_intern_idempotent(names: Seq<Seq<u8>>, name: Seq<u8>)
    ensures
        interned(interned(names, name), name) == interned(names, name),
        intern_id(interned(names, name), name) == intern_id(names, name),
        interned(names, name)[intern_id(names, name)] == name,
{
    if !names.contains(name) {
        let after = names.push(name);
        assert(after[names.len() as int] == name);
        assert(after.contains(name));
        let k = after.index_of(name);
        assert(0 <= k < after.len() && after[k] == name);
        if k < names.len() {
            assert(names[k] == name);
        }
    }
}

/// Interning keeps the ids of all the names that were there, and keeps
/// names distinct.
pub proof fn law_intern_preserves(names: Seq<Seq<u8>>, name: Seq<u8>, id: int)
    requires
        names.no_duplicates(),
        0 <= id < names.len(),
    ensures
        interned(names, name)[id] == names[id],
        intern_id(interned(names, name), names[id]) == id,
        interned(names, name).no_duplicates(),
{
    let after = interned(names, name);
    assert(after[id] == names[id]);
    assert(after.contains(names[id]));
    let k = after.index_of(names[id]);
    assert(0 <= k < after.len() && after[k] == names[id]);
}

/// The table after interning all of `list`, in order.
pub open spec fn interned_all(names: Seq<Seq<u8>>, list: Seq<Seq<u8>>) -> Seq<Seq<u8>>
    decreases list.len(),
{
    if list.len() == 0 {
        names
    } else {
        interned(interned_all(names, list.drop_last()), list.last())
    }
}

proof fn lemma_interned_all(names: Seq<Seq<u8>>, list: Seq<Seq<u8>>, id: int)
    requires
        names.no_duplicates(),
        0 <= id < names.len(),
    ensures
        interned_all(names, list).no_duplicates(),
        names.len() <= interned_all(names, list).len(),
        interned_all(names, list)[id] == names[id],
    decreases list.len(),
{
    if list.len() > 0 {
        lemma_interned_all(names, list.drop_last(), id);
        law_intern_preserves(interned_all(names, list.drop_last()), list.last(), id);
    }
}

/// However many names are interned in between, two names get the same id
/// exactly if they are equal, and each id keeps its name.
pub proof fn law_intern_ids(names: Seq<Seq<u8>>, a: Seq<u8>, list: Seq<Seq<u8>>, b: Seq<u8>)
    requires
        names.no_duplicates(),
    ensures
        ({
            let i = intern_id(names, a);
            let between = interned_all(interned(names, a), list);
            let j = intern_id(between, b);
            let last = interned(between, b);
            &&& i == j <==> a == b
            &&& 0 <= i < last.len() && last[i] == a
            &&& 0 <= j < last.len() && last[j] == b
        }),
{
    let i = intern_id(names, a);
    let first = interned(names, a);
    law_intern_idempotent(names, a);
    assert(first.no_duplicates()) by {
        if !names.contains(a) {
            assert forall|x: int, y: int| 0 <= x < y < first.len() implies first[x] != first[y] by {
                if y == names.len() {
                    assert(names[x] == first[x]);
                }
            }
        }
    }
    assert(0 <= i < first.len()) by {
        if names.contains(a) {
            assert(names[names.index_of(a)] == a);
        }
    }
    lemma_interned_all(first, list, i);
    let between = interned_all(first, list);
    law_intern_preserves(between, b, i);
    law_intern_idempotent(between, b);
    let j = intern_id(between, b);
    assert(0 <= j < interned(between, b).len()) by {
        if between.contains(b) {
            assert(between[between.index_of(b)] == b);
        }
    }
    if a == b {
        assert(between[i] == b);
        assert(between.contains(b));
        assert(between[between.index_of(b)] == b);
    }
}

} // verus!
