//! Small lookup tables whose first entry for a key stands.

use vstd::prelude::*;

verus! {

/// Whether two byte strings are equal.
pub fn same_bytes(a: &Vec<u8>, b: &Vec<u8>) -> (r: bool)
    ensures
        r == (a@ == b@),
{
    if a.len() != b.len() {
        return false;
    }
    let mut i: usize = 0;
    while i < a.len()
        invariant
            i <= a@.len(),
            a@.len() == b@.len(),
            forall|j: int| 0 <= j < i ==> a@[j] == b@[j],
        decreases a@.len() - i,
    {
        if a[i] != b[i] {
            return false;
        }
        i += 1;
    }
    assert(a@ =~= b@);
    true
}

/// A copy of a byte string.
pub fn copy_bytes(a: &Vec<u8>) -> (r: Vec<u8>)
    ensures
        r@ == a@,
{
    let mut out: Vec<u8> = Vec::new();
    let mut i: usize = 0;
    while i < a.len()
        invariant
            i <= a@.len(),
            out@ == a@.take(i as int),
        decreases a@.len() - i,
    {
        out.push(a[i]);
        i += 1;
    }
    assert(a@.take(a@.len() as int) =~= a@);
    out
}

/// The map that a list of keys and values gives when the first value for a key
/// stands.
pub open spec fn first_map<V>(list: Seq<(Seq<u8>, V)>) -> Map<Seq<u8>, V>
    decreases list.len(),
{
    if list.len() == 0 {
        Map::empty()
    } else {
        let before = first_map(list.drop_last());
        if before.contains_key(list.last().0) {
            before
        } else {
            before.insert(list.last().0, list.last().1)
        }
    }
}

/// A table keyed by byte strings.
pub struct ByteTable<V> {
    keys: Vec<Vec<u8>>,
    values: Vec<V>,
}

impl<V: Copy> ByteTable<V> {
    /// The list of keys and values, in the order of insertion.
    pub closed spec fn list(self) -> Seq<(Seq<u8>, V)> {
        Seq::new(self.keys@.len(), |i: int| (self.keys@[i]@, self.values@[i]))
    }

    pub closed spec fn wf(self) -> bool {
        self.keys@.len() == self.values@.len()
    }

    /// What the table holds.
    pub open spec fn map(self) -> Map<Seq<u8>, V> {
        first_map(self.list())
    }

    pub fn new() -> (r: ByteTable<V>)
        ensures
            r.wf(),
            r.map() == Map::<Seq<u8>, V>::empty(),
    {
        let r = ByteTable { keys: Vec::new(), values: Vec::new() };
        assert(r.list() =~= Seq::empty());
        r
    }

    pub fn get(&self, key: &Vec<u8>) -> (r: Option<V>)
        requires
            self.wf(),
        ensures
            match r {
                Some(v) => self.map().contains_key(key@) && self.map()[key@] == v,
                None => !self.map().contains_key(key@),
            },
    {
        let mut i: usize = 0;
        while i < self.keys.len()
            invariant
                self.wf(),
                i <= self.keys@.len(),
                !first_map(self.list().take(i as int)).contains_key(key@),
            decreases self.keys@.len() - i,
        {
            proof {
                assert(self.list().take(i + 1).drop_last() =~= self.list().take(i as int));
                assert(self.list().take(i + 1).last() == (self.keys@[i as int]@, self.values@[i as int]));
            }
            if same_bytes(&self.keys[i], key) {
                proof {
                    lemma_first_map_grows(self.list(), i + 1, key@);
                }
                return Some(self.values[i]);
            }
            i += 1;
        }
        assert(self.list().take(self.list().len() as int) =~= self.list());
        None
    }

    /// Adds the value unless the key has one already.
    pub fn insert_first(&mut self, key: Vec<u8>, value: V)
        requires
            old(self).wf(),
        ensures
            final(self).wf(),
            final(self).map() == if old(self).map().contains_key(key@) {
                old(self).map()
            } else {
                old(self).map().insert(key@, value)
            },
    {
        let ghost before = self.list();
        let ghost name = key@;
        self.keys.push(key);
        self.values.push(value);
        assert(self.list() =~= before.push((name, value)));
        assert(self.list().drop_last() =~= before);
    }
}

proof fn lemma_first_map_grows<V>(list: Seq<(Seq<u8>, V)>, n: int, key: Seq<u8>)
    requires
        0 <= n <= list.len(),
        first_map(list.take(n)).contains_key(key),
    ensures
        first_map(list).contains_key(key),
        first_map(list)[key] == first_map(list.take(n))[key],
    decreases list.len() - n,
{
    if n < list.len() {
        assert(list.take(n + 1).drop_last() =~= list.take(n));
        lemma_first_map_grows(list, n + 1, key);
    } else {
        assert(list.take(n) =~= list);
    }
}

} // verus!
