//! The in-memory key-value store.
use vstd::prelude::*;

verus! {

/// A mapping from keys to values, both byte strings. Each key appears at most
/// once among the entries.
pub struct Store {
    entries: Vec<(Vec<u8>, Vec<u8>)>,
    model: Ghost<Map<Seq<u8>, Seq<u8>>>,
}

fn bytes_eq(a: &Vec<u8>, b: &[u8]) -> (r: bool)
    ensures
        r == (a@ == b@),
{
    if a.len() != b.len() {
        return false;
    }
    let mut i: usize = 0;
    while i < a.len()
        invariant
            i <= a.len() == b.len(),
            a@.subrange(0, i as int) == b@.subrange(0, i as int),
        decreases a.len() - i,
    {
        if a[i] != b[i] {
            return false;
        }
        i += 1;
        assert(a@.subrange(0, i as int) =~= b@.subrange(0, i as int));
    }
    assert(a@.subrange(0, a.len() as int) =~= a@);
    assert(b@.subrange(0, b.len() as int) =~= b@);
    true
}

impl View for Store {
    type V = Map<Seq<u8>, Seq<u8>>;

    closed spec fn view(&self) -> Map<Seq<u8>, Seq<u8>> {
        self.model@
    }
}

/// The index of the entry whose key is `key`, if any.
fn find(entries: &Vec<(Vec<u8>, Vec<u8>)>, key: &[u8]) -> (r: Option<usize>)
    ensures
        match r {
            Some(i) => i < entries.len() && entries[i as int].0@ == key@,
            None => forall|j: int| 0 <= j < entries.len() ==> (#[trigger] entries[j]).0@ != key@,
        },
{
    let mut i: usize = 0;
    while i < entries.len()
        invariant
            i <= entries.len(),
            forall|j: int| 0 <= j < i ==> (#[trigger] entries[j]).0@ != key@,
        decreases entries.len() - i,
    {
        if bytes_eq(&entries[i].0, key) {
            return Some(i);
        }
        i += 1;
    }
    None
}

/// The entries hold exactly the pairs of `model`, each key once.
spec fn well_formed(entries: Vec<(Vec<u8>, Vec<u8>)>, model: Map<Seq<u8>, Seq<u8>>) -> bool {
    &&& forall|i: int, j: int|
        0 <= i < j < entries.len() ==> (#[trigger] entries[i]).0@ != (#[trigger] entries[j]).0@
    &&& forall|i: int|
        0 <= i < entries.len() ==> model.contains_key((#[trigger] entries[i]).0@) && model[entries[i].0@]
            == entries[i].1@
    &&& forall|k: Seq<u8>|
        #[trigger] model.contains_key(k) ==> exists|i: int|
            0 <= i < entries.len() && (#[trigger] entries[i]).0@ == k
}

impl Store {
    #[verifier::type_invariant]
    spec fn wf(self) -> bool {
        well_formed(self.entries, self.model@)
    }

    /// An empty store.
    pub fn new() -> (r: Store)
        ensures
            r@ == Map::<Seq<u8>, Seq<u8>>::empty(),
    {
        Store { entries: Vec::new(), model: Ghost(Map::empty()) }
    }

    /// The value stored under `key`, if any.
    pub fn get(&self, key: &[u8]) -> (r: Option<Vec<u8>>)
        ensures
            match r {
                Some(v) => self@.contains_key(key@) && v@ == self@[key@],
                None => !self@.contains_key(key@),
            },
    {
        proof {
            use_type_invariant(self);
        }
        match find(&self.entries, key) {
            Some(i) => {
                let v = &self.entries[i].1;
                let mut out: Vec<u8> = Vec::new();
                let mut j: usize = 0;
                while j < v.len()
                    invariant
                        j <= v.len(),
                        out@ == v@.subrange(0, j as int),
                    decreases v.len() - j,
                {
                    out.push(v[j]);
                    j += 1;
                    assert(out@ =~= v@.subrange(0, j as int));
                }
                assert(v@.subrange(0, v.len() as int) == v@);
                Some(out)
            },
            None => None,
        }
    }

    /// Stores `value` under `key`, replacing any earlier value.
    pub fn set(&mut self, key: Vec<u8>, value: Vec<u8>)
        ensures
            final(self)@ == old(self)@.insert(key@, value@),
    {
        let mut st = Store::new();
        std::mem::swap(&mut st, self);
        proof {
            use_type_invariant(&st);
        }
        let ghost k = key@;
        let ghost v = value@;
        let ghost m = st.model@.insert(k, v);
        let Store { mut entries, .. } = st;
        let ghost old_entries = entries@;
        match find(&entries, key.as_slice()) {
            Some(i) => {
                entries.set(i, (key, value));
                assert forall|q: Seq<u8>| #[trigger] m.contains_key(q) implies exists|j: int|
                    0 <= j < entries.len() && (#[trigger] entries[j]).0@ == q by {
                    if q != k {
                        let j = choose|j: int| 0 <= j < old_entries.len() && (#[trigger] old_entries[j]).0@ == q;
                        assert(entries[j] == old_entries[j]);
                    } else {
                        assert(entries[i as int].0@ == q);
                    }
                }
            },
            None => {
                entries.push((key, value));
                let ghost n = entries.len() - 1;
                assert forall|q: Seq<u8>| #[trigger] m.contains_key(q) implies exists|j: int|
                    0 <= j < entries.len() && (#[trigger] entries[j]).0@ == q by {
                    if q != k {
                        let j = choose|j: int| 0 <= j < old_entries.len() && (#[trigger] old_entries[j]).0@ == q;
                        assert(entries[j] == old_entries[j]);
                    } else {
                        assert(entries[n].0@ == q);
                    }
                }
            },
        }
        assert(well_formed(entries, m));
        let model: Ghost<Map<Seq<u8>, Seq<u8>>> = Ghost(m);
        *self = Store { entries, model };
        assert(self@ =~= old(self)@.insert(k, v));
    }
}

} // verus!
