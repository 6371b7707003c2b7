//! The environment: the variables of a program and their values.

use vstd::prelude::*;

verus! {

/// Whether two byte strings are the same.
pub fn same_bytes(a: &[u8], b: &[u8]) -> (same: bool)
    ensures
        same == (a@ == b@),
{
    if a.len() != b.len() {
        return false;
    }
    let mut i: usize = 0;
    while i < a.len()
        invariant
            a@.len() == b@.len(),
            i <= a@.len(),
            forall|k: int| 0 <= k < i ==> a@[k] == b@[k],
        decreases a@.len() - i,
    {
        if a[i] != b[i] {
            return false;
        }
        i = i + 1;
    }
    assert(a@ =~= b@);
    true
}

/// A mapping from names to values. Names are kept in the order in which they
/// were first bound; the order has no meaning.
pub struct Env<'a> {
    names: Vec<&'a [u8]>,
    values: Vec<i128>,
    bound: Ghost<Map<Seq<u8>, i128>>,
}

impl<'a> View for Env<'a> {
    type V = Map<Seq<u8>, i128>;

    /// The mapping that the environment stands for.
    closed spec fn view(&self) -> Map<Seq<u8>, i128> {
        self.bound@
    }
}

impl<'a> Env<'a> {
    /// The environment's invariant: every name is listed once, with the
    /// value that the mapping gives it, and no other name is bound.
    pub closed spec fn wf(&self) -> bool {
        &&& self.names@.len() == self.values@.len()
        &&& forall|i: int|
            0 <= i < self.names@.len() ==> self.bound@.contains_key(#[trigger] self.names@[i]@)
                && self.bound@[self.names@[i]@] == self.values@[i]
        &&& forall|k: Seq<u8>|
            self.bound@.contains_key(k) ==> exists|i: int|
                0 <= i < self.names@.len() && #[trigger] self.names@[i]@ == k
        &&& forall|i: int, j: int|
            0 <= i < j < self.names@.len() ==> #[trigger] self.names@[i]@ != #[trigger] self.names@[j]@
    }

    /// The environment that binds nothing.
    pub fn new() -> (env: Self)
        ensures
            env.wf(),
            env@ == Map::<Seq<u8>, i128>::empty(),
    {
        Env { names: Vec::new(), values: Vec::new(), bound: Ghost(Map::empty()) }
    }

    /// The place of `name` in the list, if it is bound.
    fn find(&self, name: &[u8]) -> (r: Option<usize>)
        requires
            self.wf(),
        ensures
            match r {
                Some(i) => i < self.names@.len() && self.names@[i as int]@ == name@,
                None => !self@.contains_key(name@),
            },
    {
        let mut i: usize = 0;
        while i < self.names.len()
            invariant
                self.wf(),
                i <= self.names@.len(),
                forall|k: int| 0 <= k < i ==> self.names@[k]@ != name@,
            decreases self.names@.len() - i,
        {
            if same_bytes(self.names[i], name) {
                return Some(i);
            }
            i = i + 1;
        }
        None
    }

    /// The value of `name`, if it is bound.
    pub fn get(&self, name: &[u8]) -> (r: Option<i128>)
        requires
            self.wf(),
        ensures
            r == if self@.contains_key(name@) {
                Some(self@[name@])
            } else {
                None
            },
    {
        match self.find(name) {
            Some(i) => Some(self.values[i]),
            None => None,
        }
    }

    /// Binds `name` to `value`, in place of what it was bound to before.
    pub fn insert(&mut self, name: &'a [u8], value: i128)
        requires
            old(self).wf(),
        ensures
            final(self).wf(),
            final(self)@ == old(self)@.insert(name@, value),
    {
        match self.find(name) {
            Some(i) => {
                self.values.set(i, value);
                proof {
                    self.bound@ = self.bound@.insert(name@, value);
                }
            },
            None => {
                self.names.push(name);
                self.values.push(value);
                proof {
                    self.bound@ = self.bound@.insert(name@, value);
                }
                assert forall|k: Seq<u8>| self.bound@.contains_key(k) implies exists|i: int|
                    0 <= i < self.names@.len() && #[trigger] self.names@[i]@ == k by {
                    if k == name@ {
                        assert(self.names@[self.names@.len() - 1]@ == k);
                    } else {
                        let i = choose|i: int|
                            0 <= i < old(self).names@.len() && #[trigger] old(self).names@[i]@ == k;
                        assert(self.names@[i]@ == k);
                    }
                }
            },
        }
    }

    /// How many names are bound.
    pub fn len(&self) -> (n: usize)
        requires
            self.wf(),
        ensures
            n == self@.dom().len(),
    {
        proof {
            self.lemma_len();
        }
        self.names.len()
    }

    /// The `i`-th binding, in the order in which the names were first bound.
    pub fn entry(&self, i: usize) -> (r: (&'a [u8], i128))
        requires
            self.wf(),
            i < self@.dom().len(),
        ensures
            self@.contains_key(r.0@),
            self@[r.0@] == r.1,
    {
        proof {
            self.lemma_len();
        }
        (self.names[i], self.values[i])
    }

    /// The list holds as many names as the mapping binds.
    proof fn lemma_len(&self)
        requires
            self.wf(),
        ensures
            self.names@.len() == self@.dom().len(),
            self@.dom().finite(),
    {
        Self::lemma_count(self.names@, self.bound@);
    }

    /// A mapping whose keys are exactly the names of a list without repeats
    /// binds as many keys as the list is long.
    proof fn lemma_count(names: Seq<&'a [u8]>, bound: Map<Seq<u8>, i128>)
        requires
            forall|i: int| 0 <= i < names.len() ==> bound.contains_key(#[trigger] names[i]@),
            forall|k: Seq<u8>|
                bound.contains_key(k) ==> exists|i: int|
                    0 <= i < names.len() && #[trigger] names[i]@ == k,
            forall|i: int, j: int|
                0 <= i < j < names.len() ==> #[trigger] names[i]@ != #[trigger] names[j]@,
        ensures
            bound.dom().finite(),
            bound.dom().len() == names.len(),
        decreases names.len(),
    {
        if names.len() == 0 {
            assert(bound.dom() =~= Set::<Seq<u8>>::empty());
        } else {
            let last = names.last()@;
            let fewer = names.drop_last();
            let smaller = bound.remove(last);
            assert forall|k: Seq<u8>| smaller.contains_key(k) implies exists|i: int|
                0 <= i < fewer.len() && #[trigger] fewer[i]@ == k by {
                let i = choose|i: int| 0 <= i < names.len() && #[trigger] names[i]@ == k;
                assert(fewer[i]@ == k);
            }
            assert forall|i: int| 0 <= i < fewer.len() implies smaller.contains_key(
                #[trigger] fewer[i]@,
            ) by {
                assert(names[i]@ != names[names.len() - 1]@);
            }
            Self::lemma_count(fewer, smaller);
            assert(bound.dom() =~= smaller.dom().insert(last));
        }
    }
}

} // verus!
