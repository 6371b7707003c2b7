//! The simulated heap: a row of cells, each empty or holding one value, and a
//! table of the allocations that are live.

use std::collections::HashMap;
use vstd::prelude::*;
use vstd::std_specs::hash::*;

use crate::error::EvalError;

verus! {

broadcast use vstd::std_specs::hash::group_hash_axioms;

/// The heap. Cell 0 is reserved: it is always empty and never handed out.
/// `malloced` maps the first cell of each live allocation to its length.
#[derive(Debug)]
pub struct Mem<T: Clone + Copy> {
    pub mem: Vec<Option<T>>,
    pub malloced: HashMap<usize, usize>,
}

/// The `len` cells from `start` on lie inside `cells`, past the reserved cell,
/// and are all empty.
pub open spec fn free_run<T>(cells: Seq<Option<T>>, start: int, len: int) -> bool {
    &&& 1 <= start
    &&& start + len <= cells.len()
    &&& forall|i: int| start <= i < start + len ==> (#[trigger] cells[i]) is None
}

/// Where first-fit places an allocation of `len` cells: at the lowest start of a
/// free run of that length, or, if there is none, at the end of `cells`.
pub open spec fn first_fit<T>(cells: Seq<Option<T>>, len: int, start: int) -> bool {
    if exists|s: int| free_run(cells, s, len) {
        &&& free_run(cells, start, len)
        &&& forall|s: int| 1 <= s < start ==> !free_run(cells, s, len)
    } else {
        start == cells.len()
    }
}

/// First-fit places an allocation in one place only.
pub proof fn lemma_first_fit_unique<T>(cells: Seq<Option<T>>, len: int, a: int, b: int)
    requires
        first_fit(cells, len, a),
        first_fit(cells, len, b),
    ensures
        a == b,
{
}

/// `cells` with the `len` cells from `start` on set to `v`, and grown to
/// `start + len` cells if it was shorter.
pub open spec fn with_run<T>(cells: Seq<Option<T>>, start: int, len: int, v: Option<T>) -> Seq<
    Option<T>,
> {
    Seq::new(
        if cells.len() >= start + len { cells.len() } else { (start + len) as nat },
        |i: int| if start <= i < start + len { v } else { cells[i] },
    )
}

/// Cell `c` belongs to the `j`-th of `entries`, each of which is the first
/// cell of an allocation and its length.
pub open spec fn in_entry(entries: Seq<(usize, usize)>, j: int, c: int) -> bool {
    0 <= j < entries.len() && entries[j].0 <= c < entries[j].0 + entries[j].1
}

/// `cells` and `entries` describe a heap: the reserved cell is there and
/// empty; every entry is non-empty and lies inside the heap past the reserved
/// cell; a cell holds a value exactly if an entry holds the cell; and no cell
/// belongs to two entries.
pub open spec fn describes_heap<T>(cells: Seq<Option<T>>, entries: Seq<(usize, usize)>) -> bool {
    &&& cells.len() >= 1
    &&& cells[0] is None
    &&& forall|j: int|
        0 <= j < entries.len() ==> 1 <= (#[trigger] entries[j]).0 && 1 <= entries[j].1
            && entries[j].0 + entries[j].1 <= cells.len()
    &&& forall|j: int, c: int| #[trigger] in_entry(entries, j, c) ==> cells[c] is Some
    &&& forall|c: int|
        0 <= c < cells.len() && (#[trigger] cells[c]) is Some ==> exists|j: int|
            in_entry(entries, j, c)
    &&& forall|j: int, k: int, c: int|
        #[trigger] in_entry(entries, j, c) && #[trigger] in_entry(entries, k, c) ==> j == k
}

/// Sets the `len` cells of `cells` from `start` on to `v`, adding the cells
/// that `cells` lacks.
fn fill_run<T: Copy>(cells: &mut Vec<Option<T>>, start: usize, len: usize, v: Option<T>)
    requires
        start <= old(cells)@.len(),
        start + len <= usize::MAX,
    ensures
        final(cells)@ == with_run(old(cells)@, start as int, len as int, v),
{
    let ghost before = cells@;
    let end: usize = start + len;
    let mut k: usize = start;
    assert(cells@ =~= with_run(before, start as int, 0, v));
    while k < end
        invariant
            start <= k <= end,
            end == start + len,
            start <= before.len(),
            cells@ == with_run(before, start as int, k - start, v),
        decreases end - k,
    {
        if k < cells.len() {
            cells.set(k, v);
        } else {
            cells.push(v);
        }
        k = k + 1;
        assert(cells@ =~= with_run(before, start as int, k - start, v));
    }
}

impl<T: Clone + Copy> Mem<T> {
    /// The cells, by index.
    pub open spec fn cells(&self) -> Seq<Option<T>> {
        self.mem@
    }

    /// The allocation table: first cell to length.
    pub open spec fn table(&self) -> Map<usize, usize> {
        self.malloced@
    }

    /// The allocation that starts at `start` is live and holds cell `i`.
    pub open spec fn covers(&self, start: usize, i: int) -> bool {
        self.table().contains_key(start) && start <= i < start + self.table()[start]
    }

    /// The heap's invariant: the reserved cell is there and empty; every
    /// allocation is non-empty and lies inside the heap past the reserved cell;
    /// a cell holds a value exactly if an allocation holds the cell; and no
    /// cell belongs to two allocations.
    pub open spec fn wf(&self) -> bool {
        &&& self.cells().len() >= 1
        &&& self.cells()[0] is None
        &&& forall|s: usize| #[trigger]
            self.table().contains_key(s) ==> 1 <= s && 1 <= self.table()[s] && s + self.table()[s]
                <= self.cells().len()
        &&& forall|s: usize, i: int| #[trigger] self.covers(s, i) ==> self.cells()[i] is Some
        &&& forall|i: int|
            0 <= i < self.cells().len() && (#[trigger] self.cells()[i]) is Some ==> exists|
                s: usize,
            |
                self.covers(s, i)
        &&& forall|s1: usize, s2: usize, i: int|
            #[trigger] self.covers(s1, i) && #[trigger] self.covers(s2, i) ==> s1 == s2
    }

    /// A heap with the reserved cell and nothing allocated.
    pub fn new() -> (m: Self)
        ensures
            m.wf(),
            m.cells() == seq![None::<T>],
            m.table() == Map::<usize, usize>::empty(),
    {
        let mut mem: Vec<Option<T>> = Vec::new();
        mem.push(None);
        let m = Mem { mem, malloced: HashMap::new() };
        assert(m.cells() =~= seq![None::<T>]);
        m
    }

    /// Allocates `size` cells, each holding `init`, and returns the index of
    /// the first. The cells are the first `size` cells of the lowest free run
    /// that is long enough; if there is no such run, they are added at the end.
    /// Fails, changing nothing, if `size` is 0, or if the cells would have to
    /// be added at the end and the heap would outgrow `usize`.
    pub fn malloc(&mut self, size: usize, init: T) -> (r: Result<usize, EvalError>)
        requires
            old(self).wf(),
        ensures
            final(self).wf(),
            r is Err <==> size == 0 || (old(self).cells().len() + size > usize::MAX && !exists|
                s: int,
            |
                free_run(old(self).cells(), s, size as int)),
            match r {
                Ok(start) => {
                    &&& first_fit(old(self).cells(), size as int, start as int)
                    &&& final(self).cells() == with_run(
                        old(self).cells(),
                        start as int,
                        size as int,
                        Some(init),
                    )
                    &&& final(self).table() == old(self).table().insert(start, size)
                },
                Err(e) => {
                    &&& e == EvalError::InvalidArgument
                    &&& final(self).cells() == old(self).cells()
                    &&& final(self).table() == old(self).table()
                },
            },
    {
        if size == 0 {
            return Err(EvalError::InvalidArgument);
        }
        let ghost cells = self.mem@;
        let n: usize = self.mem.len();
        let mut start: usize = 1;
        let mut i: usize = 1;
        let mut found = false;
        while i < n && !found
            invariant
                n == cells.len(),
                self.mem@ == cells,
                size > 0,
                1 <= start <= i <= n,
                found ==> free_run(cells, start as int, size as int),
                !found ==> i - start < size,
                forall|k: int| start <= k < i ==> (#[trigger] cells[k]) is None,
                forall|s: int| 1 <= s < start ==> !free_run(cells, s, size as int),
            decreases n - i + (if found { 0int } else { 1int }),
        {
            match self.mem[i] {
                None => {
                    if i - start + 1 == size {
                        found = true;
                    }
                    i = i + 1;
                },
                Some(_) => {
                    assert forall|s: int| start <= s < i + 1 implies !free_run(
                        cells,
                        s,
                        size as int,
                    ) by {
                        assert(cells[i as int] is Some);
                    }
                    i = i + 1;
                    start = i;
                },
            }
        }
        if !found {
            assert forall|s: int| !free_run(cells, s, size as int) by {
                if 1 <= s && s + size <= n {
                    assert(s < start);
                }
            }
            start = n;
            if size > usize::MAX - n {
                return Err(EvalError::InvalidArgument);
            }
        }
        assert(first_fit(cells, size as int, start as int));
        proof {
            // No live allocation holds a cell of the run: those cells are
            // empty or new.
            assert forall|s: usize, k: int|
                start <= k < start + size implies !#[trigger] self.covers(s, k) by {
                if self.covers(s, k) {
                    assert(cells[k] is Some);
                }
            }
            assert(!self.covers(start, start as int));
        }
        self.malloced.insert(start, size);
        fill_run(&mut self.mem, start, size, Some(init));
        proof {
            let old_self = *old(self);
            assert forall|s: usize, k: int| #[trigger] self.covers(s, k) implies self.cells()[k] is Some by {
                if s != start {
                    assert(old_self.covers(s, k));
                }
            }
            assert forall|k: int|
                0 <= k < self.cells().len() && (#[trigger] self.cells()[k]) is Some implies exists|
                s: usize,
            |
                self.covers(s, k) by {
                if start <= k < start + size {
                    assert(self.covers(start, k));
                } else {
                    assert(cells[k] is Some);
                    let s0 = choose|s0: usize| old_self.covers(s0, k);
                    assert(self.covers(s0, k));
                }
            }
            assert forall|s1: usize, s2: usize, k: int|
                #[trigger] self.covers(s1, k) && #[trigger] self.covers(s2, k) implies s1 == s2 by {
                if s1 != start {
                    assert(old_self.covers(s1, k));
                }
                if s2 != start {
                    assert(old_self.covers(s2, k));
                }
            }
        }
        Ok(start)
    }

    /// Releases the allocation that starts at `start`: empties its cells and
    /// drops it from the table. Where no allocation starts at `start`, nothing
    /// changes and the result is `false`.
    pub fn free(&mut self, start: usize) -> (released: bool)
        requires
            old(self).wf(),
        ensures
            final(self).wf(),
            released == old(self).table().contains_key(start),
            released ==> final(self).cells() == with_run(
                old(self).cells(),
                start as int,
                old(self).table()[start] as int,
                None,
            ) && final(self).table() == old(self).table().remove(start),
            !released ==> final(self).cells() == old(self).cells() && final(self).table() == old(
                self,
            ).table(),
    {
        let size: usize = match self.malloced.get(&start) {
            Some(size) => *size,
            None => {
                return false;
            },
        };
        let ghost old_self = *old(self);
        assert(old_self.table().contains_key(start));
        assert(size == old_self.table()[start]);
        assert(start + size <= self.mem.len());
        self.malloced.remove(&start);
        assert(self.table() == old_self.table().remove(start));
        fill_run(&mut self.mem, start, size, None);
        proof {
            assert forall|s: usize, k: int| #[trigger] self.covers(s, k) implies self.cells()[k] is Some by {
                assert(old_self.covers(s, k));
                if start <= k < start + size {
                    assert(old_self.covers(start, k));
                }
            }
            assert forall|k: int|
                0 <= k < self.cells().len() && (#[trigger] self.cells()[k]) is Some implies exists|
                s: usize,
            |
                self.covers(s, k) by {
                assert(old_self.cells()[k] is Some);
                let s0 = choose|s0: usize| old_self.covers(s0, k);
                assert(self.covers(s0, k));
            }
            assert forall|s1: usize, s2: usize, k: int|
                #[trigger] self.covers(s1, k) && #[trigger] self.covers(s2, k) implies s1 == s2 by {
                assert(old_self.covers(s1, k));
                assert(old_self.covers(s2, k));
            }
        }
        true
    }

    /// The value in cell `offset`. Fails if the cell is empty or `offset` lies
    /// outside the heap.
    pub fn read(&self, offset: usize) -> (r: Result<T, EvalError>)
        ensures
            r == if offset < self.cells().len() && self.cells()[offset as int] is Some {
                Ok::<T, EvalError>(self.cells()[offset as int]->0)
            } else {
                Err(EvalError::InvalidMemoryAccess)
            },
    {
        if offset < self.mem.len() {
            match self.mem[offset] {
                Some(v) => Ok(v),
                None => Err(EvalError::InvalidMemoryAccess),
            }
        } else {
            Err(EvalError::InvalidMemoryAccess)
        }
    }

    /// Puts `value` into cell `offset`. Fails, changing nothing, if the cell
    /// is empty or `offset` lies outside the heap: only cells of a live
    /// allocation can be written.
    pub fn write(&mut self, offset: usize, value: T) -> (r: Result<(), EvalError>)
        requires
            old(self).wf(),
        ensures
            final(self).wf(),
            final(self).table() == old(self).table(),
            r == if offset < old(self).cells().len() && old(self).cells()[offset as int] is Some {
                Ok::<(), EvalError>(())
            } else {
                Err(EvalError::InvalidMemoryAccess)
            },
            final(self).cells() == if r is Ok {
                old(self).cells().update(offset as int, Some(value))
            } else {
                old(self).cells()
            },
    {
        if offset < self.mem.len() {
            match self.mem[offset] {
                Some(_) => {
                    let ghost old_self = *old(self);
                    self.mem.set(offset, Some(value));
                    proof {
                        assert forall|s: usize, k: int| #[trigger]
                            self.covers(s, k) implies self.cells()[k] is Some by {
                            assert(old_self.covers(s, k));
                        }
                        assert forall|k: int|
                            0 <= k < self.cells().len() && (#[trigger] self.cells()[k])
                                is Some implies exists|s: usize| self.covers(s, k) by {
                            assert(old_self.cells()[k] is Some);
                            let s0 = choose|s0: usize| old_self.covers(s0, k);
                            assert(self.covers(s0, k));
                        }
                        assert forall|s1: usize, s2: usize, k: int|
                            #[trigger] self.covers(s1, k) && #[trigger] self.covers(
                                s2,
                                k,
                            ) implies s1 == s2 by {
                            assert(old_self.covers(s1, k));
                            assert(old_self.covers(s2, k));
                        }
                    }
                    Ok(())
                },
                None => Err(EvalError::InvalidMemoryAccess),
            }
        } else {
            Err(EvalError::InvalidMemoryAccess)
        }
    }

    /// Makes a heap of cells and a list of allocations, each given by its
    /// first cell and its length. `None` where the two do not describe a
    /// heap.
    pub fn from_parts(mem: Vec<Option<T>>, entries: Vec<(usize, usize)>) -> (r: Option<Self>)
        ensures
            r is Some <==> describes_heap(mem@, entries@),
            r matches Some(m) ==> {
                &&& m.wf()
                &&& m.cells() == mem@
                &&& forall|s: usize|
                    m.table().contains_key(s) <==> exists|j: int|
                        0 <= j < entries@.len() && (#[trigger] entries@[j]).0 == s
                &&& forall|j: int|
                    0 <= j < entries@.len() ==> m.table()[(#[trigger] entries@[j]).0]
                        == entries@[j].1
            },
    {
        let n: usize = mem.len();
        if n == 0 {
            return None;
        }
        if mem[0].is_some() {
            return None;
        }
        let ghost cells = mem@;
        let ghost all = entries@;
        let mut claimed: Vec<bool> = Vec::new();
        let mut c: usize = 0;
        while c < n
            invariant
                c <= n,
                claimed@.len() == c,
                forall|k: int| 0 <= k < c ==> !claimed@[k],
            decreases n - c,
        {
            claimed.push(false);
            c = c + 1;
        }
        let mut malloced: HashMap<usize, usize> = HashMap::new();
        let mut i: usize = 0;
        while i < entries.len()
            invariant
                n == cells.len(),
                cells == mem@,
                all == entries@,
                n >= 1,
                cells[0] is None,
                i <= all.len(),
                claimed@.len() == n,
                forall|k: int|
                    0 <= k < n ==> (#[trigger] claimed@[k] <==> exists|j: int|
                        j < i && in_entry(all, j, k)),
                forall|j: int|
                    0 <= j < i ==> 1 <= (#[trigger] all[j]).0 && 1 <= all[j].1 && all[j].0
                        + all[j].1 <= n,
                forall|j: int, k: int| j < i && #[trigger] in_entry(all, j, k) ==> cells[k] is Some,
                forall|j: int, k: int, x: int|
                    j < i && k < i && #[trigger] in_entry(all, j, x) && #[trigger] in_entry(
                        all,
                        k,
                        x,
                    ) ==> j == k,
                forall|s: usize|
                    malloced@.contains_key(s) <==> exists|j: int|
                        0 <= j < i && (#[trigger] all[j]).0 == s,
                forall|j: int| 0 <= j < i ==> malloced@[(#[trigger] all[j]).0] == all[j].1,
            decreases all.len() - i,
        {
            let (start, size) = entries[i];
            if start == 0 || size == 0 || start >= n || size > n - start {
                assert(!describes_heap(cells, all)) by {
                    assert(all[i as int] == (start, size));
                }
                return None;
            }
            let ghost before = claimed@;
            let mut k: usize = start;
            while k < start + size
                invariant
                    n == cells.len(),
                    cells == mem@,
                    all == entries@,
                    i < all.len(),
                    all[i as int] == (start, size),
                    claimed@.len() == n,
                    before.len() == n,
                    1 <= start <= k <= start + size <= n,
                    forall|x: int| start <= x < k ==> (#[trigger] cells[x]) is Some && !before[x],
                    forall|x: int|
                        0 <= x < n ==> #[trigger] claimed@[x] == (before[x] || start <= x < k),
                    forall|x: int|
                        0 <= x < n ==> (#[trigger] before[x] <==> exists|j: int|
                            j < i && in_entry(all, j, x)),
                decreases start + size - k,
            {
                if mem[k].is_none() || claimed[k] {
                    assert(!describes_heap(cells, all)) by {
                        assert(in_entry(all, i as int, k as int));
                        if claimed@[k as int] {
                            let j = choose|j: int| j < i && in_entry(all, j, k as int);
                            assert(in_entry(all, j, k as int));
                        }
                    }
                    return None;
                }
                claimed.set(k, true);
                k = k + 1;
            }
            proof {
                assert forall|x: int| 0 <= x < n implies (#[trigger] claimed@[x] <==> exists|j: int|
                    j < i + 1 && in_entry(all, j, x)) by {
                    if claimed@[x] {
                        if before[x] {
                            let j = choose|j: int| j < i && in_entry(all, j, x);
                            assert(j < i + 1 && in_entry(all, j, x));
                        } else {
                            assert(in_entry(all, i as int, x));
                        }
                    } else {
                        assert forall|j: int| j < i + 1 implies !in_entry(all, j, x) by {
                            if j < i {
                                assert(!(j < i && in_entry(all, j, x)));
                            }
                        }
                    }
                }
                assert forall|j: int, k: int, x: int|
                    j < i + 1 && k < i + 1 && #[trigger] in_entry(all, j, x) && #[trigger] in_entry(
                        all,
                        k,
                        x,
                    ) implies j == k by {
                    if j == i && k < i {
                        assert(before[x]);
                    }
                    if k == i && j < i {
                        assert(before[x]);
                    }
                }
                assert forall|j: int, x: int| j < i + 1 && #[trigger] in_entry(all, j, x) implies cells[x]
                    is Some by {
                    if j == i {
                        assert(cells[x] is Some);
                    }
                }
                assert forall|j: int| 0 <= j < i implies (#[trigger] all[j]).0 != start by {
                    assert(in_entry(all, j, all[j].0 as int));
                    assert(in_entry(all, i as int, start as int));
                    if all[j].0 == start {
                        assert(before[start as int]);
                    }
                }
            }
            malloced.insert(start, size);
            i = i + 1;
        }
        let mut c: usize = 0;
        while c < n
            invariant
                n == cells.len(),
                cells == mem@,
                all == entries@,
                claimed@.len() == n,
                c <= n,
                forall|x: int| 0 <= x < c && (#[trigger] cells[x]) is Some ==> claimed@[x],
                forall|k: int|
                    0 <= k < n ==> (#[trigger] claimed@[k] <==> exists|j: int|
                        j < all.len() && in_entry(all, j, k)),
            decreases n - c,
        {
            if mem[c].is_some() && !claimed[c] {
                assert(!describes_heap(cells, all)) by {
                    assert(cells[c as int] is Some);
                    if describes_heap(cells, all) {
                        let j = choose|j: int| in_entry(all, j, c as int);
                        assert(j < all.len() && in_entry(all, j, c as int));
                        assert(claimed@[c as int]);
                    }
                }
                return None;
            }
            c = c + 1;
        }
        let m = Mem { mem, malloced };
        proof {
            assert forall|x: int|
                0 <= x < cells.len() && (#[trigger] cells[x]) is Some implies exists|j: int|
                in_entry(all, j, x) by {
                assert(claimed@[x]);
                let j = choose|j: int| j < all.len() && in_entry(all, j, x);
                assert(in_entry(all, j, x));
            }
            assert(describes_heap(cells, all));
            assert forall|s: usize, x: int| #[trigger] m.covers(s, x) implies exists|j: int|
                in_entry(all, j, x) && all[j].0 == s by {
                let j = choose|j: int| 0 <= j < all.len() && (#[trigger] all[j]).0 == s;
                assert(in_entry(all, j, x));
            }
            assert forall|x: int|
                0 <= x < m.cells().len() && (#[trigger] m.cells()[x]) is Some implies exists|
                s: usize,
            |
                m.covers(s, x) by {
                let j = choose|j: int| in_entry(all, j, x);
                assert(m.table().contains_key(all[j].0));
                assert(m.covers(all[j].0, x));
            }
            assert forall|s1: usize, s2: usize, x: int|
                #[trigger] m.covers(s1, x) && #[trigger] m.covers(s2, x) implies s1 == s2 by {
                let j1 = choose|j: int| in_entry(all, j, x) && all[j].0 == s1;
                let j2 = choose|j: int| in_entry(all, j, x) && all[j].0 == s2;
                assert(in_entry(all, j1, x) && in_entry(all, j2, x));
            }
        }
        Some(m)
    }
}

} // verus!
