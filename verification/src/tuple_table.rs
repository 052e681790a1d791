use vstd::prelude::*;
use vstd::std_specs::cmp::PartialEqSpec;

verus! {

/// Number of tuples a freshly cleared table has room for, and the growth step.
pub const PAGE_SIZE: usize = 512;

/// A growable store of fixed-arity tuples. Tuple `t` occupies the slots
/// `t * arity .. t * arity + arity` of one flat vector; a slot can be empty.
pub struct TupleTable<T> {
    arity: usize,
    objects: Vec<Option<T>>,
    first_free_tuple_index: usize,
}

impl<T> TupleTable<T> {
    /// The flat slot contents.
    pub closed spec fn slots(&self) -> Seq<Option<T>> {
        self.objects@
    }

    pub closed spec fn spec_arity(&self) -> nat {
        self.arity as nat
    }

    pub closed spec fn first_free(&self) -> nat {
        self.first_free_tuple_index as nat
    }

    /// The slots always form whole tuples.
    pub closed spec fn wf(&self) -> bool {
        &&& self.arity > 0 ==> (self.objects@.len() as int) % (self.arity as int) == 0
        &&& self.arity == 0 ==> self.objects@.len() == 0
    }

    /// The slot of object `object_index` of tuple `tuple_index`.
    pub open spec fn slot_of(&self, tuple_index: int, object_index: int) -> int {
        tuple_index * self.spec_arity() + object_index
    }

    /// The number of tuples the slots have room for.
    pub open spec fn capacity(&self) -> nat {
        if self.spec_arity() == 0 {
            0
        } else {
            self.slots().len() / self.spec_arity()
        }
    }

    pub fn new(arity: usize) -> (table: TupleTable<T>)
        requires
            arity * PAGE_SIZE <= usize::MAX,
        ensures
            table.wf(),
            table.spec_arity() == arity,
            table.first_free() == 0,
            table.slots() == Seq::new((arity * PAGE_SIZE) as nat, |i: int| None::<T>),
    {
        let mut table = TupleTable { arity, objects: Vec::new(), first_free_tuple_index: 0 };
        table.clear();
        table
    }

    pub fn arity(&self) -> (r: usize)
        ensures
            r == self.spec_arity(),
    {
        self.arity
    }

    pub fn get_first_free_tuple_index(&self) -> (r: usize)
        ensures
            r == self.first_free(),
    {
        self.first_free_tuple_index
    }

    fn slot(&self, tuple_index: usize, object_index: usize) -> (r: usize)
        requires
            tuple_index * self.spec_arity() + object_index <= usize::MAX,
        ensures
            r == self.slot_of(tuple_index as int, object_index as int),
    {
        tuple_index * self.arity + object_index
    }

    pub fn get_tuple_object(&self, tuple_index: usize, object_index: usize) -> (r: Option<&T>)
        requires
            object_index < self.spec_arity(),
            self.slot_of(tuple_index as int, object_index as int) < self.slots().len(),
        ensures
            r == match self.slots()[self.slot_of(tuple_index as int, object_index as int)] {
                Some(v) => Some(&v),
                None => None::<&T>,
            },
    {
        let _len = self.objects.len();
        let slot = self.slot(tuple_index, object_index);
        match &self.objects[slot] {
            Some(v) => Some(v),
            None => None,
        }
    }

    pub fn set_tuple_object(&mut self, tuple_index: usize, object_index: usize, object: Option<T>)
        requires
            old(self).wf(),
            old(self).slot_of(tuple_index as int, object_index as int) < old(self).slots().len(),
        ensures
            final(self).wf(),
            final(self).spec_arity() == old(self).spec_arity(),
            final(self).first_free() == old(self).first_free(),
            final(self).slots() == old(self).slots().update(
                old(self).slot_of(tuple_index as int, object_index as int),
                object,
            ),
    {
        let _len = self.objects.len();
        let slot = self.slot(tuple_index, object_index);
        self.objects.set(slot, object);
    }

    pub fn truncate(&mut self, new_first_free_tuple_index: usize)
        requires
            old(self).wf(),
        ensures
            final(self).wf(),
            final(self).spec_arity() == old(self).spec_arity(),
            final(self).slots() == old(self).slots(),
            final(self).first_free() == new_first_free_tuple_index,
    {
        self.first_free_tuple_index = new_first_free_tuple_index;
    }

    pub fn nullify_tuple(&mut self, tuple_index: usize)
        requires
            old(self).wf(),
            (tuple_index + 1) * old(self).spec_arity() <= old(self).slots().len(),
        ensures
            final(self).wf(),
            final(self).spec_arity() == old(self).spec_arity(),
            final(self).first_free() == old(self).first_free(),
            final(self).slots().len() == old(self).slots().len(),
            forall|i: int|
                0 <= i < old(self).slots().len() ==> #[trigger] final(self).slots()[i] == if
                    tuple_index * old(self).spec_arity() <= i < (tuple_index + 1)
                        * old(self).spec_arity() {
                    None
                } else {
                    old(self).slots()[i]
                },
    {
        proof {
            vstd::arithmetic::mul::lemma_mul_is_distributive_add_other_way(
                self.arity as int,
                tuple_index as int,
                1,
            );
        }
        let _len = self.objects.len();
        let start = tuple_index * self.arity;
        let mut offset: usize = 0;
        while offset < self.arity
            invariant
                old(self).wf(),
                start == tuple_index * old(self).spec_arity(),
                start + old(self).spec_arity() <= old(self).slots().len(),
                old(self).slots().len() <= usize::MAX,
                offset <= self.arity,
                self.arity == old(self).arity,
                self.first_free_tuple_index == old(self).first_free_tuple_index,
                self.objects@.len() == old(self).objects@.len(),
                forall|i: int|
                    0 <= i < old(self).slots().len() ==> #[trigger] self.objects@[i] == if start
                        <= i < start + offset {
                        None
                    } else {
                        old(self).objects@[i]
                    },
            decreases self.arity - offset,
        {
            self.objects.set(start + offset, None);
            offset += 1;
        }
    }

    /// Empties the table and gives it room for one page of tuples.
    pub fn clear(&mut self)
        requires
            old(self).spec_arity() * PAGE_SIZE <= usize::MAX,
        ensures
            final(self).wf(),
            final(self).spec_arity() == old(self).spec_arity(),
            final(self).first_free() == 0,
            final(self).slots() == Seq::new(
                (old(self).spec_arity() * PAGE_SIZE) as nat,
                |i: int| None::<T>,
            ),
    {
        let n = self.arity * PAGE_SIZE;
        let mut objects: Vec<Option<T>> = Vec::new();
        let mut i: usize = 0;
        while i < n
            invariant
                i <= n,
                objects@ == Seq::new(i as nat, |k: int| None::<T>),
            decreases n - i,
        {
            objects.push(None);
            i += 1;
        }
        proof {
            if self.arity > 0 {
                vstd::arithmetic::div_mod::lemma_mod_multiples_basic(
                    PAGE_SIZE as int,
                    self.arity as int,
                );
                assert((PAGE_SIZE as int * self.arity as int) % (self.arity as int) == 0);
                assert(n as int == PAGE_SIZE as int * self.arity as int) by (nonlinear_arith)
                    requires
                        n == self.arity * PAGE_SIZE,
                ;
            } else {
                assert(n == 0);
            }
        }
        self.objects = objects;
        self.first_free_tuple_index = 0;
    }
}

impl<T: Clone> TupleTable<T> {
    /// Stores the tuple at the first free index, growing the table by a page
    /// when it is full, and returns that index.
    pub fn add_tuple(&mut self, tuple_buffer: &[T]) -> (new_tuple_index: usize)
        requires
            old(self).wf(),
            old(self).spec_arity() > 0,
            tuple_buffer@.len() <= old(self).spec_arity(),
            old(self).first_free() <= old(self).capacity(),
            old(self).slots().len() + old(self).spec_arity() * PAGE_SIZE <= usize::MAX,
            old(self).first_free() < usize::MAX,
        ensures
            final(self).wf(),
            new_tuple_index == old(self).first_free(),
            final(self).spec_arity() == old(self).spec_arity(),
            final(self).first_free() == old(self).first_free() + 1,
            final(self).first_free() <= final(self).capacity(),
            final(self).slots().len() == if old(self).first_free() == old(self).capacity() {
                old(self).slots().len() + old(self).spec_arity() * PAGE_SIZE
            } else {
                old(self).slots().len() as int
            },
            forall|i: int|
                #![trigger final(self).slots()[i]]
                0 <= i < final(self).slots().len() ==> {
                    let start = new_tuple_index * old(self).spec_arity();
                    if start <= i < start + tuple_buffer@.len() {
                        &&& final(self).slots()[i] is Some
                        &&& cloned::<T>(
                            tuple_buffer@[i - start],
                            final(self).slots()[i]->Some_0,
                        )
                    } else if i < old(self).slots().len() {
                        final(self).slots()[i] == old(self).slots()[i]
                    } else {
                        final(self).slots()[i] is None
                    }
                },
    {
        let arity = self.arity;
        let new_tuple_index = self.first_free_tuple_index;
        let capacity = self.objects.len() / arity;
        proof {
            vstd::arithmetic::div_mod::lemma_fundamental_div_mod(
                self.objects@.len() as int,
                arity as int,
            );
            assert(self.objects@.len() as int == arity as int * capacity as int);
        }
        if new_tuple_index == capacity {
            let grow = arity * PAGE_SIZE;
            let mut i: usize = 0;
            let ghost before = self.objects@;
            while i < grow
                invariant
                    i <= grow,
                    self.arity == arity,
                    self.first_free_tuple_index == new_tuple_index,
                    grow == arity * PAGE_SIZE,
                    before.len() + grow <= usize::MAX,
                    self.objects@.len() == before.len() + i,
                    self.objects@.subrange(0, before.len() as int) == before,
                    forall|k: int|
                        before.len() <= k < self.objects@.len() ==> #[trigger] self.objects@[k]
                            is None,
                decreases grow - i,
            {
                self.objects.push(None);
                i += 1;
                proof {
                    assert(self.objects@.subrange(0, before.len() as int) =~= before);
                }
            }
            proof {
                assert(self.objects@.len() as int == arity as int * (capacity as int + PAGE_SIZE))
                    by (nonlinear_arith)
                    requires
                        self.objects@.len() == before.len() + grow,
                        grow == arity * PAGE_SIZE,
                        before.len() as int == arity as int * capacity as int,
                ;
                vstd::arithmetic::div_mod::lemma_mod_multiples_basic(
                    capacity as int + PAGE_SIZE,
                    arity as int,
                );
                assert((arity as int * (capacity as int + PAGE_SIZE)) % (arity as int) == 0)
                    by (nonlinear_arith)
                    requires
                        ((capacity as int + PAGE_SIZE) * arity as int) % (arity as int) == 0,
                ;
                assert((self.objects@.len() as int) % (arity as int) == 0);
            }
        }
        let _grown_len = self.objects.len();
        let ghost grown = self.objects@;
        assert((grown.len() as int) % (arity as int) == 0);
        proof {
            assert(grown.len() >= new_tuple_index as int * arity as int + arity as int) by (nonlinear_arith)
                requires
                    grown.len() == arity as int * capacity as int || grown.len() == arity as int
                        * (capacity as int + PAGE_SIZE),
                    new_tuple_index <= capacity,
                    new_tuple_index == capacity ==> grown.len() == arity as int * (capacity as int
                        + PAGE_SIZE),
                    arity > 0,
            ;
        }
        let start = new_tuple_index * arity;
        let mut offset: usize = 0;
        while offset < tuple_buffer.len()
            invariant
                offset <= tuple_buffer@.len(),
                self.arity == arity,
                arity > 0,
                tuple_buffer@.len() <= arity,
                start == new_tuple_index * arity,
                start + arity <= grown.len(),
                grown.len() <= usize::MAX,
                self.objects@.len() == grown.len(),
                forall|i: int|
                    #![trigger self.objects@[i]]
                    0 <= i < grown.len() ==> if start <= i < start + offset {
                        &&& self.objects@[i] is Some
                        &&& cloned::<T>(tuple_buffer@[i - start], self.objects@[i]->Some_0)
                    } else {
                        self.objects@[i] == grown[i]
                    },
            decreases tuple_buffer@.len() - offset,
        {
            let value = tuple_buffer[offset].clone();
            self.objects.set(start + offset, Some(value));
            offset += 1;
        }
        self.first_free_tuple_index = new_tuple_index + 1;
        proof {
            let cap2 = self.objects@.len() as int / arity as int;
            vstd::arithmetic::div_mod::lemma_fundamental_div_mod(
                self.objects@.len() as int,
                arity as int,
            );
            assert(new_tuple_index + 1 <= cap2) by (nonlinear_arith)
                requires
                    self.objects@.len() >= new_tuple_index as int * arity as int + arity as int,
                    self.objects@.len() as int == arity as int * cap2,
                    arity > 0,
            ;
            assert forall|i: int| #![trigger self.objects@[i]] 0 <= i < self.objects@.len() implies {
                let start = new_tuple_index * old(self).spec_arity();
                if start <= i < start + tuple_buffer@.len() {
                    &&& self.objects@[i] is Some
                    &&& cloned::<T>(tuple_buffer@[i - start], self.objects@[i]->Some_0)
                } else if i < old(self).slots().len() {
                    self.objects@[i] == old(self).slots()[i]
                } else {
                    self.objects@[i] is None
                }
            } by {
                if i < old(self).objects@.len() {
                    if new_tuple_index == capacity {
                        assert(grown.subrange(0, old(self).objects@.len() as int)[i] == grown[i]);
                    }
                }
            }
        }
        new_tuple_index
    }

    /// Copies the stored tuple at `tuple_index` into a fresh vector.
    pub fn retrieve_tuple(&self, tuple_index: usize) -> (r: Vec<Option<T>>)
        requires
            (tuple_index + 1) * self.spec_arity() <= self.slots().len(),
        ensures
            r@.len() == self.spec_arity(),
            forall|i: int|
                0 <= i < self.spec_arity() ==> cloned::<Option<T>>(
                    self.slots()[tuple_index * self.spec_arity() + i],
                    #[trigger] r@[i],
                ),
    {
        proof {
            vstd::arithmetic::mul::lemma_mul_is_distributive_add_other_way(
                self.arity as int,
                tuple_index as int,
                1,
            );
        }
        let _len = self.objects.len();
        let start = tuple_index * self.arity;
        let mut result: Vec<Option<T>> = Vec::new();
        let mut offset: usize = 0;
        while offset < self.arity
            invariant
                start == tuple_index * self.spec_arity(),
                start + self.spec_arity() <= self.slots().len(),
                self.slots().len() <= usize::MAX,
                offset <= self.arity,
                result@.len() == offset,
                forall|i: int|
                    0 <= i < offset ==> cloned::<Option<T>>(
                        self.slots()[start + i],
                        #[trigger] result@[i],
                    ),
            decreases self.arity - offset,
        {
            result.push(self.objects[start + offset].clone());
            offset += 1;
        }
        result
    }
}

impl<T: Clone> TupleTable<T> {
    /// Tuple `t` holds, slot by slot, a copy of each object of `buffer`.
    pub open spec fn holds_copy(&self, t: int, buffer: Seq<T>) -> bool {
        forall|i: int|
            0 <= i < buffer.len() ==> {
                let slot = #[trigger] self.slots()[t * self.spec_arity() + i];
                &&& slot is Some
                &&& cloned::<T>(buffer[i], slot->Some_0)
            }
    }

    /// A tuple stored by `add_tuple` is there to be read: the slots of the
    /// new tuple hold copies of the buffer's objects.
    pub proof fn lemma_added_tuple_held(
        pre: Self,
        post: Self,
        buffer: Seq<T>,
        t: int,
    )
        requires
            t == pre.first_free(),
            buffer.len() <= pre.spec_arity(),
            post.spec_arity() == pre.spec_arity(),
            (t + 1) * pre.spec_arity() <= post.slots().len(),
            forall|i: int|
                #![trigger post.slots()[i]]
                0 <= i < post.slots().len() ==> {
                    let start = t * pre.spec_arity();
                    if start <= i < start + buffer.len() {
                        &&& post.slots()[i] is Some
                        &&& cloned::<T>(buffer[i - start], post.slots()[i]->Some_0)
                    } else if i < pre.slots().len() {
                        post.slots()[i] == pre.slots()[i]
                    } else {
                        post.slots()[i] is None
                    }
                },
        ensures
            post.holds_copy(t, buffer),
    {
        let a = pre.spec_arity() as int;
        assert forall|i: int| 0 <= i < buffer.len() implies {
            let slot = #[trigger] post.slots()[t * post.spec_arity() + i];
            &&& slot is Some
            &&& cloned::<T>(buffer[i], slot->Some_0)
        } by {
            assert(t * a + i < (t + 1) * a) by (nonlinear_arith)
                requires
                    0 <= i < a,
                    t >= 0,
            ;
            assert(post.slots()[t * a + i] is Some);
        }
    }

    /// What `retrieve_tuple` reads back from a tuple that holds copies of a
    /// full buffer is, object by object, a copy of the slot holding a copy of
    /// the buffer's object.
    pub proof fn lemma_retrieved_copy(&self, t: int, buffer: Seq<T>, r: Seq<Option<T>>)
        requires
            self.holds_copy(t, buffer),
            buffer.len() == self.spec_arity(),
            r.len() == self.spec_arity(),
            forall|i: int|
                0 <= i < self.spec_arity() ==> cloned::<Option<T>>(
                    self.slots()[t * self.spec_arity() + i],
                    #[trigger] r[i],
                ),
        ensures
            forall|i: int|
                0 <= i < buffer.len() ==> {
                    let slot = self.slots()[t * self.spec_arity() + i];
                    &&& slot is Some
                    &&& cloned::<T>(buffer[i], slot->Some_0)
                    &&& cloned::<Option<T>>(slot, #[trigger] r[i])
                },
    {
        assert forall|i: int| 0 <= i < buffer.len() implies {
            let slot = self.slots()[t * self.spec_arity() + i];
            &&& slot is Some
            &&& cloned::<T>(buffer[i], slot->Some_0)
            &&& cloned::<Option<T>>(slot, #[trigger] r[i])
        } by {
            assert(self.slots()[t * self.spec_arity() + i] is Some);
        }
    }
}

impl<T: PartialEq> TupleTable<T> {
    /// Whether the first `compare_length` objects of `tuple_buffer` equal the
    /// stored tuple at `tuple_index` (an empty slot never matches).
    pub fn tuple_equals(&self, tuple_buffer: &[T], tuple_index: usize, compare_length: usize) -> (r:
        bool)
        requires
            T::obeys_eq_spec(),
            compare_length <= tuple_buffer@.len(),
            tuple_index * self.spec_arity() + compare_length <= self.slots().len(),
        ensures
            r <==> forall|i: int|
                0 <= i < compare_length ==> {
                    let stored = #[trigger] self.slots()[tuple_index * self.spec_arity() + i];
                    stored is Some && stored->Some_0.eq_spec(&tuple_buffer@[i])
                },
    {
        let _len = self.objects.len();
        let start = tuple_index * self.arity;
        let mut source_index = compare_length;
        while source_index > 0
            invariant
                T::obeys_eq_spec(),
                source_index <= compare_length,
                compare_length <= tuple_buffer@.len(),
                start == tuple_index * self.spec_arity(),
                start + compare_length <= self.slots().len(),
                self.slots().len() <= usize::MAX,
                forall|i: int|
                    source_index <= i < compare_length ==> {
                        let stored = #[trigger] self.slots()[start + i];
                        stored is Some && stored->Some_0.eq_spec(&tuple_buffer@[i])
                    },
            decreases source_index,
        {
            source_index -= 1;
            match &self.objects[start + source_index] {
                Some(stored) => {
                    if !stored.eq(&tuple_buffer[source_index]) {
                        return false;
                    }
                },
                None => {
                    return false;
                },
            }
        }
        true
    }

    /// Like `tuple_equals`, but object `i` of the stored tuple is compared with
    /// `tuple_buffer[position_indexes[i]]`.
    pub fn tuple_equals_indexed(
        &self,
        tuple_buffer: &[T],
        position_indexes: &[usize],
        tuple_index: usize,
        compare_length: usize,
    ) -> (r: bool)
        requires
            T::obeys_eq_spec(),
            compare_length <= position_indexes@.len(),
            forall|i: int| 0 <= i < compare_length ==> #[trigger] position_indexes@[i] < tuple_buffer@.len(),
            tuple_index * self.spec_arity() + compare_length <= self.slots().len(),
        ensures
            r <==> forall|i: int|
                0 <= i < compare_length ==> {
                    let stored = #[trigger] self.slots()[tuple_index * self.spec_arity() + i];
                    stored is Some && stored->Some_0.eq_spec(
                        &tuple_buffer@[position_indexes@[i] as int],
                    )
                },
    {
        let _len = self.objects.len();
        let start = tuple_index * self.arity;
        let mut source_index = compare_length;
        while source_index > 0
            invariant
                T::obeys_eq_spec(),
                source_index <= compare_length,
                compare_length <= position_indexes@.len(),
                forall|i: int| 0 <= i < compare_length ==> #[trigger] position_indexes@[i] < tuple_buffer@.len(),
                start == tuple_index * self.spec_arity(),
                start + compare_length <= self.slots().len(),
                self.slots().len() <= usize::MAX,
                forall|i: int|
                    source_index <= i < compare_length ==> {
                        let stored = #[trigger] self.slots()[start + i];
                        stored is Some && stored->Some_0.eq_spec(
                            &tuple_buffer@[position_indexes@[i] as int],
                        )
                    },
            decreases source_index,
        {
            source_index -= 1;
            match &self.objects[start + source_index] {
                Some(stored) => {
                    if !stored.eq(&tuple_buffer[position_indexes[source_index]]) {
                        return false;
                    }
                },
                None => {
                    return false;
                },
            }
        }
        true
    }
}

} // verus!
