//! A list of states to go back and forth in: a bounded history with a
//! cursor.

use vstd::pervasive::cloned;
use vstd::prelude::*;

verus! {

/// `i` brought back below `n`, for an `i` below twice `n`.
pub open spec fn wrap(i: int, n: int) -> int {
    if i < n {
        i
    } else {
        i - n
    }
}

proof fn lemma_wrap(i: int, n: int)
    requires
        0 <= i < 2 * n,
    ensures
        i % n == wrap(i, n),
{
    if i < n {
        vstd::arithmetic::div_mod::lemma_small_mod(i as nat, n as nat);
    } else {
        vstd::arithmetic::div_mod::lemma_small_mod((i - n) as nat, n as nat);
        vstd::arithmetic::div_mod::lemma_mod_add_multiples_vanish(i - n, n);
    }
}

/// The last `SIZE` states that were appended, kept in a ring, and a cursor
/// on one of them. Appending drops the states after the cursor.
#[derive(Debug, Clone)]
pub struct UndoList<T: Clone, const SIZE: usize> {
    foremost_index: usize,
    current_index: usize,
    length: usize,
    data: Vec<T>,
}

impl<T: Clone, const SIZE: usize> UndoList<T, SIZE> {
    /// The place in the ring of the oldest state.
    closed spec fn back(&self) -> int {
        wrap(self.foremost_index + 1 + SIZE - self.length, SIZE as int)
    }

    /// The states that are kept, the oldest first.
    pub closed spec fn entries(&self) -> Seq<T> {
        Seq::new(self.length as nat, |k: int| self.data@[wrap(self.back() + k, SIZE as int)])
    }

    /// The place of the cursor among the states that are kept.
    pub closed spec fn cursor(&self) -> int {
        wrap(self.current_index + SIZE - self.back(), SIZE as int)
    }

    /// The list is in order. It can hold a state, and no more than half of
    /// what an index counts.
    pub closed spec fn wf(&self) -> bool {
        &&& 0 < SIZE
        &&& 2 * SIZE + 1 <= usize::MAX
        &&& self.length <= SIZE
        &&& if self.length == 0 {
            self.foremost_index == 0 && self.current_index == 0 && self.data@.len() == 0
        } else {
            &&& self.data@.len() == SIZE
            &&& self.foremost_index < SIZE
            &&& self.current_index < SIZE
            &&& self.cursor() < self.length
        }
    }

    /// Of a list in order: the cursor is on a state that is kept, and no
    /// more than `SIZE` are.
    pub proof fn lemma_wf(&self)
        requires
            self.wf(),
        ensures
            self.entries().len() <= SIZE,
            self.entries().len() > 0 ==> 0 <= self.cursor() < self.entries().len(),
    {
    }

    /// The empty list.
    pub fn new() -> (list: Self)
        requires
            0 < SIZE,
            2 * SIZE + 1 <= usize::MAX,
        ensures
            list.wf(),
            list.entries().len() == 0,
    {
        Self { foremost_index: 0, current_index: 0, length: 0, data: Vec::new() }
    }

    /// The number of states that are kept.
    pub fn len(&self) -> (n: usize)
        ensures
            n == self.entries().len(),
    {
        self.length
    }

    /// Puts a state after the cursor and the cursor on it. The states that
    /// were after the cursor are dropped, and the oldest state too where the
    /// list is full.
    pub fn append(&mut self, new_item: T)
        requires
            old(self).wf(),
        ensures
            final(self).wf(),
            final(self).entries().len() == if old(self).entries().len() == 0 {
                1
            } else if old(self).cursor() + 2 <= SIZE {
                old(self).cursor() + 2
            } else {
                SIZE as int
            },
            final(self).cursor() == final(self).entries().len() - 1,
            cloned(new_item, final(self).entries().last()),
            old(self).entries().len() > 0 ==> forall|k: int|
                0 <= k < final(self).entries().len() - 1 ==> #[trigger] final(self).entries()[k]
                    == old(self).entries()[k + old(self).cursor() + 2 - final(self).entries().len()],
    {
        if self.length == 0 {
            self.data.resize(SIZE, new_item);
            self.length = 1;
            return;
        }
        let ghost n = SIZE as int;
        let ghost before = *self;
        proof {
            lemma_wrap(self.foremost_index + n - self.current_index, n);
            lemma_wrap(self.current_index + 1, n);
        }
        self.length = self.length - (self.foremost_index + SIZE - self.current_index) % SIZE + 1;
        self.current_index = (self.current_index + 1) % SIZE;
        let item = new_item.clone();
        self.data.set(self.current_index, item);
        self.foremost_index = self.current_index;
        if self.length > SIZE {
            self.length = SIZE;
        }
        proof {
            let shift = before.cursor() + 2 - self.length;
            assert(self.back() == wrap(before.back() + shift, n));
            assert(self.entries().last() == item);
            assert forall|k: int| 0 <= k < self.entries().len() - 1 implies #[trigger] self.entries()[k]
                == before.entries()[k + shift] by {
                assert(wrap(self.back() + k, n) == wrap(before.back() + (k + shift), n));
            }
        }
    }

    /// Moves the cursor back by one state and hands the state out, where
    /// there is one before the cursor.
    pub fn undo(&mut self) -> (state: Option<T>)
        requires
            old(self).wf(),
        ensures
            final(self).wf(),
            final(self).entries() == old(self).entries(),
            state is Some <==> old(self).entries().len() > 0 && old(self).cursor() > 0,
            state is None ==> final(self).cursor() == old(self).cursor(),
            state matches Some(s) ==> final(self).cursor() == old(self).cursor() - 1 && cloned(
                final(self).entries()[final(self).cursor()],
                s,
            ),
    {
        if self.length == 0 {
            return None;
        }
        let ghost n = SIZE as int;
        proof {
            lemma_wrap(self.foremost_index + n + 1 - self.length, n);
            lemma_wrap(self.current_index + n - 1, n);
        }
        let backmost_index = (self.foremost_index + SIZE + 1 - self.length) % SIZE;
        if self.current_index == backmost_index {
            return None;
        }
        self.current_index = (self.current_index + SIZE - 1) % SIZE;
        Some(self.data[self.current_index].clone())
    }

    /// Moves the cursor on by one state and hands the state out, where
    /// there is one after the cursor.
    pub fn redo(&mut self) -> (state: Option<T>)
        requires
            old(self).wf(),
        ensures
            final(self).wf(),
            final(self).entries() == old(self).entries(),
            state is Some <==> old(self).entries().len() > 0 && old(self).cursor() + 1 < old(self).entries().len(),
            state is None ==> final(self).cursor() == old(self).cursor(),
            state matches Some(s) ==> final(self).cursor() == old(self).cursor() + 1 && cloned(
                final(self).entries()[final(self).cursor()],
                s,
            ),
    {
        if self.length == 0 {
            return None;
        }
        if self.current_index == self.foremost_index {
            return None;
        }
        proof {
            lemma_wrap(self.current_index + 1, SIZE as int);
        }
        self.current_index = (self.current_index + 1) % SIZE;
        Some(self.data[self.current_index].clone())
    }
}

} // verus!
