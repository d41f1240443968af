//! Every assignment of operators to a number of slots, in odometer order:
//! the rightmost slot cycles fastest through the canonical operator order.

use crate::operator::Operator;
use vstd::prelude::*;

verus! {

/// `4^m`.
pub open spec fn power_of_four(m: nat) -> nat
    decreases m,
{
    if m == 0 {
        1
    } else {
        4 * power_of_four((m - 1) as nat)
    }
}

/// The assignment at place `k` for `m` slots: slot by slot, the operators
/// whose canonical positions are the base-four digits of `k`, the most
/// significant first.
pub open spec fn nth_assignment(m: nat, k: nat) -> Seq<Operator>
    decreases m,
{
    if m == 0 {
        Seq::empty()
    } else {
        nth_assignment((m - 1) as nat, k / 4).push(Operator::from_rank(k % 4))
    }
}

/// Every assignment for `m` slots, in odometer order.
pub open spec fn assignments(m: nat) -> Seq<Seq<Operator>> {
    Seq::new(power_of_four(m), |k: int| nth_assignment(m, k as nat))
}

/// The place of an assignment: its operators' canonical positions read as
/// a number in base four.
pub open spec fn place_of(ops: Seq<Operator>) -> nat
    decreases ops.len(),
{
    if ops.len() == 0 {
        0
    } else {
        4 * place_of(ops.drop_last()) + ops.last().rank()
    }
}

/// An assignment for `m` slots has `m` operators.
pub proof fn lemma_nth_assignment_len(m: nat, k: nat)
    ensures
        nth_assignment(m, k).len() == m,
    decreases m,
{
    if m > 0 {
        lemma_nth_assignment_len((m - 1) as nat, k / 4);
    }
}

/// An assignment's place is below `4^m`, and the assignment stands at its
/// place.
pub proof fn lemma_place_of(ops: Seq<Operator>)
    ensures
        place_of(ops) < power_of_four(ops.len()),
        nth_assignment(ops.len(), place_of(ops)) == ops,
        assignments(ops.len())[place_of(ops) as int] == ops,
    decreases ops.len(),
{
    if ops.len() > 0 {
        let front = ops.drop_last();
        lemma_place_of(front);
        let k = place_of(ops);
        assert(ops.last().rank() < 4);
        assert(k / 4 == place_of(front));
        assert(k % 4 == ops.last().rank());
        assert(Operator::from_rank(ops.last().rank()) == ops.last());
        assert(front.push(ops.last()) =~= ops);
    }
}

/// Places below `4^m` hold assignments that differ from place to place.
pub proof fn lemma_place_of_nth(m: nat, k: nat)
    requires
        k < power_of_four(m),
    ensures
        place_of(nth_assignment(m, k)) == k,
    decreases m,
{
    if m > 0 {
        lemma_place_of_nth((m - 1) as nat, k / 4);
        let a = nth_assignment(m, k);
        assert(a.drop_last() =~= nth_assignment((m - 1) as nat, k / 4));
        assert(Operator::from_rank(k % 4).rank() == k % 4);
    }
}

/// For `m` slots there are `4^m` assignments, each of `m` operators and
/// none listed twice, and every sequence of `m` operators is among them.
pub proof fn lemma_assignments_exhaustive(m: nat)
    ensures
        assignments(m).len() == power_of_four(m),
        forall|k: int| 0 <= k < assignments(m).len() ==> (#[trigger] assignments(m)[k]).len() == m,
        assignments(m).no_duplicates(),
        forall|ops: Seq<Operator>| ops.len() == m ==> #[trigger] assignments(m).contains(ops),
{
    let all = assignments(m);
    assert forall|k: int| 0 <= k < all.len() implies (#[trigger] all[k]).len() == m by {
        lemma_nth_assignment_len(m, k as nat);
    }
    assert forall|k1: int, k2: int|
        0 <= k1 < all.len() && 0 <= k2 < all.len() && k1 != k2 implies all[k1] != all[k2] by {
        lemma_place_of_nth(m, k1 as nat);
        lemma_place_of_nth(m, k2 as nat);
    }
    assert forall|ops: Seq<Operator>| ops.len() == m implies #[trigger] all.contains(ops) by {
        lemma_place_of(ops);
    }
}

/// Every operator occurs at every slot: some assignment for `m` slots has
/// `op` at `slot`.
pub proof fn lemma_assignments_cover(m: nat, slot: int, op: Operator)
    requires
        0 <= slot < m,
    ensures
        exists|k: int| 0 <= k < assignments(m).len() && #[trigger] assignments(m)[k][slot] == op,
{
    let ops = Seq::new(m, |i: int| op);
    lemma_place_of(ops);
    let k = place_of(ops) as int;
    assert(assignments(m)[k][slot] == op);
}

/// Stepping an assignment: the slots after `j` hold the last operator and
/// fall back to the first, slot `j` moves to its next operator, and the
/// place goes up by one.
proof fn lemma_step(ops: Seq<Operator>, next: Seq<Operator>, j: int)
    requires
        0 <= j < ops.len(),
        next.len() == ops.len(),
        ops[j].rank() < 3,
        next[j].rank() == ops[j].rank() + 1,
        forall|i: int| 0 <= i < j ==> next[i] == ops[i],
        forall|i: int| j < i < ops.len() ==> ops[i] == Operator::Div && next[i] == Operator::Add,
    ensures
        place_of(next) == place_of(ops) + 1,
    decreases ops.len(),
{
    if j == ops.len() - 1 {
        assert(next.drop_last() =~= ops.drop_last());
    } else {
        lemma_step(ops.drop_last(), next.drop_last(), j);
    }
}

/// The assignment of first operators stands at the first place.
proof fn lemma_first(ops: Seq<Operator>)
    requires
        forall|i: int| 0 <= i < ops.len() ==> ops[i] == Operator::Add,
    ensures
        place_of(ops) == 0,
    decreases ops.len(),
{
    if ops.len() > 0 {
        lemma_first(ops.drop_last());
    }
}

/// The assignment of last operators stands at the last place.
proof fn lemma_last(ops: Seq<Operator>)
    requires
        forall|i: int| 0 <= i < ops.len() ==> ops[i] == Operator::Div,
    ensures
        place_of(ops) + 1 == power_of_four(ops.len()),
    decreases ops.len(),
{
    if ops.len() > 0 {
        lemma_last(ops.drop_last());
    }
}

/// A generator of every assignment of operators to a number of slots.
pub struct OpsIter {
    current: Vec<Operator>,
    finished: bool,
}

impl OpsIter {
    /// The number of slots.
    pub closed spec fn slots(&self) -> nat {
        self.current@.len()
    }

    /// The assignments still to come, in the order in which they will come.
    pub closed spec fn remaining(&self) -> Seq<Seq<Operator>> {
        if self.finished {
            Seq::empty()
        } else {
            assignments(self.current@.len()).skip(place_of(self.current@) as int)
        }
    }

    /// A generator that has yet to yield every assignment for `length`
    /// slots.
    pub fn new(length: usize) -> (it: OpsIter)
        ensures
            it.slots() == length,
            it.remaining() == assignments(length as nat),
    {
        let mut current: Vec<Operator> = Vec::new();
        while current.len() < length
            invariant
                current@.len() <= length,
                forall|i: int| 0 <= i < current@.len() ==> current@[i] == Operator::Add,
            decreases length - current@.len(),
        {
            current.push(Operator::Add);
        }
        proof {
            lemma_first(current@);
            assert(assignments(length as nat).skip(0) =~= assignments(length as nat));
        }
        OpsIter { current, finished: false }
    }

    /// Yields the next assignment, or `None` once all have been yielded.
    pub fn next(&mut self) -> (r: Option<Vec<Operator>>)
        ensures
            final(self).slots() == old(self).slots(),
            old(self).remaining().len() == 0 ==> r is None && final(self).remaining() == old(
                self,
            ).remaining(),
            old(self).remaining().len() > 0 ==> r is Some && r->0@ == old(self).remaining()[0]
                && final(self).remaining() == old(self).remaining().drop_first(),
    {
        proof {
            lemma_place_of(self.current@);
        }
        if self.finished {
            return None;
        }
        let ghost all = assignments(self.current@.len());
        let ghost before = self.current@;
        let ghost place = place_of(before);
        let n = self.current.len();
        let out = self.current.clone();
        assert(out@ =~= before);
        let mut j: usize = n;
        let mut stepped = false;
        while j > 0 && !stepped
            invariant
                j <= n,
                n == self.current@.len(),
                n == before.len(),
                !stepped ==> forall|i: int| 0 <= i < j ==> self.current@[i] == before[i],
                !stepped ==> forall|i: int|
                    j <= i < n ==> before[i] == Operator::Div && self.current@[i] == Operator::Add,
                stepped ==> place_of(self.current@) == place_of(before) + 1,
                self.finished == false,
            decreases j + (if stepped { 0int } else { 1int }),
        {
            j -= 1;
            let following = match self.current[j] {
                Operator::Add => Some(Operator::Sub),
                Operator::Sub => Some(Operator::Mul),
                Operator::Mul => Some(Operator::Div),
                Operator::Div => None,
            };
            match following {
                Some(op) => {
                    self.current.set(j, op);
                    stepped = true;
                    proof {
                        lemma_step(before, self.current@, j as int);
                    }
                },
                None => {
                    self.current.set(j, Operator::Add);
                },
            }
        }
        if !stepped {
            self.finished = true;
            proof {
                lemma_last(before);
                assert(all.skip(place as int).len() == 1);
                assert(all.skip(place as int).drop_first() =~= Seq::<Seq<Operator>>::empty());
            }
        } else {
            proof {
                lemma_place_of(self.current@);
                assert(all.skip(place as int).drop_first() =~= all.skip(place as int + 1));
            }
        }
        Some(out)
    }
}

} // verus!
