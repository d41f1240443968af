//! Every ordering of a list of tokens, in lexicographic order of positions.

use vstd::arithmetic::div_mod::{lemma_fundamental_div_mod, lemma_mod_bound, lemma_multiply_divide_lt};
use vstd::prelude::*;
use vstd::seq_lib::{to_multiset_insert, to_multiset_len, to_multiset_remove};

verus! {

/// `n!`.
pub open spec fn factorial(n: nat) -> nat
    decreases n,
{
    if n == 0 {
        1
    } else {
        n * factorial((n - 1) as nat)
    }
}

/// Every ordering of `s`: for each position in turn, the item at that
/// position followed by every ordering of the others.
pub open spec fn permutations<T>(s: Seq<T>) -> Seq<Seq<T>>
    decreases s.len(), s.len() + 1,
{
    if s.len() == 0 {
        seq![Seq::empty()]
    } else {
        permutations_from(s, 0)
    }
}

/// The orderings of `s` that start with the item at position `i` or at a
/// later one.
pub open spec fn permutations_from<T>(s: Seq<T>, i: nat) -> Seq<Seq<T>>
    decreases s.len(), s.len() - i,
{
    if i >= s.len() {
        Seq::empty()
    } else {
        permutations(s.remove(i as int)).map_values(|p: Seq<T>| seq![s[i as int]] + p)
            + permutations_from(s, i + 1)
    }
}

/// No factorial is zero.
pub proof fn lemma_factorial_positive(n: nat)
    ensures
        factorial(n) > 0,
    decreases n,
{
    if n > 0 {
        lemma_factorial_positive((n - 1) as nat);
        assert(n * factorial((n - 1) as nat) > 0) by (nonlinear_arith)
            requires
                n > 0,
                factorial((n - 1) as nat) > 0,
        ;
    }
}

/// There are `n!` orderings of `n` items.
pub proof fn lemma_permutations_len<T>(s: Seq<T>)
    ensures
        permutations(s).len() == factorial(s.len()),
    decreases s.len(), s.len() + 1,
{
    if s.len() > 0 {
        lemma_permutations_from_len(s, 0);
    }
}

proof fn lemma_permutations_from_len<T>(s: Seq<T>, i: nat)
    requires
        i <= s.len(),
    ensures
        permutations_from(s, i).len() == (s.len() - i) * factorial((s.len() - 1) as nat),
    decreases s.len(), s.len() - i,
{
    if i < s.len() {
        lemma_permutations_len(s.remove(i as int));
        lemma_permutations_from_len(s, i + 1);
        let f = factorial((s.len() - 1) as nat) as int;
        let n = s.len() as int;
        assert((n - i) * f == f + (n - (i + 1)) * f) by (nonlinear_arith);
    } else {
        assert((s.len() - i) * factorial((s.len() - 1) as nat) == 0) by (nonlinear_arith)
            requires
                s.len() - i == 0,
        ;
    }
}

/// The ordering at place `q * (n-1)! + r` starts with the item at position
/// `q` and goes on with the `r`-th ordering of the others.
pub proof fn lemma_permutations_index<T>(s: Seq<T>, q: nat, r: nat)
    requires
        q < s.len(),
        r < factorial((s.len() - 1) as nat),
    ensures
        q * factorial((s.len() - 1) as nat) + r < permutations(s).len(),
        permutations(s)[(q * factorial((s.len() - 1) as nat) + r) as int] == seq![s[q as int]]
            + permutations(s.remove(q as int))[r as int],
{
    lemma_permutations_from_index(s, 0, q, r);
    assert((q - 0) * factorial((s.len() - 1) as nat) == q * factorial((s.len() - 1) as nat));
}

proof fn lemma_permutations_from_index<T>(s: Seq<T>, i: nat, q: nat, r: nat)
    requires
        i <= q < s.len(),
        r < factorial((s.len() - 1) as nat),
    ensures
        (q - i) * factorial((s.len() - 1) as nat) + r < permutations_from(s, i).len(),
        permutations_from(s, i)[(q - i) * factorial((s.len() - 1) as nat) + r] == seq![
            s[q as int],
        ] + permutations(s.remove(q as int))[r as int],
    decreases q - i,
{
    let f = factorial((s.len() - 1) as nat) as int;
    let n = s.len() as int;
    lemma_permutations_from_len(s, i);
    lemma_permutations_from_len(s, i + 1);
    lemma_permutations_len(s.remove(i as int));
    let head = permutations(s.remove(i as int)).map_values(|p: Seq<T>| seq![s[i as int]] + p);
    assert(head.len() == f);
    assert((q - i) * f + r < (n - i) * f) by (nonlinear_arith)
        requires
            i <= q < n,
            0 <= r < f,
    ;
    if q == i {
        assert((q - i) * f == 0) by (nonlinear_arith)
            requires
                q - i == 0,
        ;
    } else {
        lemma_permutations_from_index(s, i + 1, q, r);
        assert((q - i) * f + r == f + ((q - (i + 1)) * f + r)) by (nonlinear_arith);
        assert((q - (i + 1)) * f >= 0) by (nonlinear_arith)
            requires
                q - (i + 1) >= 0,
                f >= 0,
        ;
    }
}

/// A place below `n!` splits into the position of the first item and a
/// place among the orderings of the others.
pub proof fn lemma_place_split(n: nat, k: int)
    requires
        n > 0,
        0 <= k < factorial(n),
    ensures
        0 <= k / (factorial((n - 1) as nat) as int) < n,
        0 <= k % (factorial((n - 1) as nat) as int) < factorial((n - 1) as nat),
        k == (k / (factorial((n - 1) as nat) as int)) * factorial((n - 1) as nat) + k % (factorial(
            (n - 1) as nat,
        ) as int),
{
    let f = factorial((n - 1) as nat) as int;
    lemma_factorial_positive((n - 1) as nat);
    lemma_fundamental_div_mod(k, f);
    lemma_mod_bound(k, f);
    assert(f * n == n * f) by (nonlinear_arith);
    lemma_multiply_divide_lt(k, f, n as int);
    assert(k / f >= 0) by (nonlinear_arith)
        requires
            k >= 0,
            f > 0,
    ;
    assert(f * (k / f) == (k / f) * f) by (nonlinear_arith);
}

/// Every ordering that is listed holds the items of `s`, each as often as
/// `s` does.
pub proof fn lemma_permutation_is_rearrangement<T>(s: Seq<T>, k: int)
    requires
        0 <= k < permutations(s).len(),
    ensures
        permutations(s)[k].len() == s.len(),
        permutations(s)[k].to_multiset() == s.to_multiset(),
    decreases s.len(),
{
    lemma_permutations_len(s);
    if s.len() == 0 {
        assert(permutations(s)[k] =~= s);
    } else {
        let f = factorial((s.len() - 1) as nat) as int;
        lemma_place_split(s.len(), k);
        let q = k / f;
        let r = k % f;
        let rest = s.remove(q);
        lemma_permutations_index(s, q as nat, r as nat);
        lemma_permutations_len(rest);
        lemma_permutation_is_rearrangement(rest, r);
        let p = permutations(rest)[r];
        assert(seq![s[q]] + p =~= p.insert(0, s[q]));
        to_multiset_insert(p, 0, s[q]);
        to_multiset_remove(s, q);
        s.to_multiset_ensures();
        assert(s.contains(s[q]));
        assert(s.to_multiset().remove(s[q]).insert(s[q]) =~= s.to_multiset());
    }
}

/// Where no token occurs twice, no ordering is listed twice.
pub proof fn lemma_permutations_distinct<T>(s: Seq<T>)
    requires
        s.no_duplicates(),
    ensures
        permutations(s).no_duplicates(),
    decreases s.len(),
{
    lemma_permutations_len(s);
    let all = permutations(s);
    if s.len() > 0 {
        let f = factorial((s.len() - 1) as nat) as int;
        assert forall|k1: int, k2: int|
            0 <= k1 < all.len() && 0 <= k2 < all.len() && k1 != k2 implies all[k1] != all[k2] by {
            lemma_place_split(s.len(), k1);
            lemma_place_split(s.len(), k2);
            let q1 = k1 / f;
            let r1 = k1 % f;
            let q2 = k2 / f;
            let r2 = k2 % f;
            lemma_permutations_index(s, q1 as nat, r1 as nat);
            lemma_permutations_index(s, q2 as nat, r2 as nat);
            let one = permutations(s.remove(q1))[r1];
            let other = permutations(s.remove(q2))[r2];
            if q1 != q2 {
                assert((seq![s[q1]] + one)[0] == s[q1]);
                assert((seq![s[q2]] + other)[0] == s[q2]);
            } else {
                let rest = s.remove(q1);
                assert(rest.no_duplicates()) by {
                    assert forall|i: int, j: int|
                        0 <= i < rest.len() && 0 <= j < rest.len() && i != j implies rest[i]
                        != rest[j] by {
                        let si = if i < q1 { i } else { i + 1 };
                        let sj = if j < q1 { j } else { j + 1 };
                        assert(rest[i] == s[si] && rest[j] == s[sj]);
                    }
                }
                lemma_permutations_distinct(rest);
                lemma_permutations_len(rest);
                assert(one != other);
                assert((seq![s[q1]] + one).drop_first() =~= one);
                assert((seq![s[q1]] + other).drop_first() =~= other);
            }
        }
    }
}

/// Every ordering of the items of `s` is listed.
pub proof fn lemma_permutations_complete<T>(s: Seq<T>, p: Seq<T>)
    requires
        p.to_multiset() == s.to_multiset(),
    ensures
        permutations(s).contains(p),
    decreases s.len(),
{
    to_multiset_len(s);
    to_multiset_len(p);
    lemma_permutations_len(s);
    if s.len() == 0 {
        assert(p =~= Seq::<T>::empty());
        assert(permutations(s)[0] == p);
    } else {
        let x = p[0];
        p.to_multiset_ensures();
        s.to_multiset_ensures();
        assert(p.contains(x));
        assert(p.to_multiset().count(x) > 0);
        assert(s.to_multiset().count(x) > 0);
        assert(s.contains(x));
        let q = choose|q: int| 0 <= q < s.len() && s[q] == x;
        let rest = s.remove(q);
        let tail = p.drop_first();
        assert(tail =~= p.remove(0));
        to_multiset_remove(p, 0);
        to_multiset_remove(s, q);
        lemma_permutations_complete(rest, tail);
        let r = choose|r: int| 0 <= r < permutations(rest).len() && permutations(rest)[r] == tail;
        lemma_permutations_len(rest);
        lemma_permutations_index(s, q as nat, r as nat);
        assert(seq![x] + tail =~= p);
    }
}

/// Whether `code` is the digit string of a place in the list of orderings of
/// `code.len()` items: digit `i` is below the number of items still
/// available at position `i`.
spec fn valid_code(code: Seq<usize>) -> bool {
    forall|i: int| 0 <= i < code.len() ==> code[i] < code.len() - i
}

/// The place that a digit string stands for.
spec fn code_rank(code: Seq<usize>) -> nat
    decreases code.len(),
{
    if code.len() == 0 {
        0
    } else {
        (code[0] * factorial((code.len() - 1) as nat) + code_rank(code.drop_first())) as nat
    }
}

/// The ordering that a digit string selects: digit `i` is the position,
/// among the items not yet taken, of the item that comes `i`-th.
spec fn decode<T>(s: Seq<T>, code: Seq<usize>) -> Seq<T>
    decreases code.len(),
{
    if code.len() == 0 {
        Seq::empty()
    } else {
        seq![s[code[0] as int]] + decode(s.remove(code[0] as int), code.drop_first())
    }
}

proof fn lemma_valid_code_tail(code: Seq<usize>)
    requires
        valid_code(code),
        code.len() > 0,
    ensures
        valid_code(code.drop_first()),
{
    let tail = code.drop_first();
    assert forall|i: int| 0 <= i < tail.len() implies tail[i] < tail.len() - i by {
        assert(tail[i] == code[i + 1]);
    }
}

proof fn lemma_code_rank_bound(code: Seq<usize>)
    requires
        valid_code(code),
    ensures
        code_rank(code) < factorial(code.len()),
    decreases code.len(),
{
    if code.len() > 0 {
        lemma_valid_code_tail(code);
        lemma_code_rank_bound(code.drop_first());
        let f = factorial((code.len() - 1) as nat) as int;
        let d = code[0] as int;
        let n = code.len() as int;
        assert(d * f + f <= n * f) by (nonlinear_arith)
            requires
                0 <= d < n,
                f >= 0,
        ;
    }
}

/// A valid digit string selects the ordering at the place it stands for.
proof fn lemma_decode_is_nth<T>(s: Seq<T>, code: Seq<usize>)
    requires
        valid_code(code),
        code.len() == s.len(),
    ensures
        code_rank(code) < permutations(s).len(),
        decode(s, code) == permutations(s)[code_rank(code) as int],
    decreases code.len(),
{
    lemma_permutations_len(s);
    lemma_code_rank_bound(code);
    if code.len() > 0 {
        let tail = code.drop_first();
        let rest = s.remove(code[0] as int);
        lemma_valid_code_tail(code);
        lemma_code_rank_bound(tail);
        lemma_decode_is_nth(rest, tail);
        lemma_permutations_index(s, code[0] as nat, code_rank(tail));
    }
}

/// Stepping a digit string: the digits after position `j` are at their
/// highest and fall back to zero, digit `j` goes up by one, and the place
/// goes up by one.
proof fn lemma_code_step(code: Seq<usize>, next: Seq<usize>, j: int)
    requires
        valid_code(code),
        0 <= j < code.len(),
        next.len() == code.len(),
        code[j] + 1 < code.len() - j,
        next[j] == code[j] + 1,
        forall|i: int| 0 <= i < j ==> next[i] == code[i],
        forall|i: int| j < i < code.len() ==> code[i] == code.len() - i - 1 && next[i] == 0,
    ensures
        valid_code(next),
        code_rank(next) == code_rank(code) + 1,
    decreases code.len(),
{
    let f = factorial((code.len() - 1) as nat) as int;
    if j == 0 {
        lemma_code_last(code.drop_first());
        lemma_code_zero(next.drop_first());
        assert((code[0] + 1) * f == code[0] * f + f) by (nonlinear_arith);
        lemma_factorial_positive((code.len() - 1) as nat);
    } else {
        lemma_valid_code_tail(code);
        lemma_code_step(code.drop_first(), next.drop_first(), j - 1);
        lemma_code_tail_valid_back(next, code[0]);
    }
}

proof fn lemma_code_tail_valid_back(code: Seq<usize>, head: usize)
    requires
        code.len() > 0,
        code[0] == head,
        head < code.len(),
        valid_code(code.drop_first()),
    ensures
        valid_code(code),
{
    let tail = code.drop_first();
    assert forall|i: int| 0 <= i < code.len() implies code[i] < code.len() - i by {
        if i > 0 {
            assert(code[i] == tail[i - 1]);
        }
    }
}

/// The digit string of zeros stands for the first place.
proof fn lemma_code_zero(code: Seq<usize>)
    requires
        forall|i: int| 0 <= i < code.len() ==> code[i] == 0,
    ensures
        code_rank(code) == 0,
        valid_code(code),
    decreases code.len(),
{
    if code.len() > 0 {
        lemma_code_zero(code.drop_first());
        assert(0 * factorial((code.len() - 1) as nat) == 0);
    }
}

/// The digit string with every digit at its highest stands for the last
/// place.
proof fn lemma_code_last(code: Seq<usize>)
    requires
        forall|i: int| 0 <= i < code.len() ==> code[i] == code.len() - i - 1,
    ensures
        code_rank(code) + 1 == factorial(code.len()),
    decreases code.len(),
{
    if code.len() > 0 {
        let tail = code.drop_first();
        assert forall|i: int| 0 <= i < tail.len() implies tail[i] == tail.len() - i - 1 by {
            assert(tail[i] == code[i + 1]);
        }
        lemma_code_last(tail);
        let f = factorial((code.len() - 1) as nat) as int;
        let n = code.len() as int;
        assert((n - 1) * f + f == n * f) by (nonlinear_arith);
    }
}

/// One ordering of tokens.
#[derive(Debug, Clone, PartialEq, Eq)]
pub struct NumberReplacer {
    pub numbers: Vec<u32>,
}

impl NumberReplacer {
    /// The ordering that lists `numbers`.
    pub fn new(numbers: Vec<u32>) -> (r: Self)
        ensures
            r.numbers == numbers,
    {
        NumberReplacer { numbers }
    }

    /// Whether every number names a position of a list of `len` entries,
    /// counted from one.
    pub open spec fn names_positions(&self, len: nat) -> bool {
        forall|i: int| 0 <= i < self.numbers@.len() ==> 1 <= #[trigger] self.numbers@[i] <= len
    }

    /// The entries of `values` that the numbers name, in the order of the
    /// numbers: the number `n` names the `n`-th entry, counted from one.
    pub fn apply<T: Clone>(&self, values: Vec<T>) -> (out: Vec<T>)
        requires
            self.names_positions(values@.len()),
        ensures
            out@.len() == self.numbers@.len(),
            forall|i: int|
                0 <= i < out@.len() ==> cloned(values@[self.numbers@[i] - 1], #[trigger] out@[i]),
    {
        let mut out: Vec<T> = Vec::new();
        let mut i: usize = 0;
        while i < self.numbers.len()
            invariant
                i <= self.numbers@.len(),
                self.names_positions(values@.len()),
                out@.len() == i,
                forall|k: int|
                    0 <= k < i ==> cloned(values@[self.numbers@[k] - 1], #[trigger] out@[k]),
            decreases self.numbers@.len() - i,
        {
            let n = self.numbers[i];
            out.push(values[n as usize - 1].clone());
            i += 1;
        }
        out
    }
}

/// A generator of every ordering of a list of tokens. Tokens are told apart
/// by their positions, so equal tokens make equal orderings. A fresh
/// generator over the same tokens yields the same orderings in the same
/// order.
pub struct NumberReplacerIter {
    numbers: Vec<u32>,
    code: Vec<usize>,
    finished: bool,
}

impl NumberReplacerIter {
    #[verifier::type_invariant]
    spec fn well_formed(&self) -> bool {
        &&& self.code@.len() == self.numbers@.len()
        &&& valid_code(self.code@)
    }

    /// The tokens that are ordered.
    pub closed spec fn tokens(&self) -> Seq<u32> {
        self.numbers@
    }

    /// The orderings still to come, in the order in which they will come.
    pub closed spec fn remaining(&self) -> Seq<Seq<u32>> {
        if self.finished {
            Seq::empty()
        } else {
            permutations(self.numbers@).skip(code_rank(self.code@) as int)
        }
    }

    /// A generator that has yet to yield every ordering of `numbers`.
    pub fn new(numbers: Vec<u32>) -> (it: Self)
        ensures
            it.tokens() == numbers@,
            it.remaining() == permutations(numbers@),
    {
        let n = numbers.len();
        let mut code: Vec<usize> = Vec::new();
        while code.len() < n
            invariant
                code@.len() <= n,
                forall|i: int| 0 <= i < code@.len() ==> code@[i] == 0,
            decreases n - code@.len(),
        {
            code.push(0);
        }
        proof {
            lemma_code_zero(code@);
            assert(permutations(numbers@).skip(0) =~= permutations(numbers@));
        }
        NumberReplacerIter { numbers, code, finished: false }
    }

    /// Yields the next ordering, or `None` once all have been yielded.
    pub fn next(&mut self) -> (r: Option<NumberReplacer>)
        ensures
            final(self).tokens() == old(self).tokens(),
            old(self).remaining().len() == 0 ==> r is None && final(self).remaining() == old(
                self,
            ).remaining(),
            old(self).remaining().len() > 0 ==> r is Some && r->0.numbers@ == old(
                self,
            ).remaining()[0] && final(self).remaining() == old(self).remaining().drop_first(),
    {
        proof {
            use_type_invariant(&*self);
            lemma_decode_is_nth(self.numbers@, self.code@);
        }
        if self.finished {
            return None;
        }
        let ghost all = permutations(self.numbers@);
        let ghost place = code_rank(self.code@);
        let n = self.numbers.len();
        // The ordering that the digits select.
        let mut avail = self.numbers.clone();
        let mut out: Vec<u32> = Vec::new();
        let mut i: usize = 0;
        assert(avail@ =~= self.numbers@);
        assert(self.code@.skip(0) =~= self.code@);
        assert(out@ + decode(avail@, self.code@.skip(0)) =~= decode(self.numbers@, self.code@));
        while i < n
            invariant
                i <= n,
                n == self.code@.len(),
                valid_code(self.code@),
                avail@.len() == n - i,
                out@ + decode(avail@, self.code@.skip(i as int)) == decode(
                    self.numbers@,
                    self.code@,
                ),
            decreases n - i,
        {
            let d = self.code[i];
            proof {
                let rest = self.code@.skip(i as int);
                assert(rest[0] == d);
                assert(rest.drop_first() =~= self.code@.skip(i + 1));
                assert(out@.push(avail@[d as int]) + decode(
                    avail@.remove(d as int),
                    self.code@.skip(i + 1),
                ) =~= out@ + decode(avail@, rest));
            }
            let t = avail.remove(d);
            out.push(t);
            i += 1;
        }
        proof {
            assert(self.code@.skip(n as int).len() == 0);
            assert(out@ =~= decode(self.numbers@, self.code@));
        }
        // The digits of the next place.
        let ghost before = self.code@;
        let mut code = self.code.clone();
        assert(code@ =~= before);
        let mut j: usize = n;
        let mut stepped = false;
        while j > 0 && !stepped
            invariant
                j <= n,
                n == code@.len(),
                n == before.len(),
                valid_code(before),
                valid_code(code@),
                !stepped ==> forall|i: int| 0 <= i < j ==> code@[i] == before[i],
                !stepped ==> forall|i: int| j <= i < n ==> before[i] == n - i - 1 && code@[i] == 0,
                stepped ==> code_rank(code@) == code_rank(before) + 1,
            decreases j + (if stepped { 0int } else { 1int }),
        {
            j -= 1;
            let d = code[j];
            let ghost digits = code@;
            if d + 1 < n - j {
                code.set(j, d + 1);
                stepped = true;
                proof {
                    let after = code@;
                    assert forall|i: int| j < i < before.len() implies before[i] == before.len()
                        - i - 1 && after[i] == 0 by {
                        assert(after[i] == digits[i]);
                    }
                    assert forall|i: int| 0 <= i < j implies after[i] == before[i] by {
                        assert(after[i] == digits[i]);
                    }
                    assert(after[j as int] == before[j as int] + 1);
                    lemma_code_step(before, code@, j as int);
                }
            } else {
                code.set(j, 0);
            }
        }
        self.code = code;
        proof {
            lemma_permutations_len(self.numbers@);
            lemma_code_rank_bound(before);
        }
        if !stepped {
            self.finished = true;
            proof {
                lemma_code_last(before);
                assert(all.skip(place as int).len() == 1);
                assert(all.skip(place as int).drop_first() =~= Seq::<Seq<u32>>::empty());
            }
        } else {
            proof {
                assert(all.skip(place as int).drop_first() =~= all.skip(place as int + 1));
            }
        }
        Some(NumberReplacer { numbers: out })
    }
}

} // verus!
