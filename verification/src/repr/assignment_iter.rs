//! All total assignments to a number of variables, in the order of a binary
//! counter whose lowest digit is the variable numbered 0.

use vstd::prelude::*;

verus! {

/// Every variable is true.
pub open spec fn all_true(a: Seq<bool>) -> bool {
    forall|i: int| 0 <= i < a.len() ==> a[i]
}

/// The assignment that makes each of `n` variables false.
pub open spec fn all_false(n: nat) -> Seq<bool> {
    Seq::new(n, |i: int| false)
}

/// The assignment that follows `a`: a variable changes its value if all
/// variables before it are true.
pub open spec fn incremented(a: Seq<bool>) -> Seq<bool> {
    Seq::new(a.len(), |i: int| a[i] != all_true(a.take(i)))
}

/// 2 to the power of `n`.
pub open spec fn pow2(n: nat) -> nat
    decreases n,
{
    if n == 0 {
        1
    } else {
        2 * pow2((n - 1) as nat)
    }
}

/// The number that the assignment is the binary code of, the variable
/// numbered 0 being the lowest digit.
pub open spec fn code(a: Seq<bool>) -> nat
    decreases a.len(),
{
    if a.len() == 0 {
        0
    } else {
        (if a[0] {
            1nat
        } else {
            0nat
        }) + 2 * code(a.drop_first())
    }
}

/// The assignment to `n` variables whose code is `k`, for `k` below
/// `pow2(n)`.
pub open spec fn assignment_of(k: nat, n: nat) -> Seq<bool>
    decreases n,
{
    if n == 0 {
        Seq::empty()
    } else {
        seq![k % 2 == 1] + assignment_of(k / 2, (n - 1) as nat)
    }
}

pub proof fn lemma_assignment_of_len(k: nat, n: nat)
    ensures
        assignment_of(k, n).len() == n,
    decreases n,
{
    if n > 0 {
        lemma_assignment_of_len(k / 2, (n - 1) as nat);
    }
}

/// Every assignment has a code below `pow2` of its length, and is the
/// assignment of that code.
pub proof fn lemma_code_of_assignment(a: Seq<bool>)
    ensures
        code(a) < pow2(a.len()),
        assignment_of(code(a), a.len()) == a,
    decreases a.len(),
{
    if a.len() > 0 {
        let rest = a.drop_first();
        lemma_code_of_assignment(rest);
        let k = code(a);
        assert(k / 2 == code(rest));
        assert((k % 2 == 1) == a[0]);
        assert(seq![a[0]] + rest =~= a);
    } else {
        assert(assignment_of(0, 0) =~= a);
    }
}

/// Every number below `pow2(n)` is the code of its assignment.
pub proof fn lemma_assignment_of_code(k: nat, n: nat)
    requires
        k < pow2(n),
    ensures
        code(assignment_of(k, n)) == k,
    decreases n,
{
    if n > 0 {
        let rest = assignment_of(k / 2, (n - 1) as nat);
        lemma_assignment_of_code(k / 2, (n - 1) as nat);
        let a = assignment_of(k, n);
        assert(a.drop_first() =~= rest);
        assert(a[0] == (k % 2 == 1));
    }
}

/// The assignment of code 0 makes every variable false.
pub proof fn lemma_assignment_of_zero(n: nat)
    ensures
        assignment_of(0, n) == all_false(n),
    decreases n,
{
    if n > 0 {
        lemma_assignment_of_zero((n - 1) as nat);
        assert(0nat / 2 == 0);
        assert(assignment_of(0, n) =~= all_false(n));
    } else {
        assert(assignment_of(0, n) =~= all_false(n));
    }
}

/// The assignment that makes every variable true is the one of the last
/// code.
pub proof fn lemma_all_true_last(k: nat, n: nat)
    requires
        k < pow2(n),
    ensures
        all_true(assignment_of(k, n)) <==> k + 1 == pow2(n),
    decreases n,
{
    if n > 0 {
        let rest = assignment_of(k / 2, (n - 1) as nat);
        let a = assignment_of(k, n);
        lemma_all_true_last(k / 2, (n - 1) as nat);
        lemma_assignment_of_len(k / 2, (n - 1) as nat);
        assert(a[0] == (k % 2 == 1));
        assert(a.drop_first() =~= rest);
        if all_true(a) {
            assert(a[0]);
            assert forall|i: int| 0 <= i < rest.len() implies rest[i] by {
                assert(a[i + 1]);
            }
        }
        if k + 1 == pow2(n) {
            assert forall|i: int| 0 <= i < a.len() implies a[i] by {
                if i > 0 {
                    assert(rest[i - 1]);
                }
            }
        }
    }
}

/// Following the assignment of a code gives the assignment of the next
/// code.
pub proof fn lemma_incremented(k: nat, n: nat)
    requires
        k + 1 < pow2(n),
    ensures
        incremented(assignment_of(k, n)) == assignment_of(k + 1, n),
    decreases n,
{
    if n > 0 {
        let a = assignment_of(k, n);
        let rest = assignment_of(k / 2, (n - 1) as nat);
        let b = assignment_of(k + 1, n);
        lemma_assignment_of_len(k, n);
        lemma_assignment_of_len(k + 1, n);
        lemma_assignment_of_len(k / 2, (n - 1) as nat);
        assert(a.drop_first() =~= rest);
        assert(a[0] == (k % 2 == 1));
        assert(a.take(0) =~= Seq::<bool>::empty());
        if k % 2 == 0 {
            assert((k + 1) / 2 == k / 2);
            assert forall|i: int| 0 <= i < n implies incremented(a)[i] == b[i] by {
                if i > 0 {
                    assert(a.take(i)[0] == a[0]);
                    assert(!all_true(a.take(i)));
                    assert(b[i] == rest[i - 1]);
                }
            }
        } else {
            assert((k + 1) / 2 == k / 2 + 1);
            lemma_incremented(k / 2, (n - 1) as nat);
            let rest2 = assignment_of(k / 2 + 1, (n - 1) as nat);
            assert forall|i: int| 0 <= i < n implies incremented(a)[i] == b[i] by {
                if i > 0 {
                    assert(b[i] == rest2[i - 1]);
                    assert(rest2[i - 1] == incremented(rest)[i - 1]);
                    assert(a.take(i).drop_first() =~= rest.take(i - 1));
                    let p = a.take(i);
                    let q = rest.take(i - 1);
                    if all_true(p) {
                        assert forall|j: int| 0 <= j < q.len() implies q[j] by {
                            assert(p[j + 1]);
                        }
                    }
                    if all_true(q) {
                        assert forall|j: int| 0 <= j < p.len() implies p[j] by {
                            if j > 0 {
                                assert(q[j - 1]);
                            }
                        }
                    }
                    assert(all_true(p) == all_true(q));
                }
            }
        }
        assert(incremented(a) =~= b);
    }
}

/// A copy of the assignment.
fn copy_assignment(v: &Vec<bool>) -> (r: Vec<bool>)
    ensures
        r@ == v@,
{
    let mut r: Vec<bool> = Vec::new();
    let mut i: usize = 0;
    while i < v.len()
        invariant
            i <= v.len(),
            r@ == v@.take(i as int),
        decreases v.len() - i,
    {
        r.push(v[i]);
        i += 1;
    }
    r
}

/// The assignment that the iterator over `n` variables has reached with
/// its call numbered `k`, counted from 0: the one that makes every
/// variable false, followed `k` times.
pub open spec fn reached(n: nat, k: nat) -> Seq<bool>
    decreases k,
{
    if k == 0 {
        all_false(n)
    } else {
        incremented(reached(n, (k - 1) as nat))
    }
}

/// What the call numbered `k`, counted from 0, of the iterator over `n`
/// variables hands back, by the contract of `next`: the assignment that it
/// has reached, unless the one before made every variable true.
pub open spec fn yielded(n: nat, k: nat) -> Option<Seq<bool>> {
    if k > 0 && all_true(reached(n, (k - 1) as nat)) {
        None
    } else {
        Some(reached(n, k))
    }
}

/// The enumeration is complete: the iterator over `n` variables hands
/// back, with its call numbered `k`, the assignment whose binary code is
/// `k`, for each `k` below `pow2(n)`, and nothing with the call after
/// those; and every assignment to `n` variables is the one of just one
/// code below `pow2(n)`, so that each is handed back once.
pub proof fn lemma_enumeration(n: nat, k: nat)
    requires
        k <= pow2(n),
    ensures
        k < pow2(n) ==> reached(n, k) == assignment_of(k, n) && yielded(n, k) == Some(
            assignment_of(k, n),
        ),
        k == pow2(n) ==> yielded(n, k) is None,
        forall|a: Seq<bool>|
            #![trigger code(a)]
            a.len() == n ==> code(a) < pow2(n) && assignment_of(code(a), n) == a,
        forall|i: nat, j: nat|
            i < pow2(n) && j < pow2(n) && #[trigger] assignment_of(i, n) == #[trigger] assignment_of(
                j,
                n,
            ) ==> i == j,
    decreases k,
{
    assert forall|a: Seq<bool>| #![trigger code(a)] a.len() == n implies code(a) < pow2(n)
        && assignment_of(code(a), n) == a by {
        lemma_code_of_assignment(a);
    }
    assert(pow2(n) >= 1) by {
        lemma_code_of_assignment(all_false(n));
    }
    assert forall|i: nat, j: nat|
        i < pow2(n) && j < pow2(n) && #[trigger] assignment_of(i, n) == #[trigger] assignment_of(
            j,
            n,
        ) implies i == j by {
        lemma_assignment_of_code(i, n);
        lemma_assignment_of_code(j, n);
    }
    if k == 0 {
        lemma_assignment_of_zero(n);
    } else {
        let before = (k - 1) as nat;
        lemma_enumeration(n, before);
        lemma_all_true_last(before, n);
        if k < pow2(n) {
            lemma_incremented(before, n);
        }
    }
}

/// Goes through the total assignments to a number of variables: first the
/// one that makes every variable false, then each time the one that follows,
/// until the one that makes every variable true has been reached.
pub struct AssignmentIter {
    cur: Option<Vec<bool>>,
    num_vars: usize,
}

impl AssignmentIter {
    /// The assignment that was reached last, if any.
    pub closed spec fn cur(&self) -> Option<Seq<bool>> {
        match self.cur {
            Some(v) => Some(v@),
            None => None,
        }
    }

    /// The number of variables.
    pub closed spec fn width(&self) -> nat {
        self.num_vars as nat
    }

    pub fn new(num_vars: usize) -> (r: AssignmentIter)
        ensures
            r.cur() is None,
            r.width() == num_vars,
    {
        AssignmentIter { cur: None, num_vars }
    }

    /// The next assignment; `None` once the last one has been passed.
    pub fn next(&mut self) -> (r: Option<Vec<bool>>)
        ensures
            final(self).width() == old(self).width(),
            old(self).cur() is None ==> final(self).cur() == Some(all_false(old(self).width()))
                && r.is_some() && r.unwrap()@ == all_false(old(self).width()),
            old(self).cur() matches Some(a) ==> final(self).cur() == Some(incremented(a)) && (
            all_true(a) ==> r is None) && (!all_true(a) ==> r.is_some() && r.unwrap()@
                == incremented(a)),
    {
        if self.cur.is_none() {
            let mut first: Vec<bool> = Vec::new();
            let mut i: usize = 0;
            while i < self.num_vars
                invariant
                    i <= self.num_vars,
                    first@ == all_false(i as nat),
                decreases self.num_vars - i,
            {
                first.push(false);
                assert(first@ =~= all_false((i + 1) as nat));
                i += 1;
            }
            let r = copy_assignment(&first);
            self.cur = Some(first);
            Some(r)
        } else {
            // a binary increment of the current state
            let cur = self.cur.as_ref().unwrap();
            let ghost a = cur@;
            let mut new_c: Vec<bool> = Vec::new();
            let mut carry = true;
            let mut i: usize = 0;
            while i < cur.len()
                invariant
                    i <= cur.len(),
                    a == cur@,
                    new_c@.len() == i,
                    carry == all_true(a.take(i as int)),
                    forall|j: int| 0 <= j < i ==> new_c@[j] == (a[j] != all_true(a.take(j))),
                decreases cur.len() - i,
            {
                // half-adder
                let cur_assgn = cur[i];
                let new_itm = cur_assgn ^ carry;
                let new_carry = cur_assgn && carry;
                proof {
                    let p = a.take(i as int);
                    let q = a.take(i + 1);
                    if all_true(q) {
                        assert forall|j: int| 0 <= j < p.len() implies p[j] by {
                            assert(q[j]);
                        }
                        assert(q[i as int]);
                    }
                    if all_true(p) && a[i as int] {
                        assert forall|j: int| 0 <= j < q.len() implies q[j] by {
                            if j < i {
                                assert(p[j]);
                            }
                        }
                    }
                }
                new_c.push(new_itm);
                carry = new_carry;
                i += 1;
            }
            proof {
                assert(a.take(a.len() as int) =~= a);
                assert(new_c@ =~= incremented(a));
            }
            let r = copy_assignment(&new_c);
            self.cur = Some(new_c);
            if carry {
                None
            } else {
                Some(r)
            }
        }
    }
}

} // verus!
