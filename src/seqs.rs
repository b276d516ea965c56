use vstd::prelude::*;
use crate::types::Account;

verus! {

/// The sum of a sequence of integers.
pub open spec fn sum(s: Seq<int>) -> int
    decreases s.len(),
{
    if s.len() == 0 {
        0
    } else {
        sum(s.drop_last()) + s.last()
    }
}

/// A sequence of `i128` read as mathematical integers.
pub open spec fn as_ints(s: Seq<i128>) -> Seq<int> {
    s.map_values(|x: i128| x as int)
}

/// How many times `x` occurs in `s`.
pub open spec fn count_of<A>(s: Seq<A>, x: A) -> nat
    decreases s.len(),
{
    if s.len() == 0 {
        0
    } else {
        count_of(s.drop_last(), x) + if s.last() == x { 1nat } else { 0nat }
    }
}

/// No element occurs twice.
pub open spec fn distinct<A>(s: Seq<A>) -> bool {
    forall|i: int, j: int| 0 <= i < s.len() && 0 <= j < s.len() && i != j ==> s[i] != s[j]
}

/// The position of the first occurrence of `x` in `s`, or `s.len()` when there is none.
pub open spec fn first_pos<A>(s: Seq<A>, x: A) -> int
    decreases s.len(),
{
    if s.len() == 0 {
        0
    } else if s[0] == x {
        0
    } else {
        1 + first_pos(s.drop_first(), x)
    }
}

pub proof fn lemma_sum_update(s: Seq<int>, j: int, x: int)
    requires
        0 <= j < s.len(),
    ensures
        sum(s.update(j, x)) == sum(s) - s[j] + x,
    decreases s.len(),
{
    let t = s.update(j, x);
    if j == s.len() - 1 {
        assert(t.drop_last() =~= s.drop_last());
    } else {
        lemma_sum_update(s.drop_last(), j, x);
        assert(t.drop_last() =~= s.drop_last().update(j, x));
    }
}

pub proof fn lemma_first_pos<A>(s: Seq<A>, x: A)
    ensures
        0 <= first_pos(s, x) <= s.len(),
        first_pos(s, x) < s.len() <==> s.contains(x),
        first_pos(s, x) < s.len() ==> s[first_pos(s, x)] == x,
        forall|i: int| 0 <= i < first_pos(s, x) ==> s[i] != x,
    decreases s.len(),
{
    if s.len() > 0 && s[0] != x {
        lemma_first_pos(s.drop_first(), x);
        if s.contains(x) {
            let k = choose|k: int| 0 <= k < s.len() && s[k] == x;
            assert(s.drop_first()[k - 1] == x);
        }
        assert forall|i: int| 0 <= i < first_pos(s, x) implies s[i] != x by {
            if i > 0 {
                assert(s[i] == s.drop_first()[i - 1]);
            }
        }
    } else if s.len() > 0 {
        assert(s[0] == x);
    }
}

/// In a sequence without duplicates the first occurrence of `s[i]` is at `i`.
pub proof fn lemma_distinct_pos<A>(s: Seq<A>, i: int)
    requires
        distinct(s),
        0 <= i < s.len(),
    ensures
        first_pos(s, s[i]) == i,
{
    lemma_first_pos(s, s[i]);
    assert(s.contains(s[i]));
}

/// Whether `a` occurs in `v`.
pub fn contains_account(v: &Vec<Account>, a: Account) -> (r: bool)
    ensures
        r == v@.contains(a),
{
    let mut i: usize = 0;
    while i < v.len()
        invariant
            0 <= i <= v@.len(),
            forall|k: int| 0 <= k < i ==> v@[k] != a,
        decreases v.len() - i,
    {
        if v[i] == a {
            return true;
        }
        i = i + 1;
    }
    false
}

/// The position of the first occurrence of `a` in `v`, if any.
pub fn position_of(v: &Vec<Account>, a: Account) -> (r: Option<usize>)
    ensures
        match r {
            Some(i) => i == first_pos(v@, a) && i < v@.len() && v@[i as int] == a,
            None => !v@.contains(a) && first_pos(v@, a) == v@.len(),
        },
{
    proof {
        lemma_first_pos(v@, a);
    }
    let mut i: usize = 0;
    while i < v.len()
        invariant
            0 <= i <= v@.len(),
            0 <= first_pos(v@, a) <= v@.len(),
            first_pos(v@, a) < v@.len() ==> v@[first_pos(v@, a)] == a,
            forall|k: int| 0 <= k < first_pos(v@, a) ==> v@[k] != a,
            forall|k: int| 0 <= k < i ==> v@[k] != a,
        decreases v.len() - i,
    {
        if v[i] == a {
            return Some(i);
        }
        i = i + 1;
    }
    None
}

/// Whether `x` occurs in `v`.
pub fn contains_id(v: &Vec<u32>, x: u32) -> (r: bool)
    ensures
        r == v@.contains(x),
{
    let mut i: usize = 0;
    while i < v.len()
        invariant
            0 <= i <= v@.len(),
            forall|k: int| 0 <= k < i ==> v@[k] != x,
        decreases v.len() - i,
    {
        if v[i] == x {
            return true;
        }
        i = i + 1;
    }
    false
}

} // verus!

verus! {

/// Whether an integer lies in the range that stored balances keep to: that of `i128`
/// without its least value, so that every balance can be negated.
pub open spec fn fits(x: int) -> bool {
    -(i128::MAX as int) <= x <= i128::MAX as int
}

/// The position of `a` in `v`, where `a` is known to occur there.
pub fn index_in(v: &Vec<Account>, a: Account) -> (r: usize)
    requires
        v@.contains(a),
    ensures
        r == first_pos(v@, a),
        r < v@.len(),
        v@[r as int] == a,
{
    proof {
        lemma_first_pos(v@, a);
    }
    let mut i: usize = 0;
    while i < v.len()
        invariant
            0 <= i <= first_pos(v@, a) < v@.len(),
            v@[first_pos(v@, a)] == a,
            forall|k: int| 0 <= k < first_pos(v@, a) ==> v@[k] != a,
        decreases v.len() - i,
    {
        if v[i] == a {
            return i;
        }
        i = i + 1;
    }
    i
}

} // verus!
