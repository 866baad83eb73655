//! First occurrence of an element in a sequence.
use vstd::prelude::*;
use vstd::laws_eq::obeys_concrete_eq;

verus! {

/// The index of the first occurrence of `x` in `s`, or -1 when `x` does not occur.
pub open spec fn first_pos<T>(s: Seq<T>, x: T) -> int
    decreases s.len(),
{
    if s.len() == 0 {
        -1
    } else if s[0] == x {
        0
    } else {
        let r = first_pos(s.drop_first(), x);
        if r < 0 {
            -1
        } else {
            r + 1
        }
    }
}

/// `first_pos` finds the first occurrence, and finds one whenever there is one.
pub proof fn lemma_first_pos<T>(s: Seq<T>, x: T)
    ensures
        -1 <= first_pos(s, x) < s.len(),
        first_pos(s, x) >= 0 <==> s.contains(x),
        first_pos(s, x) >= 0 ==> s[first_pos(s, x)] == x,
        forall|j: int| 0 <= j < first_pos(s, x) ==> s[j] != x,
        first_pos(s, x) < 0 ==> forall|j: int| 0 <= j < s.len() ==> s[j] != x,
    decreases s.len(),
{
    if s.len() > 0 {
        lemma_first_pos(s.drop_first(), x);
        if s[0] != x {
            if s.drop_first().contains(x) {
                let j = choose|j: int| 0 <= j < s.drop_first().len() && s.drop_first()[j] == x;
                assert(s[j + 1] == x);
            }
            if s.contains(x) {
                let j = choose|j: int| 0 <= j < s.len() && s[j] == x;
                assert(j > 0);
                assert(s.drop_first()[j - 1] == x);
            }
            assert forall|j: int| 0 <= j < first_pos(s, x) implies s[j] != x by {
                if j > 0 {
                    assert(s[j] == s.drop_first()[j - 1]);
                }
            }
            assert forall|j: int| first_pos(s, x) < 0 && 0 <= j < s.len() implies s[j] != x by {
                if j > 0 {
                    assert(s[j] == s.drop_first()[j - 1]);
                }
            }
        }
    }
}

/// A position that holds `x` and has no `x` before it is the first position.
pub proof fn lemma_first_pos_unique<T>(s: Seq<T>, x: T, i: int)
    requires
        0 <= i < s.len(),
        s[i] == x,
        forall|j: int| 0 <= j < i ==> s[j] != x,
    ensures
        first_pos(s, x) == i,
{
    lemma_first_pos(s, x);
    assert(s.contains(x));
}

/// The position of the first element equal to `x`.
pub fn position_of<T: PartialEq>(v: &[T], x: &T) -> (r: Option<usize>)
    requires
        obeys_concrete_eq::<T>(),
    ensures
        match r {
            Some(i) => i == first_pos(v@, *x) && i < v@.len() && v@[i as int] == *x,
            None => first_pos(v@, *x) < 0 && !v@.contains(*x),
        },
        r is Some <==> v@.contains(*x),
{
    proof {
        reveal(obeys_concrete_eq);
        lemma_first_pos(v@, *x);
    }
    let mut i: usize = 0;
    while i < v.len()
        invariant
            obeys_concrete_eq::<T>(),
            i <= v@.len(),
            forall|j: int| 0 <= j < i ==> v@[j] != *x,
        decreases v.len() - i,
    {
        proof {
            reveal(obeys_concrete_eq);
        }
        if v[i] == *x {
            proof {
                lemma_first_pos_unique(v@, *x, i as int);
            }
            return Some(i);
        }
        i = i + 1;
    }
    None
}

/// The index of the first element of `s` that satisfies `p`, or -1 when none does.
pub open spec fn first_where<T>(s: Seq<T>, p: spec_fn(T) -> bool) -> int
    decreases s.len(),
{
    if s.len() == 0 {
        -1
    } else if p(s[0]) {
        0
    } else {
        let r = first_where(s.drop_first(), p);
        if r < 0 {
            -1
        } else {
            r + 1
        }
    }
}

/// `first_where` finds the first element that satisfies the predicate, and finds one
/// whenever there is one.
pub proof fn lemma_first_where<T>(s: Seq<T>, p: spec_fn(T) -> bool)
    ensures
        -1 <= first_where(s, p) < s.len(),
        first_where(s, p) >= 0 ==> p(s[first_where(s, p)]),
        forall|j: int| 0 <= j < first_where(s, p) ==> !p(#[trigger] s[j]),
        first_where(s, p) < 0 ==> forall|j: int| 0 <= j < s.len() ==> !p(#[trigger] s[j]),
    decreases s.len(),
{
    if s.len() > 0 {
        lemma_first_where(s.drop_first(), p);
        if !p(s[0]) {
            assert forall|j: int| 0 <= j < first_where(s, p) implies !p(#[trigger] s[j]) by {
                if j > 0 {
                    assert(s[j] == s.drop_first()[j - 1]);
                }
            }
            assert forall|j: int| first_where(s, p) < 0 && 0 <= j < s.len() implies !p(#[trigger] s[j]) by {
                if j > 0 {
                    assert(s[j] == s.drop_first()[j - 1]);
                }
            }
        }
    }
}

/// A position that satisfies `p` with none before it is the first one.
pub proof fn lemma_first_where_unique<T>(s: Seq<T>, p: spec_fn(T) -> bool, i: int)
    requires
        0 <= i < s.len(),
        p(s[i]),
        forall|j: int| 0 <= j < i ==> !p(#[trigger] s[j]),
    ensures
        first_where(s, p) == i,
{
    lemma_first_where(s, p);
    if first_where(s, p) < 0 {
        assert(!p(s[i]));
    }
}

} // verus!
