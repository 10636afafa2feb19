//! Vectors used as ordered sets: nothing occurs twice, and what came first
//! stays first when an element leaves.

use vstd::prelude::*;

verus! {

/// `s` without the element `x`, the order of the others kept.
pub open spec fn without<T>(s: Seq<T>, x: T) -> Seq<T> {
    s.filter(|y: T| y != x)
}

/// `s` without the elements of `gone`, the order of the others kept.
pub open spec fn minus<T>(s: Seq<T>, gone: Seq<T>) -> Seq<T> {
    s.filter(|y: T| !gone.contains(y))
}

/// What a filter keeps: the elements of `s` for which `p` holds, each as
/// often as `s` has it.
pub proof fn lemma_filter_members<T>(s: Seq<T>, p: spec_fn(T) -> bool)
    ensures
        forall|x: T| #[trigger] s.filter(p).contains(x) <==> s.contains(x) && p(x),
        s.no_duplicates() ==> s.filter(p).no_duplicates(),
        s.filter(p).len() <= s.len(),
    decreases s.len(),
{
    reveal(Seq::filter);
    let out = s.filter(p);
    if s.len() > 0 {
        let head = s.drop_last();
        let last = s.last();
        lemma_filter_members(head, p);
        let kept = head.filter(p);
        assert forall|x: T| #[trigger] out.contains(x) <==> s.contains(x) && p(x) by {
            if out.contains(x) {
                let i = choose|i: int| 0 <= i < out.len() && out[i] == x;
                if i < kept.len() {
                    assert(kept[i] == x);
                    assert(kept.contains(x));
                    let j = choose|j: int| 0 <= j < head.len() && head[j] == x;
                    assert(s[j] == x);
                } else {
                    assert(x == last);
                    assert(s[s.len() - 1] == x);
                }
            }
            if s.contains(x) && p(x) {
                let j = choose|j: int| 0 <= j < s.len() && s[j] == x;
                if j < head.len() {
                    assert(head[j] == x);
                    assert(kept.contains(x));
                    let i = choose|i: int| 0 <= i < kept.len() && kept[i] == x;
                    assert(out[i] == x);
                } else {
                    assert(out[out.len() - 1] == x);
                }
            }
        }
        if s.no_duplicates() {
            assert(head.no_duplicates());
            if p(last) {
                if kept.contains(last) {
                    let j = choose|j: int| 0 <= j < head.len() && head[j] == last;
                    assert(s[j] == s[s.len() - 1]);
                }
                assert(out.no_duplicates());
            }
        }
    }
}

/// Two predicates that agree on the elements of `s` keep the same of it.
pub proof fn lemma_filter_agree<T>(s: Seq<T>, p: spec_fn(T) -> bool, q: spec_fn(T) -> bool)
    requires
        forall|i: int| 0 <= i < s.len() ==> p(#[trigger] s[i]) == q(s[i]),
    ensures
        s.filter(p) == s.filter(q),
    decreases s.len(),
{
    reveal(Seq::filter);
    if s.len() > 0 {
        let head = s.drop_last();
        assert forall|i: int| 0 <= i < head.len() implies p(#[trigger] head[i]) == q(head[i]) by {
            assert(head[i] == s[i]);
        }
        lemma_filter_agree(head, p, q);
    }
}

/// A predicate that holds of every element of `s` keeps all of it.
pub proof fn lemma_filter_all<T>(s: Seq<T>, p: spec_fn(T) -> bool)
    requires
        forall|i: int| 0 <= i < s.len() ==> p(#[trigger] s[i]),
    ensures
        s.filter(p) == s,
    decreases s.len(),
{
    reveal(Seq::filter);
    if s.len() > 0 {
        let head = s.drop_last();
        assert forall|i: int| 0 <= i < head.len() implies p(#[trigger] head[i]) by {
            assert(head[i] == s[i]);
        }
        lemma_filter_all(head, p);
        assert(head.push(s.last()) =~= s);
    }
}

/// Filtering twice keeps what both predicates keep.
pub proof fn lemma_filter_twice<T>(s: Seq<T>, p: spec_fn(T) -> bool, q: spec_fn(T) -> bool)
    ensures
        s.filter(p).filter(q) == s.filter(|x: T| p(x) && q(x)),
    decreases s.len(),
{
    reveal(Seq::filter);
    let both = |x: T| p(x) && q(x);
    if s.len() > 0 {
        let head = s.drop_last();
        let last = s.last();
        lemma_filter_twice(head, p, q);
        if p(last) {
            let kept = head.filter(p);
            assert(kept.push(last).drop_last() =~= kept);
        }
    }
}

/// In a sequence without duplicates, to leave out the element at position
/// `i` is to remove that position.
pub proof fn lemma_without_is_remove<T>(s: Seq<T>, i: int)
    requires
        s.no_duplicates(),
        0 <= i < s.len(),
    ensures
        without(s, s[i]) == s.remove(i),
    decreases s.len(),
{
    reveal(Seq::filter);
    let x = s[i];
    let p = |y: T| y != x;
    let head = s.drop_last();
    if i == s.len() - 1 {
        assert forall|k: int| 0 <= k < head.len() implies p(#[trigger] head[k]) by {
            assert(head[k] == s[k]);
        }
        lemma_filter_all(head, p);
        assert(s.remove(i) =~= head);
    } else {
        lemma_without_is_remove(head, i);
        assert(head.remove(i).push(s.last()) =~= s.remove(i));
    }
}

/// To leave out one more element is to leave out a longer list.
pub proof fn lemma_without_minus<T>(s: Seq<T>, gone: Seq<T>, x: T)
    ensures
        without(minus(s, gone), x) == minus(s, gone.push(x)),
{
    let p = |y: T| !gone.contains(y);
    let q = |y: T| y != x;
    let both = |y: T| p(y) && q(y);
    let longer = |y: T| !gone.push(x).contains(y);
    lemma_filter_twice(s, p, q);
    assert forall|i: int| 0 <= i < s.len() implies both(#[trigger] s[i]) == longer(s[i]) by {
        let y = s[i];
        if gone.push(x).contains(y) {
            let k = choose|k: int| 0 <= k < gone.push(x).len() && gone.push(x)[k] == y;
            if k < gone.len() {
                assert(gone[k] == y);
            }
        }
        if gone.contains(y) {
            let k = choose|k: int| 0 <= k < gone.len() && gone[k] == y;
            assert(gone.push(x)[k] == y);
        }
        if y == x {
            assert(gone.push(x)[gone.len() as int] == y);
        }
    }
    lemma_filter_agree(s, both, longer);
}

/// To leave out nothing is to keep everything.
pub proof fn lemma_minus_nothing<T>(s: Seq<T>)
    ensures
        minus(s, Seq::empty()) == s,
{
    lemma_filter_all(s, |y: T| !Seq::<T>::empty().contains(y));
}

/// What is left of `s` without `x`: the other elements, and all of `s`
/// where `x` is not in it.
pub proof fn lemma_without<T>(s: Seq<T>, x: T)
    ensures
        forall|y: T| #[trigger] without(s, x).contains(y) <==> s.contains(y) && y != x,
        s.no_duplicates() ==> without(s, x).no_duplicates(),
        !s.contains(x) ==> without(s, x) == s,
        without(s, x).len() <= s.len(),
{
    let p = |y: T| y != x;
    lemma_filter_members(s, p);
    if !s.contains(x) {
        assert forall|k: int| 0 <= k < s.len() implies p(#[trigger] s[k]) by {
            assert(s.contains(s[k]));
        }
        lemma_filter_all(s, p);
    }
}

/// What is left of `s` without the elements of `gone`.
pub proof fn lemma_minus<T>(s: Seq<T>, gone: Seq<T>)
    ensures
        forall|y: T| #[trigger] minus(s, gone).contains(y) <==> s.contains(y) && !gone.contains(y),
        s.no_duplicates() ==> minus(s, gone).no_duplicates(),
        minus(s, gone).len() <= s.len(),
{
    lemma_filter_members(s, |y: T| !gone.contains(y));
}

/// What a filter keeps of a sequence with one more element at its end.
pub proof fn lemma_filter_push<T>(s: Seq<T>, x: T, p: spec_fn(T) -> bool)
    ensures
        s.push(x).filter(p) == if p(x) {
            s.filter(p).push(x)
        } else {
            s.filter(p)
        },
{
    reveal(Seq::filter);
    assert(s.push(x).drop_last() =~= s);
}

/// What is left of a sequence with one more element at its end.
pub proof fn lemma_minus_push<T>(s: Seq<T>, x: T, gone: Seq<T>)
    ensures
        minus(s.push(x), gone) == if gone.contains(x) {
            minus(s, gone)
        } else {
            minus(s, gone).push(x)
        },
        minus(Seq::<T>::empty(), gone) == Seq::<T>::empty(),
{
    let p = |y: T| !gone.contains(y);
    lemma_filter_push(s, x, p);
    lemma_filter_all(Seq::<T>::empty(), p);
}

/// To leave out the elements of `gone` is to keep those for which `keep`
/// holds, where the two agree on the elements of `s`.
pub proof fn lemma_minus_is_filter<T>(s: Seq<T>, gone: Seq<T>, keep: spec_fn(T) -> bool)
    requires
        forall|i: int| 0 <= i < s.len() ==> keep(#[trigger] s[i]) == !gone.contains(s[i]),
    ensures
        minus(s, gone) == s.filter(keep),
{
    lemma_filter_agree(s, |y: T| !gone.contains(y), keep);
}

/// To leave out elements that are not there changes nothing.
pub proof fn lemma_minus_disjoint<T>(s: Seq<T>, gone: Seq<T>)
    requires
        forall|i: int| 0 <= i < s.len() ==> !gone.contains(#[trigger] s[i]),
    ensures
        minus(s, gone) == s,
{
    lemma_filter_all(s, |y: T| !gone.contains(y));
}

/// To add an element that was not there and take it out again changes
/// nothing.
pub proof fn lemma_without_push<T>(s: Seq<T>, x: T)
    requires
        !s.contains(x),
    ensures
        without(s.push(x), x) == s,
{
    let p = |y: T| y != x;
    lemma_filter_push(s, x, p);
    lemma_without(s, x);
}

/// What is left of two sequences, one behind the other, is what is left of
/// each, one behind the other.
pub proof fn lemma_minus_concat<T>(a: Seq<T>, b: Seq<T>, gone: Seq<T>)
    ensures
        minus(a + b, gone) == minus(a, gone) + minus(b, gone),
{
    Seq::filter_distributes_over_add(a, b, |y: T| !gone.contains(y));
}

/// Nothing is left of a sequence all of whose elements leave.
pub proof fn lemma_minus_all<T>(s: Seq<T>, gone: Seq<T>)
    requires
        forall|i: int| 0 <= i < s.len() ==> gone.contains(#[trigger] s[i]),
    ensures
        minus(s, gone) == Seq::<T>::empty(),
{
    lemma_minus(s, gone);
    let left = minus(s, gone);
    if left.len() > 0 {
        assert(left.contains(left[0]));
        let x = left[0];
        let i = choose|i: int| 0 <= i < s.len() && s[i] == x;
        assert(gone.contains(s[i]));
    }
    assert(left =~= Seq::<T>::empty());
}

/// What two sequences hold when one is put behind the other.
pub proof fn lemma_concat<T>(a: Seq<T>, b: Seq<T>)
    ensures
        forall|x: T| #[trigger] (a + b).contains(x) <==> a.contains(x) || b.contains(x),
        a.no_duplicates() && b.no_duplicates() && (forall|x: T| a.contains(x) ==> !b.contains(x))
            ==> (a + b).no_duplicates(),
{
    let c = a + b;
    assert forall|x: T| #[trigger] c.contains(x) <==> a.contains(x) || b.contains(x) by {
        if c.contains(x) {
            let i = choose|i: int| 0 <= i < c.len() && c[i] == x;
            if i < a.len() {
                assert(a[i] == x);
            } else {
                assert(b[i - a.len()] == x);
            }
        }
        if a.contains(x) {
            let i = choose|i: int| 0 <= i < a.len() && a[i] == x;
            assert(c[i] == x);
        }
        if b.contains(x) {
            let i = choose|i: int| 0 <= i < b.len() && b[i] == x;
            assert(c[a.len() + i] == x);
        }
    }
    if a.no_duplicates() && b.no_duplicates() && (forall|x: T| a.contains(x) ==> !b.contains(x)) {
        assert forall|i: int, j: int| 0 <= i < c.len() && 0 <= j < c.len() && i != j implies c[i]
            != c[j] by {
            if i < a.len() && j >= a.len() {
                assert(a.contains(a[i]));
                assert(b.contains(b[j - a.len()]));
            }
            if j < a.len() && i >= a.len() {
                assert(a.contains(a[j]));
                assert(b.contains(b[i - a.len()]));
            }
        }
    }
}

/// What a sequence holds with one more element at its end.
pub proof fn lemma_push<T>(s: Seq<T>, x: T)
    ensures
        forall|y: T| #[trigger] s.push(x).contains(y) <==> s.contains(y) || y == x,
        s.no_duplicates() && !s.contains(x) ==> s.push(x).no_duplicates(),
{
    let c = s.push(x);
    assert forall|y: T| #[trigger] c.contains(y) <==> s.contains(y) || y == x by {
        if c.contains(y) {
            let i = choose|i: int| 0 <= i < c.len() && c[i] == y;
            if i < s.len() {
                assert(s[i] == y);
            }
        }
        if s.contains(y) {
            let i = choose|i: int| 0 <= i < s.len() && s[i] == y;
            assert(c[i] == y);
        }
        assert(c[s.len() as int] == x);
    }
    if s.no_duplicates() && !s.contains(x) {
        assert forall|i: int, j: int| 0 <= i < c.len() && 0 <= j < c.len() && i != j implies c[i]
            != c[j] by {
            if i < s.len() {
                assert(s.contains(s[i]));
            }
            if j < s.len() {
                assert(s.contains(s[j]));
            }
        }
    }
}

/// The position of the edge `e` in `v`, if it is there.
pub fn find_edge(v: &Vec<(u32, u32)>, e: (u32, u32)) -> (r: Option<usize>)
    ensures
        match r {
            Some(i) => i < v.len() && v@[i as int] == e,
            None => !v@.contains(e),
        },
{
    let mut i: usize = 0;
    while i < v.len()
        invariant
            i <= v.len(),
            forall|k: int| 0 <= k < i ==> v@[k] != e,
        decreases v.len() - i,
    {
        let x = v[i];
        if x.0 == e.0 && x.1 == e.1 {
            return Some(i);
        }
        i += 1;
    }
    None
}

/// Takes the edge `e` out of `v`, keeping the order of the others, and
/// tells whether it was there.
pub fn remove_edge(v: &mut Vec<(u32, u32)>, e: (u32, u32)) -> (r: bool)
    requires
        old(v)@.no_duplicates(),
    ensures
        r == old(v)@.contains(e),
        final(v)@ == without(old(v)@, e),
        final(v)@.no_duplicates(),
        forall|x: (u32, u32)| #[trigger] final(v)@.contains(x) <==> old(v)@.contains(x) && x != e,
{
    proof {
        lemma_without(v@, e);
    }
    match find_edge(v, e) {
        Some(i) => {
            proof {
                lemma_without_is_remove(v@, i as int);
            }
            v.remove(i);
            true
        },
        None => false,
    }
}

/// The position of the index `t` in `v`, if it is there.
pub fn find_index(v: &Vec<usize>, t: usize) -> (r: Option<usize>)
    ensures
        match r {
            Some(i) => i < v.len() && v@[i as int] == t,
            None => !v@.contains(t),
        },
{
    let mut i: usize = 0;
    while i < v.len()
        invariant
            i <= v.len(),
            forall|k: int| 0 <= k < i ==> v@[k] != t,
        decreases v.len() - i,
    {
        if v[i] == t {
            return Some(i);
        }
        i += 1;
    }
    None
}

/// Takes the index `t` out of `v`, keeping the order of the others, and
/// tells whether it was there.
pub fn remove_index(v: &mut Vec<usize>, t: usize) -> (r: bool)
    requires
        old(v)@.no_duplicates(),
    ensures
        r == old(v)@.contains(t),
        final(v)@ == without(old(v)@, t),
        final(v)@.no_duplicates(),
        forall|x: usize| #[trigger] final(v)@.contains(x) <==> old(v)@.contains(x) && x != t,
{
    proof {
        lemma_without(v@, t);
    }
    match find_index(v, t) {
        Some(i) => {
            proof {
                lemma_without_is_remove(v@, i as int);
            }
            v.remove(i);
            true
        },
        None => false,
    }
}

} // verus!
