//! Concatenation of a sequence-valued function over a sequence, and the
//! step lemma that loops over it rely on.

use vstd::prelude::*;

verus! {

/// The concatenation `f(s[0]) + f(s[1]) + ...`.
pub open spec fn concat_map<A, B>(s: Seq<A>, f: spec_fn(A) -> Seq<B>) -> Seq<B>
    decreases s.len(),
{
    if s.len() == 0 {
        Seq::empty()
    } else {
        f(s[0]) + concat_map(s.drop_first(), f)
    }
}

/// Appending one element appends its image.
pub proof fn lemma_concat_map_push<A, B>(s: Seq<A>, x: A, f: spec_fn(A) -> Seq<B>)
    ensures
        concat_map(s.push(x), f) == concat_map(s, f) + f(x),
    decreases s.len(),
{
    let whole = s.push(x);
    if s.len() == 0 {
        assert(whole[0] == x);
        assert(whole.drop_first() =~= Seq::<A>::empty());
        assert(concat_map(Seq::<A>::empty(), f) == Seq::<B>::empty());
        assert(f(x) + Seq::<B>::empty() =~= Seq::<B>::empty() + f(x));
    } else {
        lemma_concat_map_push(s.drop_first(), x, f);
        assert(whole[0] == s[0]);
        assert(whole.drop_first() =~= s.drop_first().push(x));
        assert(f(s[0]) + (concat_map(s.drop_first(), f) + f(x)) =~= (f(s[0]) + concat_map(
            s.drop_first(),
            f,
        )) + f(x));
    }
}

/// The step that a loop takes: one more element of `s` taken, its image
/// appended.
pub proof fn lemma_concat_map_take<A, B>(s: Seq<A>, i: int, f: spec_fn(A) -> Seq<B>)
    requires
        0 <= i < s.len(),
    ensures
        concat_map(s.take(i + 1), f) == concat_map(s.take(i), f) + f(s[i]),
{
    assert(s.take(i + 1) =~= s.take(i).push(s[i]));
    lemma_concat_map_push(s.take(i), s[i], f);
}

} // verus!
