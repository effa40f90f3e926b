use vstd::prelude::*;

verus! {

/// How many elements of `s` satisfy `p`.
pub open spec fn count_where<T>(s: Seq<T>, p: spec_fn(T) -> bool) -> nat
    decreases s.len(),
{
    if s.len() == 0 {
        0
    } else {
        count_where(s.drop_last(), p) + if p(s.last()) {
            1nat
        } else {
            0nat
        }
    }
}

/// Counting over a prefix one element longer adds that element's share.
pub proof fn lemma_count_take_step<T>(s: Seq<T>, p: spec_fn(T) -> bool, i: int)
    requires
        0 <= i < s.len(),
    ensures
        count_where(s.take(i + 1), p) == count_where(s.take(i), p) + if p(s[i]) {
            1nat
        } else {
            0nat
        },
{
    assert(s.take(i + 1).drop_last() =~= s.take(i));
}

/// Where every element satisfies `p`, the count is the length.
pub proof fn lemma_count_all<T>(s: Seq<T>, p: spec_fn(T) -> bool)
    requires
        forall|i: int| 0 <= i < s.len() ==> #[trigger] p(s[i]),
    ensures
        count_where(s, p) == s.len(),
    decreases s.len(),
{
    if s.len() > 0 {
        lemma_count_all(s.drop_last(), p);
    }
}

/// Where no element satisfies `p`, the count is zero.
pub proof fn lemma_count_none<T>(s: Seq<T>, p: spec_fn(T) -> bool)
    requires
        forall|i: int| 0 <= i < s.len() ==> !#[trigger] p(s[i]),
    ensures
        count_where(s, p) == 0,
    decreases s.len(),
{
    if s.len() > 0 {
        lemma_count_none(s.drop_last(), p);
    }
}

/// Replacing one element changes the count by that element's share alone.
pub proof fn lemma_count_update<T>(s: Seq<T>, p: spec_fn(T) -> bool, i: int, v: T)
    requires
        0 <= i < s.len(),
    ensures
        count_where(s.update(i, v), p) + (if p(s[i]) {
            1int
        } else {
            0int
        }) == count_where(s, p) + (if p(v) {
            1int
        } else {
            0int
        }),
    decreases s.len(),
{
    let t = s.update(i, v);
    if i == s.len() - 1 {
        assert(t.drop_last() =~= s.drop_last());
    } else {
        assert(t.drop_last() =~= s.drop_last().update(i, v));
        lemma_count_update(s.drop_last(), p, i, v);
    }
}

/// Where `p` at each element of `s` implies `q` at the same place of `t`,
/// `q` counts at least as many in `t`; where the counts are then equal, the
/// implication also holds the other way.
pub proof fn lemma_count_implies<T>(
    s: Seq<T>,
    t: Seq<T>,
    p: spec_fn(T) -> bool,
    q: spec_fn(T) -> bool,
)
    requires
        s.len() == t.len(),
        forall|i: int| 0 <= i < s.len() && #[trigger] p(s[i]) ==> q(t[i]),
    ensures
        count_where(s, p) <= count_where(t, q),
        count_where(s, p) == count_where(t, q) ==> forall|i: int|
            0 <= i < s.len() && #[trigger] q(t[i]) ==> p(s[i]),
    decreases s.len(),
{
    if s.len() > 0 {
        let (a, b) = (s.drop_last(), t.drop_last());
        assert forall|i: int| 0 <= i < a.len() && #[trigger] p(a[i]) implies q(b[i]) by {
            assert(a[i] == s[i] && b[i] == t[i]);
        }
        lemma_count_implies(a, b, p, q);
        if count_where(s, p) == count_where(t, q) {
            assert forall|i: int| 0 <= i < s.len() && #[trigger] q(t[i]) implies p(s[i]) by {
                if i < s.len() - 1 {
                    assert(a[i] == s[i] && b[i] == t[i]);
                }
            }
        }
    }
}

/// Two sequences of one length that agree on `p` everywhere have one count.
pub proof fn lemma_count_same<T>(s: Seq<T>, t: Seq<T>, p: spec_fn(T) -> bool)
    requires
        s.len() == t.len(),
        forall|i: int| 0 <= i < s.len() ==> #[trigger] p(s[i]) == p(t[i]),
    ensures
        count_where(s, p) == count_where(t, p),
    decreases s.len(),
{
    if s.len() > 0 {
        let (a, b) = (s.drop_last(), t.drop_last());
        assert forall|i: int| 0 <= i < a.len() implies #[trigger] p(a[i]) == p(b[i]) by {
            assert(a[i] == s[i] && b[i] == t[i]);
        }
        lemma_count_same(a, b, p);
    }
}

} // verus!
