use vstd::prelude::*;

verus! {

/// An ordering that report rows can be arranged by.  `precedes` says
/// whether an item may stand at or before another; `precedes_exec`
/// decides it.
pub trait Ranked: Sized {
    /// Whether this item may stand at or before the other.
    spec fn precedes(&self, other: &Self) -> bool;

    /// Decide `precedes`.
    fn precedes_exec(&self, other: &Self) -> (r: bool)
        ensures
            r == self.precedes(other),
    ;
}

/// Any two items compare one way or the other.
pub open spec fn total_order<T: Ranked>() -> bool {
    forall|a: T, b: T| #[trigger] a.precedes(&b) || #[trigger] b.precedes(&a)
}

/// The ordering carries over chains.
pub open spec fn transitive_order<T: Ranked>() -> bool {
    forall|a: T, b: T, c: T|
        #[trigger] a.precedes(&b) && #[trigger] b.precedes(&c) ==> #[trigger] a.precedes(&c)
}

/// An item placed into a list just before the first item it may stand
/// before.
pub open spec fn insert_ordered<T: Ranked>(x: T, s: Seq<T>) -> Seq<T>
    decreases s.len(),
{
    if s.len() == 0 {
        seq![x]
    } else if x.precedes(&s[0]) {
        seq![x] + s
    } else {
        seq![s[0]] + insert_ordered(x, s.skip(1))
    }
}

/// A list arranged by the ordering: each item in turn placed into the
/// arranged list of the items before it.
pub open spec fn ordered_by_insertion<T: Ranked>(s: Seq<T>) -> Seq<T>
    decreases s.len(),
{
    if s.len() == 0 {
        Seq::empty()
    } else {
        insert_ordered(s.last(), ordered_by_insertion(s.drop_last()))
    }
}

/// The items never step backwards along the list.
pub open spec fn is_ordered<T: Ranked>(s: Seq<T>) -> bool {
    forall|i: int, j: int|
        #![trigger s[i].precedes(&s[j])]
        0 <= i < j < s.len() ==> s[i].precedes(&s[j])
}

/// Every item of an insertion is the inserted item or one of the old
/// items.
proof fn lemma_insert_ordered_membership<T: Ranked>(x: T, s: Seq<T>, j: int)
    requires
        0 <= j < insert_ordered(x, s).len(),
    ensures
        insert_ordered(x, s)[j] == x || exists|k: int|
            0 <= k < s.len() && insert_ordered(x, s)[j] == s[k],
    decreases s.len(),
{
    if s.len() == 0 {
    } else if x.precedes(&s[0]) {
        if j > 0 {
            assert(insert_ordered(x, s)[j] == s[j - 1]);
        }
    } else {
        if j > 0 {
            lemma_insert_ordered_membership(x, s.skip(1), j - 1);
            let inner = insert_ordered(x, s.skip(1));
            if inner[j - 1] == x {
            } else {
                let k = choose|k: int| 0 <= k < s.skip(1).len() && inner[j - 1] == s.skip(1)[k];
                assert(s.skip(1)[k] == s[k + 1]);
            }
        }
    }
}

/// Placing an item into an arranged list keeps it arranged.
proof fn lemma_insert_ordered_keeps_order<T: Ranked>(x: T, s: Seq<T>)
    requires
        total_order::<T>(),
        transitive_order::<T>(),
        is_ordered(s),
    ensures
        is_ordered(insert_ordered(x, s)),
    decreases s.len(),
{
    let out = insert_ordered(x, s);
    if s.len() == 0 {
    } else if x.precedes(&s[0]) {
        assert forall|i: int, j: int|
            #![trigger out[i].precedes(&out[j])]
            0 <= i < j < out.len() implies out[i].precedes(&out[j]) by {
            if i == 0 {
                if j > 1 {
                    assert(s[0].precedes(&s[j - 1]));
                }
            } else {
                assert(out[i] == s[i - 1] && out[j] == s[j - 1]);
            }
        }
    } else {
        assert(is_ordered(s.skip(1))) by {
            assert forall|i: int, j: int|
                #![trigger s.skip(1)[i].precedes(&s.skip(1)[j])]
                0 <= i < j < s.skip(1).len() implies s.skip(1)[i].precedes(&s.skip(1)[j]) by {
                assert(s.skip(1)[i] == s[i + 1] && s.skip(1)[j] == s[j + 1]);
            }
        }
        lemma_insert_ordered_keeps_order(x, s.skip(1));
        let rest = insert_ordered(x, s.skip(1));
        assert(s[0].precedes(&x));
        assert forall|j: int| 0 <= j < rest.len() implies s[0].precedes(&rest[j]) by {
            lemma_insert_ordered_membership(x, s.skip(1), j);
            if rest[j] == x {
            } else {
                let k = choose|k: int| 0 <= k < s.skip(1).len() && rest[j] == s.skip(1)[k];
                assert(s.skip(1)[k] == s[k + 1]);
                assert(s[0].precedes(&s[k + 1]));
            }
        }
        assert forall|i: int, j: int|
            #![trigger out[i].precedes(&out[j])]
            0 <= i < j < out.len() implies out[i].precedes(&out[j]) by {
            if i == 0 {
                assert(out[j] == rest[j - 1]);
            } else {
                assert(out[i] == rest[i - 1] && out[j] == rest[j - 1]);
            }
        }
    }
}

/// Inserting grows a list by exactly one item.
pub proof fn lemma_insert_ordered_len<T: Ranked>(x: T, s: Seq<T>)
    ensures
        insert_ordered(x, s).len() == s.len() + 1,
    decreases s.len(),
{
    if s.len() > 0 && !x.precedes(&s[0]) {
        lemma_insert_ordered_len(x, s.skip(1));
    }
}

/// Arranging a list keeps its length.
pub proof fn lemma_ordered_by_insertion_len<T: Ranked>(s: Seq<T>)
    ensures
        ordered_by_insertion(s).len() == s.len(),
    decreases s.len(),
{
    if s.len() > 0 {
        lemma_ordered_by_insertion_len(s.drop_last());
        lemma_insert_ordered_len(s.last(), ordered_by_insertion(s.drop_last()));
    }
}

/// The insertion arrangement of any list is arranged.
pub proof fn lemma_insertion_is_ordered<T: Ranked>(s: Seq<T>)
    requires
        total_order::<T>(),
        transitive_order::<T>(),
    ensures
        is_ordered(ordered_by_insertion(s)),
    decreases s.len(),
{
    if s.len() > 0 {
        lemma_insertion_is_ordered::<T>(s.drop_last());
        lemma_insert_ordered_keeps_order(s.last(), ordered_by_insertion(s.drop_last()));
    }
}

/// Place an item into a vector just before the first item it may stand
/// before.
#[verifier::loop_isolation(false)]
pub fn insert_into<T: Ranked>(out: &mut Vec<T>, x: T)
    ensures
        final(out)@ == insert_ordered(x, old(out)@),
{
    let n = out.len();
    let ghost x0 = x;
    let mut p: usize = 0;
    proof {
        assert(out@.take(0) =~= Seq::<T>::empty());
        assert(out@.skip(0) =~= out@);
        assert(Seq::<T>::empty() + insert_ordered(x0, out@) =~= insert_ordered(x0, out@));
    }
    while p < n
        invariant
            n == out@.len(),
            p <= n,
            x == x0,
            out@ == old(out)@,
            insert_ordered(x0, out@) == out@.take(p as int) + insert_ordered(
                x0,
                out@.skip(p as int),
            ),
        decreases n - p,
    {
        let stop = x.precedes_exec(&out[p]);
        if stop {
            proof {
                assert(out@.skip(p as int)[0] == out@[p as int]);
                assert(insert_ordered(x0, out@.skip(p as int)) == seq![x0] + out@.skip(p as int));
                assert(out@.take(p as int) + (seq![x0] + out@.skip(p as int)) =~= out@.insert(
                    p as int,
                    x0,
                ));
            }
            out.insert(p, x);
            proof {
                assert(out@ == insert_ordered(x0, old(out)@));
            }
            return ;
        }
        proof {
            assert(out@.skip(p as int)[0] == out@[p as int]);
            assert(out@.skip(p as int).skip(1) =~= out@.skip(p + 1));
            assert(insert_ordered(x0, out@.skip(p as int)) == seq![out@[p as int]]
                + insert_ordered(x0, out@.skip(p + 1)));
            assert(out@.take(p as int) + (seq![out@[p as int]] + insert_ordered(
                x0,
                out@.skip(p + 1),
            )) =~= out@.take(p + 1) + insert_ordered(x0, out@.skip(p + 1)));
        }
        p = p + 1;
    }
    proof {
        assert(out@.skip(n as int).len() == 0);
        assert(insert_ordered(x0, out@.skip(n as int)) == seq![x0]);
        assert(out@.take(n as int) + seq![x0] =~= out@.push(x0));
        assert(insert_ordered(x0, old(out)@) == out@.push(x0));
    }
    out.push(x);
}

} // verus!
