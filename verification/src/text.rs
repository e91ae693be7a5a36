use vstd::prelude::*;
use vstd::string::StrSliceExecFns;

verus! {

/// Character-for-character string equality, proved against the views.
pub fn str_eq(a: &str, b: &str) -> (r: bool)
    ensures
        r == (a@ == b@),
{
    let an = a.unicode_len();
    let bn = b.unicode_len();
    if an != bn {
        proof {
            assert(a@ != b@) by {
                if a@ == b@ {
                    assert(a@.len() == b@.len());
                }
            }
        }
        return false;
    }
    let mut i: usize = 0;
    while i < an
        invariant
            an == a@.len(),
            an == b@.len(),
            i <= an,
            forall|j: int| 0 <= j < i ==> a@[j] == b@[j],
        decreases an - i,
    {
        if a.get_char(i) != b.get_char(i) {
            proof {
                assert(a@ != b@) by {
                    if a@ == b@ {
                        assert(a@[i as int] == b@[i as int]);
                    }
                }
            }
            return false;
        }
        i = i + 1;
    }
    proof {
        assert(a@ =~= b@);
    }
    true
}

/// What `str::to_lowercase` returns for a given text: it depends on the
/// characters alone.
pub uninterp spec fn lower_of(s: Seq<char>) -> Seq<char>;

/// Relies on `str::to_lowercase`: the result is a function of the
/// characters alone, and an empty string stays empty.
#[verifier::external_body]
pub fn lowercase(s: &str) -> (r: String)
    ensures
        r@ == lower_of(s@),
        s@.len() == 0 ==> r@.len() == 0,
{
    s.to_lowercase()
}

/// Whether the pattern occurs in the text starting at position `i`.
pub open spec fn occurs_at(text: Seq<char>, pat: Seq<char>, i: int) -> bool {
    0 <= i && i + pat.len() <= text.len() && text.subrange(i, i + pat.len()) == pat
}

/// How many positions below `n` satisfy the predicate.
pub open spec fn count_where(n: int, p: spec_fn(int) -> bool) -> int
    decreases n,
{
    if n <= 0 {
        0
    } else {
        count_where(n - 1, p) + (if p(n - 1) {
            1int
        } else {
            0int
        })
    }
}

/// A count of positions never exceeds the number of positions.
pub(crate) proof fn lemma_count_where_bound(n: int, p: spec_fn(int) -> bool)
    ensures
        0 <= count_where(n, p) <= (if n >= 0 {
            n
        } else {
            0
        }),
    decreases n,
{
    if n > 0 {
        lemma_count_where_bound(n - 1, p);
    }
}

/// A count of positions is positive exactly when some position satisfies
/// the predicate.
pub(crate) proof fn lemma_count_where_pos(n: int, p: spec_fn(int) -> bool)
    ensures
        (count_where(n, p) > 0) == (exists|i: int| 0 <= i < n && #[trigger] p(i)),
    decreases n,
{
    lemma_count_where_bound(n, p);
    if n > 0 {
        lemma_count_where_pos(n - 1, p);
        lemma_count_where_bound(n - 1, p);
    }
}

/// How many positions of the text an occurrence of the pattern starts at.
/// Overlapping occurrences all count.
pub open spec fn count_occ(text: Seq<char>, pat: Seq<char>) -> int {
    count_where(text.len() as int, |i: int| occurs_at(text, pat, i))
}

/// Whether the pattern occurs in the text starting at position `i`.
pub(crate) fn has_at(text: &str, pat: &str, i: usize) -> (r: bool)
    requires
        text@.len() <= usize::MAX,
        i + pat@.len() <= text@.len(),
    ensures
        r == occurs_at(text@, pat@, i as int),
{
    let m = pat.unicode_len();
    let mut k: usize = 0;
    while k < m
        invariant
            m == pat@.len(),
            text@.len() <= usize::MAX,
            i + m <= text@.len(),
            k <= m,
            forall|j: int| 0 <= j < k ==> text@[i + j] == pat@[j],
        decreases m - k,
    {
        if text.get_char(i + k) != pat.get_char(k) {
            proof {
                assert(!occurs_at(text@, pat@, i as int)) by {
                    if text@.subrange(i as int, i + pat@.len()) == pat@ {
                        assert(text@.subrange(i as int, i + pat@.len())[k as int] == pat@[
                        k as int]);
                    }
                }
            }
            return false;
        }
        k = k + 1;
    }
    proof {
        assert(text@.subrange(i as int, i + pat@.len()) =~= pat@);
    }
    true
}

/// How many positions of the text an occurrence of the pattern starts at.
pub fn count_matches(text: &str, pat: &str) -> (r: usize)
    ensures
        r == count_occ(text@, pat@),
{
    let n = text.unicode_len();
    let m = pat.unicode_len();
    let ghost p = |i: int| occurs_at(text@, pat@, i);
    let mut count: usize = 0;
    let mut i: usize = 0;
    while i < n
        invariant
            n == text@.len(),
            m == pat@.len(),
            i <= n,
            count == count_where(i as int, p),
            p == (|i: int| occurs_at(text@, pat@, i)),
        decreases n - i,
    {
        proof {
            lemma_count_where_bound(i as int, p);
        }
        if m <= n - i {
            if has_at(text, pat, i) {
                count = count + 1;
            }
        }
        proof {
            if m > n - i {
                assert(!occurs_at(text@, pat@, i as int));
            }
            assert(count_where(i + 1, p) == count_where(i as int, p) + (if p(i as int) {
                1int
            } else {
                0int
            }));
        }
        i = i + 1;
    }
    proof {
        assert(count_occ(text@, pat@) == count_where(n as int, p));
    }
    count
}

} // verus!
