use vstd::prelude::*;

verus! {

/// The combined strength of a reindeer team.
pub open spec fn strength_total(strengths: Seq<i32>) -> int
    decreases strengths.len(),
{
    if strengths.len() == 0 {
        0
    } else {
        strength_total(strengths.drop_last()) + strengths.last()
    }
}

/// Team strengths grow at most one reindeer's worth per reindeer.
proof fn lemma_strength_total_bound(strengths: Seq<i32>)
    ensures
        -(strengths.len() * 0x8000_0000) <= strength_total(strengths) <= strengths.len()
            * 0x8000_0000,
    decreases strengths.len(),
{
    if strengths.len() > 0 {
        lemma_strength_total_bound(strengths.drop_last());
    }
}

/// Sum the strengths of a reindeer team.
pub fn strength_sum(strengths: &Vec<i32>) -> (t: i64)
    requires
        strengths@.len() <= 0x7fff_ffff,
    ensures
        t == strength_total(strengths@),
{
    let n = strengths.len();
    let mut acc: i64 = 0;
    let mut i: usize = 0;
    while i < n
        invariant
            n == strengths@.len(),
            n <= 0x7fff_ffff,
            i <= n,
            acc == strength_total(strengths@.take(i as int)),
        decreases n - i,
    {
        proof {
            lemma_strength_total_bound(strengths@.take(i as int));
        }
        acc = acc + strengths[i] as i64;
        proof {
            assert(strengths@.take(i + 1).drop_last() =~= strengths@.take(i as int));
            assert(strengths@.take(i + 1).last() == strengths@[i as int]);
        }
        i = i + 1;
    }
    proof {
        assert(strengths@.take(n as int) =~= strengths@);
    }
    acc
}

} // verus!
