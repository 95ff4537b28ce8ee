use vstd::prelude::*;

verus! {

/// Counts of a finished batch.
#[derive(PartialEq, Eq, Structural, Clone, Copy, Debug)]
pub struct Summary {
    pub succeeded: usize,
    pub failed: usize,
}

/// Number of `true` values in `s`.
pub open spec fn count_true(s: Seq<bool>) -> nat
    decreases s.len(),
{
    if s.len() == 0 {
        0
    } else {
        count_true(s.drop_last()) + if s.last() {
            1nat
        } else {
            0nat
        }
    }
}

/// Counts the outcomes of a batch, one per file: `true` for a file that was
/// written, `false` for one that failed.
pub fn tally(outcomes: &Vec<bool>) -> (r: Summary)
    ensures
        r.succeeded == count_true(outcomes@),
        r.failed == outcomes@.len() - count_true(outcomes@),
{
    let mut ok: usize = 0;
    let mut i: usize = 0;
    while i < outcomes.len()
        invariant
            i <= outcomes@.len(),
            ok == count_true(outcomes@.subrange(0, i as int)),
            ok <= i,
        decreases outcomes@.len() - i,
    {
        proof {
            assert(outcomes@.subrange(0, i + 1).drop_last() =~= outcomes@.subrange(0, i as int));
        }
        if outcomes[i] {
            ok = ok + 1;
        }
        i = i + 1;
    }
    proof {
        assert(outcomes@.subrange(0, i as int) =~= outcomes@);
    }
    Summary { succeeded: ok, failed: outcomes.len() - ok }
}

} // verus!
