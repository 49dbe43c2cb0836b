use vstd::prelude::*;

verus! {

/// Number of unmarked positions.
#[verifier::opaque]
pub open spec fn count_free(flags: Seq<bool>) -> nat
    decreases flags.len(),
{
    if flags.len() == 0 {
        0
    } else {
        count_free(flags.drop_last()) + if flags.last() { 0nat } else { 1nat }
    }
}

/// Marking an unmarked position leaves one fewer unmarked.
pub proof fn lemma_mark(flags: Seq<bool>, i: int)
    requires
        0 <= i < flags.len(),
        !flags[i],
    ensures
        count_free(flags.update(i, true)) + 1 == count_free(flags),
    decreases flags.len(),
{
    reveal(count_free);
    let u = flags.update(i, true);
    if i == flags.len() - 1 {
        assert(u.drop_last() =~= flags.drop_last());
    } else {
        assert(u.drop_last() =~= flags.drop_last().update(i, true));
        lemma_mark(flags.drop_last(), i);
    }
}

/// Keeping every mark (and perhaps adding some) leaves no more unmarked.
pub proof fn lemma_more_marks(a: Seq<bool>, b: Seq<bool>)
    requires
        a.len() == b.len(),
        forall|i: int| 0 <= i < a.len() && #[trigger] a[i] ==> b[i],
    ensures
        count_free(b) <= count_free(a),
    decreases a.len(),
{
    reveal(count_free);
    if a.len() > 0 {
        lemma_more_marks(a.drop_last(), b.drop_last());
        assert(a.last() ==> b.last());
    }
}

} // verus!
