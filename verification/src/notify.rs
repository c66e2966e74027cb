use vstd::prelude::*;

verus! {

/// What is left of a queue of completion notifications after a consumer
/// drains it: notifications are consumed in delivery order until one that
/// says "the registry is now empty" has been consumed, or the queue runs
/// out.
pub open spec fn drained_notes(s: Seq<bool>) -> Seq<bool>
    decreases s.len(),
{
    if s.len() == 0 {
        Seq::empty()
    } else if s[0] {
        s.skip(1)
    } else {
        drained_notes(s.skip(1))
    }
}

/// Law (drain-out detection): a notification sequence of the shape a full
/// drain emits — every entry before the last reporting the registry still
/// occupied, the last one reporting it empty — is consumed whole, so after
/// waiting on it nothing is left pending.
pub proof fn lemma_drain_consumes_single_true(s: Seq<bool>)
    requires
        s.len() > 0,
        s.last() == true,
        forall|i: int| #![trigger s[i]] 0 <= i < s.len() - 1 ==> !s[i],
    ensures
        drained_notes(s) == Seq::<bool>::empty(),
    decreases s.len(),
{
    if s.len() == 1 {
        assert(s[0] == s.last());
        assert(s.skip(1) =~= Seq::<bool>::empty());
    } else {
        assert(!s[0]);
        let t = s.skip(1);
        assert(t.last() == s.last());
        assert forall|i: int| 0 <= i < t.len() - 1 implies !#[trigger] t[i] by {
            assert(t[i] == s[i + 1]);
        }
        lemma_drain_consumes_single_true(t);
    }
}

} // verus!
