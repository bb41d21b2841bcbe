use vstd::prelude::*;

verus! {

/// The first position at which the condition holds.
pub open spec fn first_match<T>(rows: Seq<T>, p: spec_fn(T) -> bool) -> Option<int>
    decreases rows.len(),
{
    if rows.len() == 0 {
        None
    } else {
        match first_match(rows.drop_last(), p) {
            Some(i) => Some(i),
            None => if p(rows.last()) {
                Some(rows.len() - 1)
            } else {
                None
            },
        }
    }
}

/// `first_match` finds a match where there is one, and none that is earlier.
pub proof fn first_match_facts<T>(rows: Seq<T>, p: spec_fn(T) -> bool)
    ensures
        first_match(rows, p) matches Some(i) ==> 0 <= i < rows.len() && p(rows[i]) && forall|j: int|
            0 <= j < i ==> !p(#[trigger] rows[j]),
        first_match(rows, p) is None ==> forall|j: int| 0 <= j < rows.len() ==> !p(#[trigger] rows[j]),
    decreases rows.len(),
{
    if rows.len() > 0 {
        let init = rows.drop_last();
        first_match_facts(init, p);
        match first_match(init, p) {
            Some(i) => {
                assert(p(init[i]));
                assert forall|j: int| 0 <= j < i implies !p(#[trigger] rows[j]) by {
                    assert(!p(init[j]));
                }
            },
            None => {
                assert forall|j: int| 0 <= j < rows.len() - 1 implies !p(#[trigger] rows[j]) by {
                    assert(!p(init[j]));
                }
            },
        }
    }
}

/// The first match is the one before which there is none.
pub proof fn first_match_is<T>(rows: Seq<T>, p: spec_fn(T) -> bool, i: int)
    requires
        0 <= i < rows.len(),
        p(rows[i]),
        forall|j: int| 0 <= j < i ==> !p(#[trigger] rows[j]),
    ensures
        first_match(rows, p) == Some(i),
{
    first_match_facts(rows, p);
}

} // verus!
