use vstd::prelude::*;

use crate::arith::{of_count, product, quotient, sum};
use crate::memory::{MemoryModel, MemoryRecord};
use crate::ranking::{
    decay, decayed, distinct_words, seconds_since, shared, shared_terms_are_common, term_overlap,
    word_list,
};
use crate::single::Single;
use crate::text::{first_occurrences_facts, normalized, words};

verus! {

/// The pattern of 30: after so many days, half of the recency is left.
pub const RECENT_DAYS: u32 = 0x41f0_0000;

/// The pattern of 1.5.
pub const WORD_WEIGHT: u32 = 0x3fc0_0000;

/// The pattern of 2.
pub const IMPORTANCE_FACTOR: u32 = 0x4000_0000;

/// The pattern of 3.
pub const PINNED_GAIN: u32 = 0x4040_0000;

/// A score from common words, weights, the time since the last change and being pinned.
pub open spec fn keyword_worth(query: Seq<char>, m: MemoryModel, now: i64) -> Single {
    let overlap = shared(word_list(query), words(m.normalized_content));
    let unchanged = if now > m.updated_at {
        now - m.updated_at
    } else {
        0
    };
    sum(
        sum(
            sum(
                sum(
                    product(of_count(overlap as int), Single { bits: WORD_WEIGHT }),
                    product(m.importance, Single { bits: IMPORTANCE_FACTOR }),
                ),
                m.confidence,
            ),
            decay(unchanged, Single { bits: RECENT_DAYS }),
        ),
        if m.pinned {
            Single { bits: PINNED_GAIN }
        } else {
            Single { bits: 0 }
        },
    )
}

/// How well a memory answers a query, by its words alone.
pub fn lexical_score(query: &str, memory: &MemoryRecord, now: i64) -> (r: Single)
    ensures
        r == keyword_worth(query@, memory@, now),
{
    let overlap = term_overlap(&distinct_words(query), memory);
    let recency = decayed(seconds_since(memory.updated_at, now), Single { bits: RECENT_DAYS });
    Single::from_count(overlap as u128).times(Single { bits: WORD_WEIGHT }).plus(
        memory.importance.times(Single { bits: IMPORTANCE_FACTOR }),
    ).plus(memory.confidence).plus(recency).plus(
        if memory.pinned {
            Single { bits: PINNED_GAIN }
        } else {
            Single { bits: 0 }
        },
    )
}

/// A keyword score is 1.5 for each distinct word of the query that is a word of the memory, twice its
/// importance, its confidence, a recency of 1 / (1 + days / 30) over the days since it was changed,
/// and three more where it is pinned.
pub proof fn keyword_scores_weigh_their_parts(query: Seq<char>, m: MemoryModel, now: i64)
    ensures
        ({
            let seconds = if now >= m.updated_at {
                now - m.updated_at
            } else {
                0
            };
            let one = Single { bits: 0x3f80_0000 };
            let days = quotient(of_count(seconds), Single { bits: 0x47a8_c000 });
            let common = words(normalized(query)).to_set().intersect(
                words(m.normalized_content).to_set(),
            );
            keyword_worth(query, m, now) == sum(
                sum(
                    sum(
                        sum(
                            product(of_count(common.len() as int), Single { bits: 0x3fc0_0000 }),
                            product(m.importance, Single { bits: 0x4000_0000 }),
                        ),
                        m.confidence,
                    ),
                    quotient(one, sum(one, quotient(days, Single { bits: 0x41f0_0000 }))),
                ),
                if m.pinned {
                    Single { bits: 0x4040_0000 }
                } else {
                    Single { bits: 0 }
                },
            )
        }),
{
    first_occurrences_facts(words(normalized(query)));
    shared_terms_are_common(word_list(query), words(m.normalized_content));
}

} // verus!
