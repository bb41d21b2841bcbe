use vstd::prelude::*;
use vstd::utf8::{encode_utf8, is_ascii_chars};

use crate::arith::{
    counts_grow, doubled, nearest, of_count, product, product_grows, product_is_kept, quotient,
    quotient_falls, quotient_grows, quotient_of_equals, share, shares_are_units, sum, sum_exceeds,
    sum_grows, sum_is_kept, sum_of_positive, INFINITE_BITS,
};
use crate::error::Result;
use crate::memory::{MemoryModel, MemoryRecord, NewMemory};
use crate::order::filter_values;
use crate::single::{Single, ONE_BITS};
use crate::text::{
    ascii_normalization_is_stable, ascii_normalized, contains_text, first_occurrences,
    first_occurrences_facts, lowercase, normalization_ignores_padding, normalization_is_stable,
    normalize, normalized, same_text, split_runs, texts, well_spaced, words, CharClass,
};

verus! {

/// A score that a reranker gives to a memory.
#[derive(Debug, Clone)]
pub struct SemanticScore {
    pub memory_id: String,
    pub score: Single,
}

/// Scores candidates by their meaning. Implemented outside; recall works without one.
pub trait SemanticReranker: Send + Sync {
    fn score(&self, query: &str, candidates: &[MemoryRecord]) -> Result<Vec<SemanticScore>>;
}

/// What to do with a memory that resembles a stored one.
#[derive(Debug, Clone, Copy, PartialEq, Eq, Structural)]
pub enum MergeDisposition {
    Distinct,
    NeedsReview,
    Equivalent,
}

/// How a new memory compares with a stored one.
#[derive(Debug)]
pub struct MergeAssessment {
    pub disposition: MergeDisposition,
    pub score: Single,
    pub lexical_score: Single,
    pub semantic_score: Option<Single>,
    pub reason: String,
}

/// A stored memory that a new one may be merged with.
#[derive(Debug)]
pub struct MergeCandidate {
    pub memory: MemoryRecord,
    pub assessment: MergeAssessment,
}

impl Clone for MergeAssessment {
    fn clone(&self) -> (r: MergeAssessment)
        ensures
            r == *self,
    {
        MergeAssessment {
            disposition: self.disposition,
            score: self.score,
            lexical_score: self.lexical_score,
            semantic_score: self.semantic_score,
            reason: self.reason.clone(),
        }
    }
}

impl Clone for MergeCandidate {
    fn clone(&self) -> (r: MergeCandidate)
        ensures
            r == *self,
    {
        MergeCandidate { memory: self.memory.clone(), assessment: self.assessment.clone() }
    }
}

/// Whether a term is long enough to count: two bytes or more.
pub open spec fn long_term(t: Seq<char>) -> bool {
    t.len() >= 2 || (t.len() == 1 && t[0] as u32 >= 0x80)
}

/// A term is long enough when its UTF-8 form takes at least two bytes.
pub proof fn long_term_in_bytes(t: Seq<char>)
    ensures
        long_term(t) == (encode_utf8(t).len() >= 2),
{
    reveal_with_fuel(encode_utf8, 3);
    if t.len() >= 2 {
        assert(t.drop_first()[0] == t[1]);
    }
}

/// The terms that are long enough.
pub open spec fn long_terms(ws: Seq<Seq<char>>) -> Seq<Seq<char>> {
    ws.filter(|t: Seq<char>| long_term(t))
}

/// The distinct terms of a text, in the order of their first occurrence.
pub open spec fn term_list(s: Seq<char>) -> Seq<Seq<char>> {
    first_occurrences(long_terms(words(normalized(s))))
}

/// The distinct terms of an ASCII text, in the order of their first occurrence.
pub open spec fn ascii_term_list(s: Seq<char>) -> Seq<Seq<char>> {
    first_occurrences(long_terms(words(ascii_normalized(s))))
}

/// The terms of a text are the words of its normal form that take two bytes or more.
pub proof fn terms_are_long_words(s: Seq<char>, t: Seq<char>)
    ensures
        term_list(s).contains(t) <==> words(normalized(s)).contains(t) && encode_utf8(t).len() >= 2,
{
    let all = words(normalized(s));
    first_occurrences_facts(long_terms(all));
    filter_values(all, |t: Seq<char>| long_term(t), t);
    long_term_in_bytes(t);
}

/// Normalizing a text first leaves its terms as they are where lower-casing its normal form changes
/// nothing and lower-casing has brought no white space into it.
pub proof fn terms_are_stable(s: Seq<char>)
    ensures
        lowercase(normalized(s)) == normalized(s) && well_spaced(normalized(s)) ==> term_list(
            normalized(s),
        ) == term_list(s),
{
    normalization_is_stable(s);
}

/// Normalizing an ASCII text first leaves its terms as they are.
pub proof fn ascii_terms_are_stable(s: Seq<char>)
    ensures
        ascii_term_list(ascii_normalized(s)) == ascii_term_list(s),
{
    ascii_normalization_is_stable(s);
}

fn is_long(term: &str) -> (r: bool)
    ensures
        r == long_term(term@),
{
    let n = term.unicode_len();
    n >= 2 || (n == 1 && term.get_char(0) as u32 >= 0x80)
}

/// The distinct terms of a query, two bytes or longer.
pub fn lexical_terms(query: &str) -> (r: Vec<String>)
    ensures
        texts(r@) == term_list(query@),
        texts(r@).no_duplicates(),
        is_ascii_chars(query@) ==> texts(r@) == ascii_term_list(query@),
{
    let normal = normalize(query);
    let parts = split_runs(normal.as_str(), CharClass::Word);
    let ghost all = texts(parts@);
    let mut out: Vec<String> = Vec::new();
    let mut i: usize = 0;
    reveal(Seq::filter);
    while i < parts.len()
        invariant
            i <= parts@.len(),
            all == texts(parts@),
            texts(out@) == first_occurrences(long_terms(all.take(i as int))),
        decreases parts@.len() - i,
    {
        let ghost earlier = long_terms(all.take(i as int));
        let ghost now = all[i as int];
        proof {
            reveal(Seq::filter);
            assert(all.take(i + 1).drop_last() =~= all.take(i as int));
            first_occurrences_facts(earlier);
            if long_term(now) {
                assert(long_terms(all.take(i + 1)) =~= earlier.push(now));
                assert(earlier.push(now).drop_last() =~= earlier);
            } else {
                assert(long_terms(all.take(i + 1)) =~= earlier);
            }
        }
        if is_long(parts[i].as_str()) && !contains_text(&out, parts[i].as_str()) {
            let ghost before = texts(out@);
            out.push(parts[i].clone());
            assert(texts(out@) =~= before.push(now));
        }
        i += 1;
    }
    assert(all.take(all.len() as int) =~= all);
    proof {
        first_occurrences_facts(long_terms(all));
    }
    out
}

/// The distinct words of a text once it is normalized, in the order of their first occurrence.
pub open spec fn word_list(s: Seq<char>) -> Seq<Seq<char>> {
    first_occurrences(words(normalized(s)))
}

/// The distinct words of a query, however short.
pub fn distinct_words(query: &str) -> (r: Vec<String>)
    ensures
        texts(r@) == word_list(query@),
        texts(r@).no_duplicates(),
{
    let normal = normalize(query);
    let parts = split_runs(normal.as_str(), CharClass::Word);
    let ghost all = texts(parts@);
    let mut out: Vec<String> = Vec::new();
    let mut i: usize = 0;
    while i < parts.len()
        invariant
            i <= parts@.len(),
            all == texts(parts@),
            texts(out@) == first_occurrences(all.take(i as int)),
        decreases parts@.len() - i,
    {
        proof {
            assert(all.take(i + 1).drop_last() =~= all.take(i as int));
            first_occurrences_facts(all.take(i as int));
        }
        if !contains_text(&out, parts[i].as_str()) {
            let ghost before = texts(out@);
            out.push(parts[i].clone());
            assert(texts(out@) =~= before.push(all[i as int]));
        }
        i += 1;
    }
    assert(all.take(all.len() as int) =~= all);
    proof {
        first_occurrences_facts(all);
    }
    out
}

/// How many of the terms stand among the values.
pub open spec fn shared(terms: Seq<Seq<char>>, values: Seq<Seq<char>>) -> nat {
    terms.filter(|t: Seq<char>| values.contains(t)).len()
}

fn count_shared(terms: &Vec<String>, values: &Vec<String>) -> (r: usize)
    ensures
        r == shared(texts(terms@), texts(values@)),
        r <= terms@.len(),
{
    let ghost all = texts(terms@);
    let mut count: usize = 0;
    let mut i: usize = 0;
    reveal(Seq::filter);
    while i < terms.len()
        invariant
            i <= terms@.len(),
            all == texts(terms@),
            count == shared(all.take(i as int), texts(values@)),
            count <= i,
        decreases terms@.len() - i,
    {
        proof {
            reveal(Seq::filter);
            assert(all.take(i + 1).drop_last() =~= all.take(i as int));
        }
        if contains_text(values, terms[i].as_str()) {
            count += 1;
        }
        i += 1;
    }
    assert(all.take(all.len() as int) =~= all);
    count
}

/// Counting shared terms of a list without repetitions counts the common values.
proof fn shared_is_intersection(terms: Seq<Seq<char>>, values: Seq<Seq<char>>)
    requires
        terms.no_duplicates(),
    ensures
        shared(terms, values) == terms.to_set().intersect(values.to_set()).len(),
    decreases terms.len(),
{
    reveal(Seq::filter);
    let common = terms.to_set().intersect(values.to_set());
    if terms.len() == 0 {
        assert(common =~= Set::empty());
    } else {
        let init = terms.drop_last();
        let last = terms.last();
        shared_is_intersection(init, values);
        let before = init.to_set().intersect(values.to_set());
        assert(!init.contains(last)) by {
            if init.contains(last) {
                let k = choose|k: int| 0 <= k < init.len() && init[k] == last;
                assert(terms[k] == terms[terms.len() - 1]);
            }
        }
        assert(forall|v: Seq<char>| terms.contains(v) <==> init.contains(v) || v == last) by {
            assert forall|v: Seq<char>| terms.contains(v) <==> init.contains(v) || v == last by {
                if terms.contains(v) {
                    let k = choose|k: int| 0 <= k < terms.len() && terms[k] == v;
                    if k < terms.len() - 1 {
                        assert(init[k] == v);
                    }
                }
                if init.contains(v) {
                    let k = choose|k: int| 0 <= k < init.len() && init[k] == v;
                    assert(terms[k] == v);
                }
                if v == last {
                    assert(terms[terms.len() - 1] == v);
                }
            }
        }
        if values.contains(last) {
            assert(common =~= before.insert(last));
        } else {
            assert(common =~= before);
        }
    }
}

/// The share of the terms of two texts that they have in common; none where one side has no
/// terms.
pub open spec fn similarity(query: Seq<char>, content: Seq<char>) -> Single {
    let a = term_list(query).to_set();
    let b = term_list(content).to_set();
    if a.len() == 0 || b.len() == 0 {
        Single { bits: 0 }
    } else {
        share(a.intersect(b).len() as int, a.union(b).len() as int)
    }
}

/// The share of the terms of a query and a memory that they have in common.
pub fn lexical_similarity(query: &str, memory: &MemoryRecord) -> (r: Single)
    ensures
        r == similarity(query@, memory@.normalized_content),
        r.unit(),
{
    let a = lexical_terms(query);
    let b = lexical_terms(memory.normalized_content.as_str());
    let ghost x = texts(a@);
    let ghost y = texts(b@);
    proof {
        x.unique_seq_to_set();
        y.unique_seq_to_set();
    }
    if a.is_empty() || b.is_empty() {
        return Single { bits: 0 };
    }
    let common = count_shared(&a, &b);
    proof {
        shared_is_intersection(x, y);
        vstd::set_lib::lemma_set_intersect_union_lens(x.to_set(), y.to_set());
        vstd::set_lib::lemma_len_intersect(x.to_set(), y.to_set());
        vstd::set_lib::lemma_len_intersect(y.to_set(), x.to_set());
        assert(x.to_set().intersect(y.to_set()) =~= y.to_set().intersect(x.to_set()));
    }
    let all: u128 = (a.len() as u128 + b.len() as u128) - common as u128;
    proof {
        shares_are_units(common as int, all as int);
    }
    Single::from_count(common as u128).over(Single::from_count(all))
}

/// Two texts are as similar one way as the other.
pub proof fn similarity_is_symmetric(left: Seq<char>, right: Seq<char>)
    ensures
        similarity(left, right) == similarity(right, left),
{
    let a = term_list(left).to_set();
    let b = term_list(right).to_set();
    assert(a.intersect(b) =~= b.intersect(a));
    assert(a.union(b) =~= b.union(a));
}

/// How many of the terms occur as words of the memory.
pub fn term_overlap(terms: &Vec<String>, memory: &MemoryRecord) -> (r: usize)
    ensures
        r == shared(texts(terms@), words(memory@.normalized_content)),
        r <= terms@.len(),
{
    let parts = split_runs(memory.normalized_content.as_str(), CharClass::Word);
    count_shared(terms, &parts)
}

impl MemoryModel {
    /// When the memory was last written or read.
    pub open spec fn anchor(self) -> i64 {
        match self.last_accessed_at {
            Some(t) => if t > self.updated_at {
                t
            } else {
                self.updated_at
            },
            None => self.updated_at,
        }
    }
}

/// How many seconds have gone by since then; none where `now` is not later.
pub fn seconds_since(then_at: i64, now: i64) -> (r: u64)
    ensures
        r == (if now > then_at {
            now - then_at
        } else {
            0
        }),
{
    if now > then_at {
        (now as i128 - then_at as i128) as u64
    } else {
        0
    }
}

/// For how many seconds the memory has neither been written nor read.
pub fn retention_age(memory: &MemoryRecord, now: i64) -> (r: u64)
    ensures
        r == memory@.idle(now),
{
    let anchor: i64 = match memory.last_accessed_at {
        Some(t) => if t > memory.updated_at {
            t
        } else {
            memory.updated_at
        },
        None => memory.updated_at,
    };
    seconds_since(anchor, now)
}

/// The pattern of 86,400: the seconds of a day.
pub const DAY: u32 = 0x47a8_c000;

/// The pattern of 45: after so many days, half of the freshness is left.
pub const FRESH_DAYS: u32 = 0x4234_0000;

/// The pattern of 0.34.
pub const IMPORTANCE_WEIGHT: u32 = 0x3eae_147b;

/// The pattern of 0.24.
pub const CONFIDENCE_WEIGHT: u32 = 0x3e75_c28f;

/// The pattern of 0.27.
pub const FRESHNESS_WEIGHT: u32 = 0x3e8a_3d71;

/// The pattern of 0.15.
pub const USAGE_WEIGHT: u32 = 0x3e19_999a;

/// The pattern of 0.25.
pub const PINNED_BONUS: u32 = 0x3e80_0000;

/// The pattern of 1.25: the most that retention comes to.
pub const FULL_RETENTION: u32 = 0x3fa0_0000;

/// The pattern of 5: the logarithm at which usage counts fully.
pub const FULL_USAGE: u32 = 0x40a0_0000;

/// The pattern of 1.5.
pub const TERM_WEIGHT: u32 = 0x3fc0_0000;

/// The pattern of 4.
pub const RETENTION_WEIGHT: u32 = 0x4080_0000;

/// What is left of one after so many seconds, where half is left after `days` days.
pub open spec fn decay(seconds: int, days: Single) -> Single {
    let age = quotient(of_count(seconds), Single { bits: DAY });
    quotient(
        Single { bits: ONE_BITS },
        sum(Single { bits: ONE_BITS }, quotient(age, days)),
    )
}

pub(crate) fn decayed(seconds: u64, days: Single) -> (r: Single)
    ensures
        r == decay(seconds as int, days),
{
    let age = Single::from_count(seconds as u128).over(Single { bits: DAY });
    let one = Single { bits: ONE_BITS };
    one.over(one.plus(age.over(days)))
}

impl MemoryModel {
    /// For how many seconds the memory has neither been written nor read.
    pub open spec fn idle(self, now: i64) -> int {
        if now > self.anchor() {
            now - self.anchor()
        } else {
            0
        }
    }

    /// How much the memory is worth keeping; `use_log` is the natural logarithm of its
    /// `usage_base`.
    pub open spec fn retention(self, now: i64, use_log: Single) -> Single {
        let usage = quotient(use_log, Single { bits: FULL_USAGE }).smaller(
            Single { bits: ONE_BITS },
        );
        let weighed = sum(
            sum(
                sum(
                    product(self.importance.unit_clamped(), Single { bits: IMPORTANCE_WEIGHT }),
                    product(self.confidence.unit_clamped(), Single { bits: CONFIDENCE_WEIGHT }),
                ),
                product(
                    decay(self.idle(now), Single { bits: FRESH_DAYS }),
                    Single { bits: FRESHNESS_WEIGHT },
                ),
            ),
            product(usage, Single { bits: USAGE_WEIGHT }),
        );
        if self.pinned {
            sum(weighed, Single { bits: PINNED_BONUS })
        } else {
            weighed
        }
    }
}

/// A memory and the natural logarithm of its `usage_base`.
#[derive(Debug)]
pub struct UsedMemory {
    pub memory: MemoryRecord,
    pub use_log: Single,
}

/// The number of reads, counted from one: what the logarithm is taken of.
pub fn usage_base(memory: &MemoryRecord) -> (r: Single)
    ensures
        r == sum(of_count(memory@.access_count as int), Single { bits: ONE_BITS }),
{
    Single::from_count(memory.access_count as u128).plus(Single { bits: ONE_BITS })
}

/// How much a memory is worth keeping, from its weights, its age and its use.
///
/// `use_log` is the natural logarithm of the memory's `usage_base`.
pub fn retention_score(memory: &MemoryRecord, now: i64, use_log: Single) -> (r: Single)
    ensures
        r == memory@.retention(now, use_log),
{
    let freshness = decayed(retention_age(memory, now), Single { bits: FRESH_DAYS });
    let usage = use_log.over(Single { bits: FULL_USAGE }).min(Single { bits: ONE_BITS });
    let score = memory.importance.clamp_unit().times(Single { bits: IMPORTANCE_WEIGHT }).plus(
        memory.confidence.clamp_unit().times(Single { bits: CONFIDENCE_WEIGHT }),
    ).plus(freshness.times(Single { bits: FRESHNESS_WEIGHT })).plus(
        usage.times(Single { bits: USAGE_WEIGHT }),
    );
    if memory.pinned {
        score.plus(Single { bits: PINNED_BONUS })
    } else {
        score
    }
}

/// A score from the number of common terms and the retention.
pub open spec fn term_score(overlap: int, retention: Single) -> Single {
    sum(
        product(of_count(overlap), Single { bits: TERM_WEIGHT }),
        product(retention, Single { bits: RETENTION_WEIGHT }),
    )
}

/// How well a memory answers a query with these terms.
pub fn lexical_score_with_terms(
    terms: &Vec<String>,
    memory: &MemoryRecord,
    now: i64,
    use_log: Single,
) -> (r: Single)
    ensures
        r == term_score(
            shared(texts(terms@), words(memory@.normalized_content)) as int,
            memory@.retention(now, use_log),
        ),
{
    let overlap = Single::from_count(term_overlap(terms, memory) as u128);
    overlap.times(Single { bits: TERM_WEIGHT }).plus(
        retention_score(memory, now, use_log).times(Single { bits: RETENTION_WEIGHT }),
    )
}

/// How well a memory answers a query.
pub fn lexical_score(query: &str, memory: &MemoryRecord, now: i64, use_log: Single) -> (r: Single)
    ensures
        r == term_score(
            shared(term_list(query@), words(memory@.normalized_content)) as int,
            memory@.retention(now, use_log),
        ),
{
    lexical_score_with_terms(&lexical_terms(query), memory, now, use_log)
}

/// A read makes a memory at least as fresh as the time of the read.
pub proof fn access_keeps_fresh(m: MemoryModel, now: i64)
    ensures
        m.touched_at(now).anchor() >= now,
        m.touched_at(now).anchor() >= m.updated_at,
{
}

/// What is left of one gets no larger with time, and is never negative.
pub proof fn decay_falls(earlier: int, later: int, days: Single)
    requires
        0 <= earlier <= later,
        0 < days.bits < INFINITE_BITS,
    ensures
        decay(earlier, days).nonnegative(),
        decay(later, days).nonnegative(),
        decay(later, days).order() <= decay(earlier, days).order(),
{
    let one = Single { bits: ONE_BITS };
    let day = Single { bits: DAY };
    let none = Single { bits: 0 };
    counts_grow(earlier, later);
    quotient_grows(of_count(earlier), of_count(later), day);
    let a = quotient(of_count(earlier), day);
    let b = quotient(of_count(later), day);
    quotient_grows(a, b, days);
    let x = quotient(a, days);
    let y = quotient(b, days);
    sum_grows(x, y, one);
    sum_grows(y, y, one);
    sum_grows(none, one, x);
    sum_grows(none, x, one);
    sum_is_kept(one);
    quotient_falls(one, sum(one, x), sum(one, y));
}

/// What is left of one is never more than one.
proof fn decay_is_bounded(seconds: int, days: Single)
    requires
        0 <= seconds,
        0 < days.bits < INFINITE_BITS,
    ensures
        decay(seconds, days).unit(),
{
    let one = Single { bits: ONE_BITS };
    let none = Single { bits: 0 };
    let day = Single { bits: DAY };
    decay_falls(seconds, seconds, days);
    counts_grow(seconds, seconds);
    let a = quotient(of_count(seconds), day);
    quotient_grows(of_count(seconds), of_count(seconds), day);
    quotient_grows(a, a, days);
    let x = quotient(a, days);
    sum_grows(none, x, one);
    sum_grows(x, x, one);
    sum_is_kept(one);
    quotient_of_equals(one);
    quotient_falls(one, one, sum(one, x));
}

pub(crate) proof fn sums_grow(a: Single, b: Single, c: Single, d: Single)
    requires
        a.nonnegative(),
        b.nonnegative(),
        c.nonnegative(),
        d.nonnegative(),
        a.order() <= b.order(),
        c.order() <= d.order(),
    ensures
        sum(a, c).nonnegative(),
        sum(b, d).nonnegative(),
        sum(a, c).order() <= sum(b, d).order(),
{
    sum_grows(a, b, c);
    sum_grows(c, d, b);
    sum_grows(d, d, b);
}

/// The sum of the four parts of a retention.
spec fn weighed(
    importance: Single,
    confidence: Single,
    freshness: Single,
    usage: Single,
) -> Single {
    sum(
        sum(
            sum(
                product(importance, Single { bits: IMPORTANCE_WEIGHT }),
                product(confidence, Single { bits: CONFIDENCE_WEIGHT }),
            ),
            product(freshness, Single { bits: FRESHNESS_WEIGHT }),
        ),
        product(usage, Single { bits: USAGE_WEIGHT }),
    )
}

proof fn weighed_grows(
    i: Single,
    j: Single,
    c: Single,
    d: Single,
    f: Single,
    g: Single,
    u: Single,
    v: Single,
)
    requires
        i.nonnegative(),
        j.nonnegative(),
        c.nonnegative(),
        d.nonnegative(),
        f.nonnegative(),
        g.nonnegative(),
        u.nonnegative(),
        v.nonnegative(),
        i.order() <= j.order(),
        c.order() <= d.order(),
        f.order() <= g.order(),
        u.order() <= v.order(),
    ensures
        weighed(i, c, f, u).nonnegative(),
        weighed(j, d, g, v).nonnegative(),
        weighed(i, c, f, u).order() <= weighed(j, d, g, v).order(),
{
    let a = Single { bits: IMPORTANCE_WEIGHT };
    let b = Single { bits: CONFIDENCE_WEIGHT };
    let x = Single { bits: FRESHNESS_WEIGHT };
    let y = Single { bits: USAGE_WEIGHT };
    product_grows(i, j, a);
    product_grows(c, d, b);
    product_grows(f, g, x);
    product_grows(u, v, y);
    sums_grow(product(i, a), product(j, a), product(c, b), product(d, b));
    let p = sum(product(i, a), product(c, b));
    let q = sum(product(j, a), product(d, b));
    sums_grow(p, q, product(f, x), product(g, x));
    sums_grow(sum(p, product(f, x)), sum(q, product(g, x)), product(u, y), product(v, y));
}

/// The weights of the four parts add up to one.
proof fn weights_add_up()
    ensures
        weighed(
            Single { bits: ONE_BITS },
            Single { bits: ONE_BITS },
            Single { bits: ONE_BITS },
            Single { bits: ONE_BITS },
        ) == (Single { bits: ONE_BITS }),
        sum(Single { bits: ONE_BITS }, Single { bits: PINNED_BONUS }) == (Single {
            bits: FULL_RETENTION,
        }),
{
    product_is_kept(Single { bits: IMPORTANCE_WEIGHT });
    product_is_kept(Single { bits: CONFIDENCE_WEIGHT });
    product_is_kept(Single { bits: FRESHNESS_WEIGHT });
    product_is_kept(Single { bits: USAGE_WEIGHT });
    reveal_with_fuel(doubled, 5);
    sum_of_positive(Single { bits: IMPORTANCE_WEIGHT }, Single { bits: CONFIDENCE_WEIGHT }, 0x251eb85, 2);
    assert(doubled(1, 2) == 4);
    assert(nearest(0x251eb85, 4) == 0x947ae1);
    assert(sum(Single { bits: IMPORTANCE_WEIGHT }, Single { bits: CONFIDENCE_WEIGHT }).bits == 0x3f14_7ae1);
    sum_of_positive(Single { bits: 0x3f14_7ae1 }, Single { bits: FRESHNESS_WEIGHT }, 0x1b33333, 1);
    assert(doubled(1, 1) == 2);
    assert(nearest(0x1b33333, 2) == 0xd9999a);
    assert(sum(Single { bits: 0x3f14_7ae1 }, Single { bits: FRESHNESS_WEIGHT }).bits == 0x3f59_999a);
    sum_of_positive(Single { bits: 0x3f59_999a }, Single { bits: USAGE_WEIGHT }, 0x4000002, 3);
    assert(doubled(1, 3) == 8);
    assert(nearest(0x4000002, 8) == 0x800000);
    assert(sum(Single { bits: 0x3f59_999a }, Single { bits: USAGE_WEIGHT }).bits == ONE_BITS);
    sum_of_positive(Single { bits: ONE_BITS }, Single { bits: PINNED_BONUS }, 0x2800000, 2);
    assert(doubled(1, 2) == 4);
    assert(nearest(0x2800000, 4) == 0xa00000);
    assert(sum(Single { bits: ONE_BITS }, Single { bits: PINNED_BONUS }).bits == FULL_RETENTION);
}

/// A memory is worth no less than another one that is pinned alike, weighs no more, has not been
/// used more recently and is not used more often.
pub proof fn retention_grows(
    low: MemoryModel,
    high: MemoryModel,
    low_now: i64,
    high_now: i64,
    low_log: Single,
    high_log: Single,
)
    requires
        !low.importance.nan(),
        !low.confidence.nan(),
        !high.importance.nan(),
        !high.confidence.nan(),
        low.importance.order() <= high.importance.order(),
        low.confidence.order() <= high.confidence.order(),
        high.idle(high_now) <= low.idle(low_now),
        low_log.nonnegative(),
        high_log.nonnegative(),
        low_log.order() <= high_log.order(),
        low.pinned == high.pinned,
    ensures
        low.retention(low_now, low_log).nonnegative(),
        high.retention(high_now, high_log).nonnegative(),
        low.retention(low_now, low_log).order() <= high.retention(high_now, high_log).order(),
{
    let one = Single { bits: ONE_BITS };
    let days = Single { bits: FRESH_DAYS };
    let full = Single { bits: FULL_USAGE };
    let bonus = Single { bits: PINNED_BONUS };
    let f = decay(low.idle(low_now), days);
    let g = decay(high.idle(high_now), days);
    let u = quotient(low_log, full).smaller(one);
    let v = quotient(high_log, full).smaller(one);
    let i = low.importance.unit_clamped();
    let j = high.importance.unit_clamped();
    let c = low.confidence.unit_clamped();
    let d = high.confidence.unit_clamped();
    decay_falls(high.idle(high_now), low.idle(low_now), days);
    quotient_grows(low_log, high_log, full);
    weighed_grows(i, j, c, d, f, g, u, v);
    sums_grow(weighed(i, c, f, u), weighed(j, d, g, v), bonus, bonus);
}

/// A memory that was used more recently, and no less often, is worth no less.
pub proof fn recent_use_is_rewarded(
    old: MemoryModel,
    recent: MemoryModel,
    now: i64,
    old_log: Single,
    recent_log: Single,
)
    requires
        recent.importance == old.importance,
        recent.confidence == old.confidence,
        recent.pinned == old.pinned,
        !old.importance.nan(),
        !old.confidence.nan(),
        recent.idle(now) <= old.idle(now),
        old_log.nonnegative(),
        recent_log.nonnegative(),
        old_log.order() <= recent_log.order(),
    ensures
        old.retention(now, old_log).nonnegative(),
        recent.retention(now, recent_log).nonnegative(),
        old.retention(now, old_log).order() <= recent.retention(now, recent_log).order(),
{
    retention_grows(old, recent, now, now, old_log, recent_log);
}

/// Retention fades with time and is never negative; it is the same as long as the memory was last
/// used at that time or later.
pub proof fn retention_fades(m: MemoryModel, earlier: i64, later: i64, use_log: Single)
    requires
        earlier <= later,
        !m.importance.nan(),
        !m.confidence.nan(),
        use_log.nonnegative(),
    ensures
        m.retention(later, use_log).nonnegative(),
        m.retention(later, use_log).order() <= m.retention(earlier, use_log).order(),
        later <= m.anchor() ==> m.retention(later, use_log) == m.retention(earlier, use_log),
{
    retention_grows(m, m, later, earlier, use_log, use_log);
}

/// Retention is never negative, and no more than one, or one and a quarter for a pinned memory.
pub proof fn retention_is_bounded(m: MemoryModel, now: i64, use_log: Single)
    requires
        !m.importance.nan(),
        !m.confidence.nan(),
        use_log.nonnegative(),
    ensures
        m.retention(now, use_log).nonnegative(),
        m.retention(now, use_log).order() <= (if m.pinned {
            FULL_RETENTION
        } else {
            ONE_BITS
        }),
{
    let one = Single { bits: ONE_BITS };
    let days = Single { bits: FRESH_DAYS };
    let full = Single { bits: FULL_USAGE };
    let bonus = Single { bits: PINNED_BONUS };
    let f = decay(m.idle(now), days);
    let u = quotient(use_log, full).smaller(one);
    let i = m.importance.unit_clamped();
    let c = m.confidence.unit_clamped();
    decay_is_bounded(m.idle(now), days);
    quotient_grows(use_log, use_log, full);
    weighed_grows(i, one, c, one, f, one, u, one);
    weights_add_up();
    sums_grow(weighed(i, c, f, u), one, bonus, bonus);
}

/// A memory that is pinned is worth more than it would be otherwise.
pub proof fn pinning_is_rewarded(m: MemoryModel, now: i64, use_log: Single)
    requires
        !m.importance.nan(),
        !m.confidence.nan(),
        use_log.nonnegative(),
    ensures
        (MemoryModel { pinned: false, ..m }).retention(now, use_log).order() < (MemoryModel {
            pinned: true,
            ..m
        }).retention(now, use_log).order(),
{
    let plain = MemoryModel { pinned: false, ..m };
    retention_is_bounded(plain, now, use_log);
    sum_exceeds(plain.retention(now, use_log), Single { bits: PINNED_BONUS });
}

/// The more often a memory is read, the larger the number that the logarithm is taken of.
pub proof fn reading_raises_use(fewer: u64, more: u64)
    requires
        fewer <= more,
    ensures
        sum(of_count(fewer as int), Single { bits: ONE_BITS }).nonnegative(),
        sum(of_count(fewer as int), Single { bits: ONE_BITS }).order() <= sum(
            of_count(more as int),
            Single { bits: ONE_BITS },
        ).order(),
{
    counts_grow(fewer as int, more as int);
    sum_grows(of_count(fewer as int), of_count(more as int), Single { bits: ONE_BITS });
}

/// A memory that is read is worth no less afterwards.
pub proof fn reading_is_rewarded(
    m: MemoryModel,
    read_at: i64,
    now: i64,
    use_log: Single,
    next_log: Single,
)
    requires
        m.last_accessed_at matches Some(t) ==> t <= read_at,
        !m.importance.nan(),
        !m.confidence.nan(),
        use_log.nonnegative(),
        next_log.nonnegative(),
        use_log.order() <= next_log.order(),
    ensures
        m.retention(now, use_log).order() <= m.touched_at(read_at).retention(
            now,
            next_log,
        ).order(),
{
    recent_use_is_rewarded(m, m.touched_at(read_at), now, use_log, next_log);
}

/// The words that turn a statement around.
pub open spec fn negations() -> Seq<Seq<char>> {
    seq!["not"@, "never"@, "no"@, "without"@, "disable"@, "avoid"@]
}

/// Whether one of the negations stands in one text and not in the other.
pub open spec fn polarity_differs(left: Seq<char>, right: Seq<char>) -> bool {
    exists|i: int|
        0 <= i < negations().len() && term_list(left).contains(#[trigger] negations()[i])
            != term_list(right).contains(negations()[i])
}

fn differs_in(left: &Vec<String>, right: &Vec<String>, word: &str) -> (r: bool)
    ensures
        r == (texts(left@).contains(word@) != texts(right@).contains(word@)),
{
    contains_text(left, word) != contains_text(right, word)
}

/// Whether one of the negations stands in one text and not in the other.
pub fn negation_mismatch(left: &str, right: &str) -> (r: bool)
    ensures
        r == polarity_differs(left@, right@),
{
    let l = lexical_terms(left);
    let r = lexical_terms(right);
    let differs = differs_in(&l, &r, "not") || differs_in(&l, &r, "never") || differs_in(
        &l,
        &r,
        "no",
    ) || differs_in(&l, &r, "without") || differs_in(&l, &r, "disable") || differs_in(
        &l,
        &r,
        "avoid",
    );
    proof {
        let n = negations();
        assert(n[0] == "not"@ && n[1] == "never"@ && n[2] == "no"@ && n[3] == "without"@ && n[4]
            == "disable"@ && n[5] == "avoid"@);
    }
    differs
}

/// Both texts are treated alike when their polarity is compared.
pub proof fn polarity_is_symmetric(left: Seq<char>, right: Seq<char>)
    ensures
        polarity_differs(left, right) == polarity_differs(right, left),
        !polarity_differs(left, left),
{
    if polarity_differs(left, right) {
        let i = choose|i: int|
            0 <= i < negations().len() && term_list(left).contains(#[trigger] negations()[i])
                != term_list(right).contains(negations()[i]);
        assert(term_list(right).contains(negations()[i]) != term_list(left).contains(
            negations()[i],
        ));
    }
    if polarity_differs(right, left) {
        let i = choose|i: int|
            0 <= i < negations().len() && term_list(right).contains(#[trigger] negations()[i])
                != term_list(left).contains(negations()[i]);
        assert(term_list(left).contains(negations()[i]) != term_list(right).contains(
            negations()[i],
        ));
    }
}

/// The pattern of 0.90.
pub const PARAPHRASE_LEXICAL: u32 = 0x3f66_6666;

/// The pattern of 0.94.
pub const PARAPHRASE_BLENDED: u32 = 0x3f70_a3d7;

/// The pattern of 0.70.
pub const REVIEW_BLENDED: u32 = 0x3f33_3333;

/// The pattern of 0.65.
pub const REVIEW_LEXICAL: u32 = 0x3f26_6666;

/// A paraphrase that may be merged without a second look.
pub open spec fn is_paraphrase(
    same_kind: bool,
    polarity_changed: bool,
    lexical: Single,
    blended: Single,
) -> bool {
    same_kind && !polarity_changed && lexical.not_below(Single { bits: PARAPHRASE_LEXICAL })
        && blended.not_below(Single { bits: PARAPHRASE_BLENDED })
}

/// Close enough to deserve a look.
pub open spec fn is_similar(lexical: Single, blended: Single) -> bool {
    blended.not_below(Single { bits: REVIEW_BLENDED }) || lexical.not_below(
        Single { bits: REVIEW_LEXICAL },
    )
}

/// What to do with two memories whose contents differ.
pub open spec fn disposition(
    same_kind: bool,
    polarity_changed: bool,
    lexical: Single,
    blended: Single,
) -> MergeDisposition {
    if is_paraphrase(same_kind, polarity_changed, lexical, blended) {
        MergeDisposition::Equivalent
    } else if is_similar(lexical, blended) {
        MergeDisposition::NeedsReview
    } else {
        MergeDisposition::Distinct
    }
}

/// Why two memories whose contents differ are treated so.
pub open spec fn explanation(
    same_kind: bool,
    polarity_changed: bool,
    lexical: Single,
    blended: Single,
) -> Seq<char> {
    if is_paraphrase(same_kind, polarity_changed, lexical, blended) {
        "high-confidence same-kind paraphrase"@
    } else if is_similar(lexical, blended) {
        if polarity_changed {
            "similar content with a possible polarity change"@
        } else if !same_kind {
            "similar content with a different memory kind"@
        } else {
            "similar content requires consolidation review"@
        }
    } else {
        "insufficient similarity"@
    }
}

/// Whether the new content is the stored one, white space and case aside.
pub open spec fn same_content(existing: MemoryModel, incoming: Seq<char>) -> bool {
    existing.normalized_content == normalized(incoming)
}

/// The pattern of 0.45.
pub const LEXICAL_WEIGHT: u32 = 0x3ee6_6666;

/// The pattern of 0.55.
pub const SEMANTIC_WEIGHT: u32 = 0x3f0c_cccd;

/// How similar two memories are: the share of common terms, weighed against a semantic score
/// where there is one.
pub open spec fn overall_score(lexical: Single, semantic_score: Option<Single>) -> Single {
    match semantic_score {
        Some(s) => sum(
            product(lexical, Single { bits: LEXICAL_WEIGHT }),
            product(s.unit_clamped(), Single { bits: SEMANTIC_WEIGHT }),
        ),
        None => lexical,
    }
}

/// Whether this is how a new memory compares with a stored one.
pub open spec fn assesses(
    r: MergeAssessment,
    existing: MemoryModel,
    incoming: NewMemory,
    semantic_score: Option<Single>,
) -> bool {
    if same_content(existing, incoming.content@) {
        &&& r.disposition == MergeDisposition::Equivalent
        &&& r.score == Single { bits: ONE_BITS }
        &&& r.lexical_score == Single { bits: ONE_BITS }
        &&& r.semantic_score == semantic_score
        &&& r.reason@ == "exact normalized content"@
    } else {
        let same_kind = existing.kind == incoming.kind;
        let polarity_changed = polarity_differs(existing.content, incoming.content@);
        let lexical = similarity(incoming.content@, existing.normalized_content);
        let score = overall_score(lexical, semantic_score);
        &&& r.disposition == disposition(same_kind, polarity_changed, lexical, score)
        &&& r.score == score
        &&& r.lexical_score == lexical
        &&& r.semantic_score == (match semantic_score {
            Some(s) => Some(s.unit_clamped()),
            None => None,
        })
        &&& r.reason@ == explanation(same_kind, polarity_changed, lexical, score)
    }
}

/// Compares a new memory with a stored one.
pub fn assess_merge_candidate(
    existing: &MemoryRecord,
    incoming: &NewMemory,
    semantic_score: Option<Single>,
) -> (r: MergeAssessment)
    ensures
        assesses(r, existing@, *incoming, semantic_score),
{
    let normal = normalize(incoming.content.as_str());
    if same_text(existing.normalized_content.as_str(), normal.as_str()) {
        return MergeAssessment {
            disposition: MergeDisposition::Equivalent,
            score: Single { bits: ONE_BITS },
            lexical_score: Single { bits: ONE_BITS },
            semantic_score,
            reason: "exact normalized content".to_owned(),
        };
    }
    let semantic = match semantic_score {
        Some(s) => Some(s.clamp_unit()),
        None => None,
    };
    let lexical = lexical_similarity(incoming.content.as_str(), existing);
    let score = match semantic {
        Some(s) => lexical.times(Single { bits: LEXICAL_WEIGHT }).plus(
            s.times(Single { bits: SEMANTIC_WEIGHT }),
        ),
        None => lexical,
    };
    let same_kind = existing.kind == incoming.kind;
    let polarity_changed = negation_mismatch(existing.content.as_str(), incoming.content.as_str());
    if same_kind && !polarity_changed && lexical.at_least(Single { bits: PARAPHRASE_LEXICAL })
        && score.at_least(Single { bits: PARAPHRASE_BLENDED }) {
        MergeAssessment {
            disposition: MergeDisposition::Equivalent,
            score,
            lexical_score: lexical,
            semantic_score: semantic,
            reason: "high-confidence same-kind paraphrase".to_owned(),
        }
    } else if score.at_least(Single { bits: REVIEW_BLENDED }) || lexical.at_least(
        Single { bits: REVIEW_LEXICAL },
    ) {
        let reason = if polarity_changed {
            "similar content with a possible polarity change"
        } else if !same_kind {
            "similar content with a different memory kind"
        } else {
            "similar content requires consolidation review"
        };
        MergeAssessment {
            disposition: MergeDisposition::NeedsReview,
            score,
            lexical_score: lexical,
            semantic_score: semantic,
            reason: reason.to_owned(),
        }
    } else {
        MergeAssessment {
            disposition: MergeDisposition::Distinct,
            score,
            lexical_score: lexical,
            semantic_score: semantic,
            reason: "insufficient similarity".to_owned(),
        }
    }
}

/// Only equal contents are merged in any case. Contents that differ are merged as paraphrases of
/// one kind and one polarity with nearly the same terms, whatever a reranker says of them; similar
/// contents that differ in kind or polarity are put up for review.
pub proof fn merging_is_conservative(
    r: MergeAssessment,
    existing: MemoryModel,
    incoming: NewMemory,
    semantic_score: Option<Single>,
)
    requires
        assesses(r, existing, incoming, semantic_score),
    ensures
        same_content(existing, incoming.content@) ==> r.disposition
            == MergeDisposition::Equivalent,
        r.disposition == MergeDisposition::Equivalent ==> same_content(existing, incoming.content@)
            || (existing.kind == incoming.kind && !polarity_differs(
            existing.content,
            incoming.content@,
        ) && r.lexical_score.not_below(Single { bits: PARAPHRASE_LEXICAL })),
        !same_content(existing, incoming.content@) && (existing.kind != incoming.kind
            || polarity_differs(existing.content, incoming.content@)) && is_similar(
            r.lexical_score,
            r.score,
        ) ==> r.disposition == MergeDisposition::NeedsReview,
        r.disposition == MergeDisposition::Distinct ==> !is_similar(r.lexical_score, r.score),
{
}

/// A memory that is offered a second time, in whatever spacing, has the content of its record.
pub proof fn repeated_memory_has_same_content(memory: NewMemory, now: i64, id: Seq<char>)
    ensures
        same_content(memory.record(now, id), memory.content@),
{
    normalization_ignores_padding(memory.content@);
}

/// Contents that differ are distinct exactly where the score is below 0.70 and the lexical score is
/// below 0.65; a score of 0.70 or more is never distinct, and neither is a lexical score of 0.65 or
/// more. A score that is no number counts as too low.
pub proof fn distinct_means_low_scores(
    r: MergeAssessment,
    existing: MemoryModel,
    incoming: NewMemory,
    semantic_score: Option<Single>,
)
    requires
        assesses(r, existing, incoming, semantic_score),
        existing.normalized_content != normalized(incoming.content@),
    ensures
        r.disposition == MergeDisposition::Distinct <==> (r.score.nan() || r.score.order()
            < 0x3f33_3333) && (r.lexical_score.nan() || r.lexical_score.order() < 0x3f26_6666),
        !r.score.nan() && r.score.order() >= 0x3f33_3333 ==> r.disposition
            != MergeDisposition::Distinct,
{
}

/// Contents that differ are equivalent exactly where kind and polarity are the same, the lexical
/// score is 0.90 or more and the score 0.94 or more; what is neither equivalent nor distinct needs a
/// review.
pub proof fn equivalent_means_high_scores(
    r: MergeAssessment,
    existing: MemoryModel,
    incoming: NewMemory,
    semantic_score: Option<Single>,
)
    requires
        assesses(r, existing, incoming, semantic_score),
        existing.normalized_content != normalized(incoming.content@),
    ensures
        r.disposition == MergeDisposition::Equivalent <==> existing.kind == incoming.kind
            && !polarity_differs(existing.content, incoming.content@) && !r.lexical_score.nan()
            && r.lexical_score.order() >= 0x3f66_6666 && !r.score.nan() && r.score.order()
            >= 0x3f70_a3d7,
        r.disposition == MergeDisposition::Distinct <==> r.reason@ == "insufficient similarity"@,
        r.disposition == MergeDisposition::Equivalent <==> r.reason@
            == "high-confidence same-kind paraphrase"@,
        r.disposition == MergeDisposition::NeedsReview ==> r.reason@ == (if polarity_differs(
            existing.content,
            incoming.content@,
        ) {
            "similar content with a possible polarity change"@
        } else if existing.kind != incoming.kind {
            "similar content with a different memory kind"@
        } else {
            "similar content requires consolidation review"@
        }),
{
    reveal_strlit("insufficient similarity");
    reveal_strlit("high-confidence same-kind paraphrase");
    reveal_strlit("similar content with a possible polarity change");
    reveal_strlit("similar content with a different memory kind");
    reveal_strlit("similar content requires consolidation review");
    assert("insufficient similarity"@.len() == 23);
    assert("high-confidence same-kind paraphrase"@.len() == 36);
    assert("similar content with a possible polarity change"@.len() == 47);
    assert("similar content with a different memory kind"@.len() == 44);
    assert("similar content requires consolidation review"@.len() == 45);
}

/// The same content is always equivalent, with full marks, whatever its kind and whatever a reranker
/// says; the semantic score is handed on as it came.
pub proof fn same_content_is_equivalent(
    r: MergeAssessment,
    existing: MemoryModel,
    incoming: NewMemory,
    semantic_score: Option<Single>,
)
    requires
        assesses(r, existing, incoming, semantic_score),
        existing.normalized_content == normalized(incoming.content@),
    ensures
        r.disposition == MergeDisposition::Equivalent,
        r.score == (Single { bits: 0x3f80_0000 }),
        r.lexical_score == (Single { bits: 0x3f80_0000 }),
        r.semantic_score == semantic_score,
        r.reason@ == "exact normalized content"@,
{
}

/// The score of contents that differ is the lexical score where there is no semantic one, and
/// otherwise 0.45 of the lexical and 0.55 of the semantic score, which is brought between zero and
/// one; of two semantic scores the higher gives no lower score.
pub proof fn scores_are_blended(
    r: MergeAssessment,
    existing: MemoryModel,
    incoming: NewMemory,
    semantic_score: Option<Single>,
)
    requires
        assesses(r, existing, incoming, semantic_score),
        existing.normalized_content != normalized(incoming.content@),
    ensures
        r.lexical_score == similarity(incoming.content@, existing.normalized_content),
        semantic_score is None ==> r.score == r.lexical_score && r.semantic_score is None,
        semantic_score matches Some(s) ==> r.semantic_score == Some(s.unit_clamped()) && r.score
            == sum(
            product(r.lexical_score, Single { bits: 0x3ee6_6666 }),
            product(s.unit_clamped(), Single { bits: 0x3f0c_cccd }),
        ),
{
}

/// A higher semantic score gives no lower assessment.
pub proof fn semantic_scores_raise_the_assessment(
    low: MergeAssessment,
    high: MergeAssessment,
    existing: MemoryModel,
    incoming: NewMemory,
    low_score: Single,
    high_score: Single,
)
    requires
        assesses(low, existing, incoming, Some(low_score)),
        assesses(high, existing, incoming, Some(high_score)),
        !low_score.nan(),
        !high_score.nan(),
        low_score.order() <= high_score.order(),
        similarity(incoming.content@, existing.normalized_content).nonnegative(),
    ensures
        low.score.order() <= high.score.order(),
        low.disposition == MergeDisposition::Equivalent ==> high.disposition
            == MergeDisposition::Equivalent,
        high.disposition == MergeDisposition::Distinct ==> low.disposition
            == MergeDisposition::Distinct,
{
    let x = low_score.unit_clamped();
    let y = high_score.unit_clamped();
    let w = Single { bits: 0x3f0c_cccd };
    let a = similarity(incoming.content@, existing.normalized_content);
    let v = Single { bits: 0x3ee6_6666 };
    product_grows(x, y, w);
    product_grows(a, a, v);
    sums_grow(product(a, v), product(a, v), product(x, w), product(y, w));
}

/// The terms of a text: the words of its normal form that take two bytes or more.
pub open spec fn terms_of(s: Seq<char>) -> Set<Seq<char>> {
    Set::new(|t: Seq<char>| words(normalized(s)).contains(t) && encode_utf8(t).len() >= 2)
}

/// The similarity of two texts is the number of terms that both have, divided by the number of terms
/// that one of them has, in single precision; zero where one of them has no terms.
pub proof fn similarity_counts_common_terms(left: Seq<char>, right: Seq<char>)
    ensures
        ({
            let a = terms_of(left);
            let b = terms_of(right);
            &&& a.finite() && b.finite()
            &&& a.len() > 0 && b.len() > 0 ==> similarity(left, right) == quotient(
                of_count(a.intersect(b).len() as int),
                of_count(a.union(b).len() as int),
            )
            &&& a.len() == 0 || b.len() == 0 ==> similarity(left, right) == (Single { bits: 0 })
        }),
{
    assert(terms_of(left) =~= term_list(left).to_set()) by {
        assert forall|t: Seq<char>| terms_of(left).contains(t) <==> term_list(left).to_set().contains(
            t,
        ) by {
            terms_are_long_words(left, t);
        }
    }
    assert(terms_of(right) =~= term_list(right).to_set()) by {
        assert forall|t: Seq<char>|
            terms_of(right).contains(t) <==> term_list(right).to_set().contains(t) by {
            terms_are_long_words(right, t);
        }
    }
}

/// Two texts differ in polarity exactly where one of them has one of six negations as a term and the
/// other has not.
pub proof fn polarity_is_about_six_words(left: Seq<char>, right: Seq<char>)
    ensures
        polarity_differs(left, right) <==> {
            ||| terms_of(left).contains("not"@) != terms_of(right).contains("not"@)
            ||| terms_of(left).contains("never"@) != terms_of(right).contains("never"@)
            ||| terms_of(left).contains("no"@) != terms_of(right).contains("no"@)
            ||| terms_of(left).contains("without"@) != terms_of(right).contains("without"@)
            ||| terms_of(left).contains("disable"@) != terms_of(right).contains("disable"@)
            ||| terms_of(left).contains("avoid"@) != terms_of(right).contains("avoid"@)
        },
{
    let n = negations();
    assert forall|t: Seq<char>| #[trigger] terms_of(left).contains(t) == term_list(left).contains(
        t,
    ) by {
        terms_are_long_words(left, t);
    }
    assert forall|t: Seq<char>| #[trigger] terms_of(right).contains(t) == term_list(
        right,
    ).contains(t) by {
        terms_are_long_words(right, t);
    }
    let all = seq!["not"@, "never"@, "no"@, "without"@, "disable"@, "avoid"@];
    assert(n =~= all);
    assert(n[0] == "not"@ && n[1] == "never"@ && n[2] == "no"@ && n[3] == "without"@ && n[4]
        == "disable"@ && n[5] == "avoid"@);
    if polarity_differs(left, right) {
        let i = choose|i: int|
            0 <= i < negations().len() && term_list(left).contains(#[trigger] negations()[i])
                != term_list(right).contains(negations()[i]);
        assert(i == 0 || i == 1 || i == 2 || i == 3 || i == 4 || i == 5);
    }
}

/// Retention is 0.34 of the importance, 0.24 of the confidence, 0.27 of the freshness and 0.15 of the
/// usage, and 0.25 more where the memory is pinned. Importance and confidence count as brought between
/// zero and one, freshness is 1 / (1 + days / 45) over the days since the memory was last written or
/// read, and usage is a fifth of the logarithm, one at most.
pub proof fn retention_weighs_its_parts(
    m: MemoryModel,
    now: i64,
    use_log: Single,
    last_use: i64,
    seconds: int,
)
    requires
        last_use == (match m.last_accessed_at {
            Some(t) => if t >= m.updated_at {
                t
            } else {
                m.updated_at
            },
            None => m.updated_at,
        }),
        seconds == (if now >= last_use {
            now - last_use
        } else {
            0
        }),
    ensures
        ({
            let one = Single { bits: 0x3f80_0000 };
            let days = quotient(of_count(seconds), Single { bits: 0x47a8_c000 });
            let freshness = quotient(one, sum(one, quotient(days, Single { bits: 0x4234_0000 })));
            let usage = quotient(use_log, Single { bits: 0x40a0_0000 }).smaller(one);
            let plain = sum(
                sum(
                    sum(
                        product(m.importance.unit_clamped(), Single { bits: 0x3eae_147b }),
                        product(m.confidence.unit_clamped(), Single { bits: 0x3e75_c28f }),
                    ),
                    product(freshness, Single { bits: 0x3e8a_3d71 }),
                ),
                product(usage, Single { bits: 0x3e19_999a }),
            );
            &&& !m.pinned ==> m.retention(now, use_log) == plain
            &&& m.pinned ==> m.retention(now, use_log) == sum(plain, Single { bits: 0x3e80_0000 })
        }),
{
}

/// A term score is 1.5 for each distinct query term that is a word of the memory, and four times the
/// retention.
pub proof fn term_scores_weigh_overlap_and_retention(overlap: int, retention: Single)
    ensures
        term_score(overlap, retention) == sum(
            product(of_count(overlap), Single { bits: 0x3fc0_0000 }),
            product(retention, Single { bits: 0x4080_0000 }),
        ),
{
}

/// Of distinct terms, those count that occur among the values.
pub proof fn shared_terms_are_common(terms: Seq<Seq<char>>, values: Seq<Seq<char>>)
    requires
        terms.no_duplicates(),
    ensures
        shared(terms, values) == terms.to_set().intersect(values.to_set()).len(),
{
    shared_is_intersection(terms, values);
}

/// The words of a query are those of its normal form, however short.
pub proof fn query_words_are_those_of_the_normal_form(s: Seq<char>, w: Seq<char>)
    ensures
        word_list(s).contains(w) <==> words(normalized(s)).contains(w),
        word_list(s).no_duplicates(),
{
    first_occurrences_facts(words(normalized(s)));
}

/// A memory is scored by the terms of the query that occur among the words of its normal form, each at
/// 1.5, and by four times its retention.
pub proof fn term_scores_count_the_query_terms(
    query: &str,
    memory: MemoryRecord,
    now: i64,
    use_log: Single,
    r: Single,
)
    requires
        call_ensures(lexical_score, (query, &memory, now, use_log), r),
    ensures
        r == sum(
            product(
                of_count(
                    terms_of(query@).intersect(words(memory.normalized_content@).to_set()).len() as int,
                ),
                Single { bits: 0x3fc0_0000 },
            ),
            product(memory@.retention(now, use_log), Single { bits: 0x4080_0000 }),
        ),
{
    let terms = term_list(query@);
    first_occurrences_facts(long_terms(words(normalized(query@))));
    shared_terms_are_common(terms, words(memory.normalized_content@));
    assert(terms.to_set() =~= terms_of(query@)) by {
        assert forall|t: Seq<char>| terms_of(query@).contains(t) <==> terms.to_set().contains(t) by {
            terms_are_long_words(query@, t);
        }
    }
}

/// The use of a memory counts from one; its age from the later of its last change and its last read,
/// and never below zero.
pub proof fn use_and_age_are_counted(
    memory: MemoryRecord,
    now: i64,
    uses: Single,
    age: u64,
)
    requires
        call_ensures(usage_base, (&memory,), uses),
        call_ensures(retention_age, (&memory, now), age),
    ensures
        uses == sum(of_count(memory.access_count as int), Single { bits: 0x3f80_0000 }),
        now <= memory.updated_at ==> age == 0,
        memory.last_accessed_at matches Some(t) ==> now <= t ==> age == 0,
        memory.last_accessed_at is None && now >= memory.updated_at ==> age == now
            - memory.updated_at,
        memory.last_accessed_at matches Some(t) ==> now >= t && t >= memory.updated_at ==> age == now
            - t,
        memory.last_accessed_at matches Some(t) ==> now >= memory.updated_at && t
            <= memory.updated_at ==> age == now - memory.updated_at,
{
}

} // verus!
