use vstd::prelude::*;

use crate::arith::{
    counts_are_positive, counts_grow, doubled, nearest, of_count, quotient_falls, quotient_grows,
    rounded_quotient, share, shares_are_units, shortfall, sum, width,
};
use crate::clock::{clock_reading, now_epoch};
use crate::kinds::{MemoryKind, MemoryScope, MemoryStatus, Sensitivity};
use crate::memory::{MemoryModel, MemoryRecord};
use crate::order::{
    arranged, arranged_facts, descending, filter_keeps_apart, filter_values, has_stable_order,
    keyed_apart, place_order, placed_lists_agree, places, stable_order, stable_positions,
    strictly_placed, text_less, Place, SortKey,
};
use crate::ranking::{retention_score, UsedMemory};
use crate::recall::{clamp, told_apart, within, ScoredMemory};
use crate::sensitivity::{may_read, readable};
use crate::single::Single;
use crate::text::{chars_of, text_between};

verus! {

/// What a prompt needs to know before a conversation starts.
#[derive(Debug, Clone)]
pub struct BaselineQuery {
    pub namespace: String,
    pub workspace_id: String,
    pub max_tokens: usize,
    pub allow_private: bool,
    pub allow_secret: bool,
}

/// One memory of a baseline.
#[derive(Debug, Clone)]
pub struct BaselineEntry {
    pub memory_id: String,
    pub section: String,
    pub content: String,
    pub pinned: bool,
    pub score: Single,
}

/// The memories of a baseline, and how well they fit into its budget.
#[derive(Debug, Clone)]
pub struct MemoryBaseline {
    pub entries: Vec<BaselineEntry>,
    pub estimated_tokens: usize,
    pub max_tokens: usize,
    pub dropped_count: usize,
    /// The estimated tokens as a share of the budget, one and a half at most.
    pub budget_pressure: Single,
}

/// What a `BaselineEntry` says.
#[verifier::ext_equal]
pub struct EntryModel {
    pub memory_id: Seq<char>,
    pub section: Seq<char>,
    pub content: Seq<char>,
    pub pinned: bool,
    pub score: Single,
}

impl View for BaselineEntry {
    type V = EntryModel;

    open spec fn view(&self) -> EntryModel {
        EntryModel {
            memory_id: self.memory_id@,
            section: self.section@,
            content: self.content@,
            pinned: self.pinned,
            score: self.score,
        }
    }
}

/// What a list of entries says.
pub open spec fn entry_models(entries: Seq<BaselineEntry>) -> Seq<EntryModel> {
    Seq::new(entries.len(), |i: int| entries[i]@)
}

impl BaselineQuery {
    /// Whether a memory may stand in the baseline at `now`.
    pub open spec fn admits(&self, m: MemoryModel, now: i64) -> bool {
        m.live(self.namespace@, self.workspace_id@, now) && readable(
            m.sensitivity,
            self.allow_private,
            self.allow_secret,
        )
    }

    /// The budget in tokens.
    pub open spec fn budget(&self) -> int {
        within(self.max_tokens as int, 32, 16_384)
    }

    /// The budget in characters.
    pub open spec fn room(&self) -> int {
        4 * self.budget()
    }

    /// How many characters of one memory are shown at most.
    pub open spec fn entry_room(&self) -> int {
        within(self.room() / 3, 120, 1_200)
    }
}

/// Whether a memory may stand in the baseline at `now`.
fn allowed(memory: &MemoryRecord, query: &BaselineQuery, now: i64) -> (r: bool)
    ensures
        r == query.admits(memory@, now),
{
    memory.is_live(query.namespace.as_str(), query.workspace_id.as_str(), now) && may_read(
        memory.sensitivity,
        query.allow_private,
        query.allow_secret,
    )
}

/// The heading under which a kind of memory is shown.
pub open spec fn section_name(kind: MemoryKind) -> Seq<char> {
    match kind {
        MemoryKind::UserPreference => "User baseline"@,
        MemoryKind::PersonalFact => "User baseline"@,
        MemoryKind::Routine => "User baseline"@,
        MemoryKind::ProjectRule => "Project guardrails"@,
        MemoryKind::WorkingPattern => "Project guardrails"@,
        MemoryKind::ArchitectureDecision => "Architecture knowledge"@,
        MemoryKind::TechnicalFact => "Architecture knowledge"@,
        MemoryKind::OpenIssue => "Current project state"@,
        MemoryKind::ProjectState => "Current project state"@,
        MemoryKind::FailedApproach => "Current project state"@,
        MemoryKind::Episodic => "Recent durable context"@,
    }
}

/// The position of the heading.
pub open spec fn section_rank(kind: MemoryKind) -> int {
    match kind {
        MemoryKind::UserPreference => 0,
        MemoryKind::PersonalFact => 0,
        MemoryKind::Routine => 0,
        MemoryKind::ProjectRule => 1,
        MemoryKind::WorkingPattern => 1,
        MemoryKind::ArchitectureDecision => 2,
        MemoryKind::TechnicalFact => 2,
        MemoryKind::OpenIssue => 3,
        MemoryKind::ProjectState => 3,
        MemoryKind::FailedApproach => 3,
        MemoryKind::Episodic => 4,
    }
}

/// The heading under which a kind of memory is shown, and its position.
pub fn section(kind: &MemoryKind) -> (r: (&'static str, u8))
    ensures
        r.0@ == section_name(*kind),
        r.1 == section_rank(*kind),
        r.0@.len() <= 22,
{
    proof {
        section_name_bound(*kind);
    }
    match kind {
        MemoryKind::UserPreference | MemoryKind::PersonalFact | MemoryKind::Routine => (
            "User baseline",
            0,
        ),
        MemoryKind::ProjectRule | MemoryKind::WorkingPattern => ("Project guardrails", 1),
        MemoryKind::ArchitectureDecision | MemoryKind::TechnicalFact => (
            "Architecture knowledge",
            2,
        ),
        MemoryKind::OpenIssue | MemoryKind::ProjectState | MemoryKind::FailedApproach => (
            "Current project state",
            3,
        ),
        MemoryKind::Episodic => ("Recent durable context", 4),
    }
}

/// No heading is longer than 22 characters.
pub proof fn section_name_bound(kind: MemoryKind)
    ensures
        section_name(kind).len() <= 22,
{
    reveal_strlit("User baseline");
    reveal_strlit("Project guardrails");
    reveal_strlit("Architecture knowledge");
    reveal_strlit("Current project state");
    reveal_strlit("Recent durable context");
    assert("User baseline"@.len() == 13);
    assert("Project guardrails"@.len() == 18);
    assert("Architecture knowledge"@.len() == 22);
    assert("Current project state"@.len() == 21);
    assert("Recent durable context"@.len() == 22);
}

/// The text, or as much of it as fits before an ellipsis.
pub open spec fn shortened(s: Seq<char>, room: int) -> Seq<char> {
    if s.len() <= room {
        s
    } else if room < 3 {
        "..."@
    } else {
        s.take(room - 3) + "..."@
    }
}

/// The text, or as much of it as fits before an ellipsis.
pub fn truncate_chars(value: &str, max_chars: usize) -> (r: String)
    ensures
        r@ == shortened(value@, max_chars as int),
{
    let chars = chars_of(value);
    if chars.len() <= max_chars {
        return value.to_owned();
    }
    let keep: usize = if max_chars < 3 {
        0
    } else {
        max_chars - 3
    };
    let head = text_between(&chars, 0, keep);
    assert(head@ =~= value@.take(keep as int));
    assert(value@.take(0) + "..."@ =~= "..."@);
    head.concat("...")
}

/// A shortened text is no longer than the room, or than the ellipsis.
pub proof fn shortened_bound(s: Seq<char>, room: int)
    requires
        room >= 3,
    ensures
        shortened(s, room).len() <= room,
{
    reveal_strlit("...");
    assert("..."@.len() == 3);
}

/// The pattern of 0.4.
pub const PINNED_LEAD: u32 = 0x3ecc_cccd;

/// The pattern of 0.2.
pub const RULE_LEAD: u32 = 0x3e4c_cccd;

/// The pattern of 0.15.
pub const PREFERENCE_LEAD: u32 = 0x3e19_999a;

/// What a memory gains from its kind.
pub open spec fn kind_lead(kind: MemoryKind) -> Single {
    match kind {
        MemoryKind::ProjectRule | MemoryKind::ArchitectureDecision => Single { bits: RULE_LEAD },
        MemoryKind::UserPreference => Single { bits: PREFERENCE_LEAD },
        _ => Single { bits: 0 },
    }
}

/// The score of a memory in a baseline.
pub open spec fn baseline_worth(m: MemoryModel, now: i64, use_log: Single) -> Single {
    let pinned_lead = if m.pinned {
        Single { bits: PINNED_LEAD }
    } else {
        Single { bits: 0 }
    };
    sum(sum(m.retention(now, use_log), pinned_lead), kind_lead(m.kind))
}

/// The memories, each with its score in a baseline.
pub open spec fn scored_for_baseline(items: Seq<UsedMemory>, now: i64) -> Seq<ScoredMemory> {
    items.map_values(
        |u: UsedMemory|
            ScoredMemory { score: baseline_worth(u.memory@, now, u.use_log), memory: u.memory },
    )
}

/// Scores a memory for a baseline.
pub fn baseline_score(memory: &MemoryRecord, now: i64, use_log: Single) -> (r: Single)
    ensures
        r == baseline_worth(memory@, now, use_log),
{
    let pinned_lead = if memory.pinned {
        Single { bits: PINNED_LEAD }
    } else {
        Single { bits: 0 }
    };
    let kind_lead = match memory.kind {
        MemoryKind::ProjectRule | MemoryKind::ArchitectureDecision => Single { bits: RULE_LEAD },
        MemoryKind::UserPreference => Single { bits: PREFERENCE_LEAD },
        _ => Single { bits: 0 },
    };
    retention_score(memory, now, use_log).plus(pinned_lead).plus(kind_lead)
}

/// The memories that may stand in the baseline.
pub open spec fn eligible(
    items: Seq<ScoredMemory>,
    query: &BaselineQuery,
    now: i64,
) -> Seq<ScoredMemory> {
    items.filter(|s: ScoredMemory| query.admits(s.memory@, now))
}

/// Where a memory stands: pinned ones first, then by heading, by score, by the time of the last
/// change and by identifier.
pub open spec fn baseline_place(item: ScoredMemory) -> Place {
    Place {
        first: if item.memory@.pinned {
            0
        } else {
            1
        },
        second: section_rank(item.memory@.kind),
        third: -1 - item.score.total(),
        fourth: -1 - item.memory@.updated_at,
        text: item.memory@.id,
    }
}

/// The places of the memories.
pub open spec fn baseline_places(items: Seq<ScoredMemory>) -> Seq<Place> {
    Seq::new(items.len(), |i: int| baseline_place(items[i]))
}

fn baseline_key(item: &ScoredMemory) -> (r: SortKey)
    ensures
        r@ == baseline_place(*item),
{
    let (_, rank) = section(&item.memory.kind);
    SortKey {
        first: if item.memory.pinned {
            0
        } else {
            1
        },
        second: rank as i64,
        third: descending(item.score.total_key()),
        fourth: descending(item.memory.updated_at),
        text: chars_of(item.memory.id.as_str()),
    }
}

/// The memories that may stand in the baseline, in the order in which they are considered.
pub open spec fn considered(
    items: Seq<ScoredMemory>,
    query: &BaselineQuery,
    now: i64,
) -> Seq<ScoredMemory> {
    let all = eligible(items, query, now);
    arranged(all, baseline_places(all))
}

/// A memory as it is shown.
pub open spec fn entry_of(item: ScoredMemory, query: &BaselineQuery) -> EntryModel {
    EntryModel {
        memory_id: item.memory@.id,
        section: section_name(item.memory@.kind),
        content: shortened(item.memory@.content, query.entry_room()),
        pinned: item.memory@.pinned,
        score: item.score,
    }
}

/// What showing a memory costs, in characters.
pub open spec fn cost(item: ScoredMemory, query: &BaselineQuery) -> int {
    8 + entry_of(item, query).content.len() as int + section_name(item.memory@.kind).len()
}

/// What has been chosen, and what it costs.
#[verifier::ext_equal]
pub struct Packing {
    pub entries: Seq<EntryModel>,
    pub used: int,
}

/// Takes each memory that still fits, and the first in any case.
pub open spec fn packed(items: Seq<ScoredMemory>, query: &BaselineQuery) -> Packing
    decreases items.len(),
{
    if items.len() == 0 {
        Packing { entries: Seq::empty(), used: 0 }
    } else {
        let before = packed(items.drop_last(), query);
        let item = items.last();
        if before.entries.len() > 0 && before.used + cost(item, query) > query.room() {
            before
        } else {
            Packing {
                entries: before.entries.push(entry_of(item, query)),
                used: before.used + cost(item, query),
            }
        }
    }
}

/// The estimated number of tokens of a text with so many characters.
pub open spec fn tokens(chars: int) -> int {
    (chars + 3) / 4
}

/// The pattern of one and a half.
pub const FULL_PRESSURE: u32 = 0x3fc0_0000;

/// How much of the budget is used, one and a half at most.
pub open spec fn pressure(used: int, budget: int) -> Single {
    share(used, budget).smaller(Single { bits: FULL_PRESSURE })
}

proof fn cost_bound(item: ScoredMemory, query: &BaselineQuery)
    ensures
        8 <= cost(item, query) <= query.entry_room() + 30,
        120 <= query.entry_room() <= 1_200,
{
    shortened_bound(item.memory@.content, query.entry_room());
    section_name_bound(item.memory@.kind);
}

/// What is chosen fits into the budget, but for a first memory that is too long by itself.
proof fn packed_bound(items: Seq<ScoredMemory>, query: &BaselineQuery)
    ensures
        packed(items, query).entries.len() <= items.len(),
        packed(items, query).entries.len() == 0 <==> items.len() == 0,
        packed(items, query).entries.len() == 0 ==> packed(items, query).used == 0,
        0 <= packed(items, query).used,
        packed(items, query).used <= query.room() || (packed(items, query).entries.len() == 1
            && packed(items, query).used <= query.entry_room() + 30),
    decreases items.len(),
{
    if items.len() > 0 {
        packed_bound(items.drop_last(), query);
        cost_bound(items.last(), query);
    }
}

/// Once the budget is used up, nothing more is chosen.
proof fn packed_full(items: Seq<ScoredMemory>, query: &BaselineQuery, n: int)
    requires
        0 < n <= items.len(),
        packed(items.take(n), query).used >= query.room(),
    ensures
        packed(items, query) == packed(items.take(n), query),
    decreases items.len(),
{
    if n == items.len() {
        assert(items.take(n) =~= items);
    } else {
        let init = items.drop_last();
        assert(init.take(n) =~= items.take(n));
        packed_full(init, query, n);
        packed_bound(init, query);
        cost_bound(items.last(), query);
    }
}

fn score_eligible(
    memories: &Vec<UsedMemory>,
    query: &BaselineQuery,
    now: i64,
) -> (r: Vec<ScoredMemory>)
    ensures
        r@ == eligible(scored_for_baseline(memories@, now), query, now),
{
    let mut kept: Vec<ScoredMemory> = Vec::new();
    let mut i: usize = 0;
    let ghost items = scored_for_baseline(memories@, now);
    reveal(Seq::filter);
    assert(kept@ =~= eligible(items.take(0), query, now));
    while i < memories.len()
        invariant
            i <= memories@.len(),
            items == scored_for_baseline(memories@, now),
            kept@ == eligible(items.take(i as int), query, now),
        decreases memories@.len() - i,
    {
        proof {
            reveal(Seq::filter);
            assert(items.take(i + 1).drop_last() =~= items.take(i as int));
        }
        let memory = &memories[i].memory;
        if allowed(memory, query, now) {
            let score = baseline_score(memory, now, memories[i].use_log);
            kept.push(ScoredMemory { score, memory: memory.clone() });
        }
        i += 1;
    }
    assert(items.take(items.len() as int) =~= items);
    kept
}

fn baseline_order(items: &Vec<ScoredMemory>) -> (r: Vec<usize>)
    ensures
        r@ == stable_positions(baseline_places(items@)),
        r@.len() == items@.len(),
        forall|k: int| 0 <= k < r@.len() ==> (#[trigger] r@[k]) < items@.len(),
        has_stable_order(baseline_places(items@)),
{
    let mut keys: Vec<SortKey> = Vec::new();
    let mut i: usize = 0;
    while i < items.len()
        invariant
            i <= items@.len(),
            keys@.len() == i,
            forall|k: int| 0 <= k < i ==> (#[trigger] keys@[k])@ == baseline_place(items@[k]),
        decreases items@.len() - i,
    {
        keys.push(baseline_key(&items[i]));
        i += 1;
    }
    assert(places(keys@) =~= baseline_places(items@));
    stable_order(&keys)
}

/// Whether this is the baseline of these memories at `now`.
pub open spec fn baseline_of(
    r: MemoryBaseline,
    memories: Seq<UsedMemory>,
    query: &BaselineQuery,
    now: i64,
) -> bool {
    let items = scored_for_baseline(memories, now);
    let choice = packed(considered(items, query, now), query);
    &&& entry_models(r.entries@) == choice.entries
    &&& r.estimated_tokens == tokens(choice.used)
    &&& r.max_tokens == query.budget()
    &&& r.dropped_count == eligible(items, query, now).len() - choice.entries.len()
    &&& r.budget_pressure == pressure(tokens(choice.used), query.budget())
    &&& has_stable_order(baseline_places(eligible(items, query, now)))
}

/// Builds the baseline as of now.
pub fn build_memory_baseline(memories: &Vec<UsedMemory>, query: &BaselineQuery) -> (r:
    MemoryBaseline)
    ensures
        exists|now: i64| #[trigger]
            baseline_of(r, memories@, query, now) && clock_reading(now),
{
    build_memory_baseline_at(memories, query, now_epoch())
}

/// Builds the baseline.
///
/// The score of a memory decides its place among those that are pinned alike and stand under the
/// same heading.
pub fn build_memory_baseline_at(
    memories: &Vec<UsedMemory>,
    query: &BaselineQuery,
    now: i64,
) -> (r: MemoryBaseline)
    ensures
        baseline_of(r, memories@, query, now),
{
    let max_tokens = clamp(query.max_tokens, 32, 16_384);
    let max_chars: usize = max_tokens * 4;
    let per_entry = clamp(max_chars / 3, 120, 1_200);
    let kept = score_eligible(memories, query, now);
    let order = baseline_order(&kept);
    let ghost sorted = arranged(kept@, baseline_places(kept@));
    let mut entries: Vec<BaselineEntry> = Vec::new();
    let mut used: usize = 0;
    let mut n: usize = 0;
    while n < order.len() && (n == 0 || used < max_chars)
        invariant
            n <= order@.len(),
            order@.len() == kept@.len() == sorted.len(),
            order@ == stable_positions(baseline_places(kept@)),
            sorted == arranged(kept@, baseline_places(kept@)),
            forall|k: int| 0 <= k < order@.len() ==> (#[trigger] order@[k]) < kept@.len(),
            max_chars == query.room(),
            128 <= max_chars <= 65_536,
            per_entry == query.entry_room(),
            entry_models(entries@) == packed(sorted.take(n as int), query).entries,
            used == packed(sorted.take(n as int), query).used,
        decreases order@.len() - n,
    {
        let item = &kept[order[n]];
        let content = truncate_chars(item.memory.content.as_str(), per_entry);
        let (label, _) = section(&item.memory.kind);
        let ghost before = entry_models(entries@);
        proof {
            assert(sorted[n as int] == *item);
            assert(sorted.take(n + 1).drop_last() =~= sorted.take(n as int));
            packed_bound(sorted.take(n as int), query);
            cost_bound(*item, query);
        }
        let price: usize = content.as_str().unicode_len() + label.unicode_len() + 8;
        assert(price == cost(*item, query));
        if entries.is_empty() || used + price <= max_chars {
            used = used + price;
            entries.push(
                BaselineEntry {
                    memory_id: item.memory.id.clone(),
                    section: label.to_owned(),
                    content,
                    pinned: item.memory.pinned,
                    score: item.score,
                },
            );
            assert(entry_models(entries@) =~= before.push(entry_of(*item, query)));
        }
        n += 1;
    }
    proof {
        if n < order@.len() {
            packed_full(sorted, query, n as int);
        } else {
            assert(sorted.take(n as int) =~= sorted);
        }
        packed_bound(sorted, query);
    }
    let estimated: usize = (used + 3) / 4;
    MemoryBaseline {
        dropped_count: kept.len() - entries.len(),
        entries,
        estimated_tokens: estimated,
        max_tokens,
        budget_pressure: Single::from_count(estimated as u128).over(
            Single::from_count(max_tokens as u128),
        ).min(Single { bits: FULL_PRESSURE }),
    }
}

/// The baseline keeps within its budget; only where that is below 38 tokens, the one memory that
/// is shown in any case may take up to 38. The pressure is the share of the budget that is used.
pub proof fn baseline_fits_budget(items: Seq<ScoredMemory>, query: BaselineQuery, now: i64)
    ensures
        ({
            let used = tokens(packed(considered(items, &query, now), &query).used);
            &&& 0 <= used
            &&& used <= query.budget() || (query.budget() < 38 && used <= 38)
            &&& used <= query.budget() ==> pressure(used, query.budget()).unit()
            &&& pressure(used, query.budget()) == share(used, query.budget())
        }),
{
    packed_bound(considered(items, &query, now), &query);
    let used = tokens(packed(considered(items, &query, now), &query).used);
    if used <= query.budget() {
        shares_are_units(used, query.budget());
    } else {
        counts_are_positive(32);
        counts_are_positive(48);
        counts_are_positive(query.budget());
        counts_grow(32, query.budget());
        counts_grow(used, 48);
        quotient_falls(of_count(48), of_count(32), of_count(query.budget()));
        quotient_grows(of_count(used), of_count(48), of_count(query.budget()));
        half_above_one();
    }
}

proof fn half_above_one()
    ensures
        share(48, 32) == (Single { bits: FULL_PRESSURE }),
{
    reveal_with_fuel(width, 7);
    reveal_with_fuel(doubled, 25);
    assert(of_count(48).bits == 0x4240_0000);
    assert(of_count(32).bits == 0x4200_0000);
    reveal_with_fuel(shortfall, 24);
    assert(shortfall(0xc0_0000, 0x80_0000) == 23);
    assert(doubled(0xc0_0000, 23) == 0x6000_0000_0000);
    assert(doubled(1, 0) == 1);
    assert(0x80_0000 * doubled(1, 0) == 0x80_0000) by (nonlinear_arith)
        requires
            doubled(1, 0) == 1,
    ;
    assert(nearest(0x6000_0000_0000, 0x80_0000) == 0xc0_0000);
    assert(rounded_quotient(0xc0_0000, 0x80_0000, 0) == 0x3fc0_0000);
    assert(of_count(48).significand() == 0xc0_0000 && of_count(48).exponent() == -18);
    assert(of_count(32).significand() == 0x80_0000 && of_count(32).exponent() == -18);
}

/// Where anything may be shown, something is; and pinned memories come first.
pub proof fn baseline_starts_with_pinned(items: Seq<ScoredMemory>, query: BaselineQuery, now: i64)
    requires
        items.len() <= usize::MAX,
    ensures
        ({
            let entries = packed(considered(items, &query, now), &query).entries;
            &&& entries.len() == 0 <==> eligible(items, &query, now).len() == 0
            &&& entries.len() <= eligible(items, &query, now).len()
            &&& forall|k: int|
                0 <= k < items.len() && query.admits((#[trigger] items[k]).memory@, now)
                    && items[k].memory@.pinned ==> entries.len() > 0 && entries[0].pinned
        }),
{
    let all = eligible(items, &query, now);
    let order = considered(items, &query, now);
    let entries = packed(order, &query).entries;
    let place = |s: ScoredMemory| baseline_place(s);
    items.lemma_filter_len(|s: ScoredMemory| query.admits(s.memory@, now));
    arranged_facts(all, baseline_places(all), place);
    packed_bound(order, &query);
    if order.len() > 0 {
        packed_head(order, &query);
    }
    assert forall|k: int|
        0 <= k < items.len() && query.admits((#[trigger] items[k]).memory@, now)
            && items[k].memory@.pinned implies entries.len() > 0 && entries[0].pinned by {
        filter_values(items, |s: ScoredMemory| query.admits(s.memory@, now), items[k]);
        assert(items.contains(items[k]));
        assert(all.contains(items[k]));
        assert(order.contains(items[k]));
        let m = choose|m: int| 0 <= m < order.len() && order[m] == items[k];
        if m > 0 {
            assert(!place(order[m]).less(place(order[0])));
        }
    }
}

proof fn packed_head(items: Seq<ScoredMemory>, query: &BaselineQuery)
    requires
        items.len() > 0,
    ensures
        packed(items, query).entries.len() > 0,
        packed(items, query).entries[0] == entry_of(items[0], query),
    decreases items.len(),
{
    if items.len() == 1 {
        assert(packed(items.drop_last(), query).entries.len() == 0);
    } else {
        packed_head(items.drop_last(), query);
    }
}

/// Everything that is shown is one of the memories that the query admits.
pub proof fn baseline_shows_only_admitted(
    items: Seq<ScoredMemory>,
    query: BaselineQuery,
    now: i64,
    i: int,
)
    requires
        items.len() <= usize::MAX,
        0 <= i < packed(considered(items, &query, now), &query).entries.len(),
    ensures
        exists|k: int|
            0 <= k < items.len() && query.admits((#[trigger] items[k]).memory@, now) && packed(
                considered(items, &query, now),
                &query,
            ).entries[i] == entry_of(items[k], &query),
{
    let all = eligible(items, &query, now);
    let order = considered(items, &query, now);
    items.lemma_filter_len(|s: ScoredMemory| query.admits(s.memory@, now));
    arranged_facts(all, baseline_places(all), |s: ScoredMemory| baseline_place(s));
    let m = packed_source(order, &query, i);
    assert(order.contains(order[m]));
    assert(all.contains(order[m]));
    filter_values(items, |s: ScoredMemory| query.admits(s.memory@, now), order[m]);
    let k = choose|k: int| 0 <= k < items.len() && items[k] == order[m];
    assert(query.admits(items[k].memory@, now));
}

proof fn packed_source(items: Seq<ScoredMemory>, query: &BaselineQuery, i: int) -> (k: int)
    requires
        0 <= i < packed(items, query).entries.len(),
    ensures
        0 <= k < items.len(),
        packed(items, query).entries[i] == entry_of(items[k], query),
    decreases items.len(),
{
    let before = packed(items.drop_last(), query);
    if i < before.entries.len() {
        packed_source(items.drop_last(), query, i)
    } else {
        items.len() - 1
    }
}

/// No two of the memories have the same identifier.
pub open spec fn used_apart(items: Seq<UsedMemory>) -> bool {
    forall|i: int, j: int|
        0 <= i < items.len() && 0 <= j < items.len() && i != j ==> #[trigger] items[i].memory@.id
            != #[trigger] items[j].memory@.id
}

/// The baseline does not depend on the order in which the storage hands out the memories.
pub proof fn baseline_is_deterministic(
    a: Seq<UsedMemory>,
    b: Seq<UsedMemory>,
    query: BaselineQuery,
    now: i64,
    left: MemoryBaseline,
    right: MemoryBaseline,
)
    requires
        a.len() <= usize::MAX,
        b.len() <= usize::MAX,
        used_apart(a),
        used_apart(b),
        forall|u: UsedMemory| #[trigger] a.contains(u) <==> b.contains(u),
        baseline_of(left, a, &query, now),
        baseline_of(right, b, &query, now),
    ensures
        entry_models(left.entries@) == entry_models(right.entries@),
        left.estimated_tokens == right.estimated_tokens,
        left.max_tokens == right.max_tokens,
        left.dropped_count == right.dropped_count,
        left.budget_pressure == right.budget_pressure,
{
    scoring_keeps_values(a, b, now);
    scoring_keeps_values(b, a, now);
    considered_alike(scored_for_baseline(a, now), scored_for_baseline(b, now), query, now);
}

proof fn scoring_keeps_values(a: Seq<UsedMemory>, b: Seq<UsedMemory>, now: i64)
    requires
        used_apart(a),
        forall|u: UsedMemory| #[trigger] a.contains(u) ==> b.contains(u),
    ensures
        told_apart(scored_for_baseline(a, now)),
        forall|v: ScoredMemory| #[trigger]
            scored_for_baseline(a, now).contains(v) ==> scored_for_baseline(b, now).contains(v),
{
    let x = scored_for_baseline(a, now);
    let y = scored_for_baseline(b, now);
    assert forall|i: int, j: int|
        0 <= i < x.len() && 0 <= j < x.len() && i != j implies #[trigger] x[i].memory@.id
        != #[trigger] x[j].memory@.id by {
        assert(a[i].memory@.id != a[j].memory@.id);
    }
    assert forall|v: ScoredMemory| #[trigger] x.contains(v) implies y.contains(v) by {
        let i = choose|i: int| 0 <= i < x.len() && x[i] == v;
        assert(a.contains(a[i]));
        let k = choose|k: int| 0 <= k < b.len() && b[k] == a[i];
        assert(y[k] == v);
    }
}

proof fn considered_alike(
    a: Seq<ScoredMemory>,
    b: Seq<ScoredMemory>,
    query: BaselineQuery,
    now: i64,
)
    requires
        a.len() <= usize::MAX,
        b.len() <= usize::MAX,
        told_apart(a),
        told_apart(b),
        forall|v: ScoredMemory| #[trigger] a.contains(v) <==> b.contains(v),
    ensures
        considered(a, &query, now) == considered(b, &query, now),
        eligible(a, &query, now).len() == eligible(b, &query, now).len(),
{
    let p = |s: ScoredMemory| query.admits(s.memory@, now);
    let place = |s: ScoredMemory| baseline_place(s);
    considered_strictly(a, query, now);
    considered_strictly(b, query, now);
    let x = considered(a, &query, now);
    let y = considered(b, &query, now);
    assert forall|v: ScoredMemory| #[trigger] x.contains(v) <==> y.contains(v) by {
        filter_values(a, p, v);
        filter_values(b, p, v);
        assert(x.contains(v) <==> eligible(a, &query, now).contains(v));
        assert(y.contains(v) <==> eligible(b, &query, now).contains(v));
        assert(a.contains(v) <==> b.contains(v));
    }
    placed_lists_agree(x, y, place);
}

proof fn considered_strictly(items: Seq<ScoredMemory>, query: BaselineQuery, now: i64)
    requires
        items.len() <= usize::MAX,
        told_apart(items),
    ensures
        strictly_placed(considered(items, &query, now), |s: ScoredMemory| baseline_place(s)),
        considered(items, &query, now).len() == eligible(items, &query, now).len(),
        forall|v: ScoredMemory| #[trigger]
            considered(items, &query, now).contains(v) <==> eligible(items, &query, now).contains(
                v,
            ),
{
    let p = |s: ScoredMemory| query.admits(s.memory@, now);
    let key = |s: ScoredMemory| s.memory@.id;
    let all = eligible(items, &query, now);
    assert(keyed_apart(items, key)) by {
        assert forall|i: int, j: int|
            0 <= i < items.len() && 0 <= j < items.len() && i != j implies key(
            #[trigger] items[i],
        ) != key(#[trigger] items[j]) by {
            assert(items[i].memory@.id != items[j].memory@.id);
        }
    }
    filter_keeps_apart(items, p, key);
    items.lemma_filter_len(p);
    assert forall|i: int, j: int|
        0 <= i < all.len() && 0 <= j < all.len() && i != j implies #[trigger] baseline_places(
        all,
    )[i] != #[trigger] baseline_places(all)[j] by {
        assert(key(all[i]) != key(all[j]));
    }
    arranged_facts(all, baseline_places(all), |s: ScoredMemory| baseline_place(s));
}

/// What the entries of a baseline cost together: for each, its text, its heading and eight characters.
pub open spec fn entries_cost(entries: Seq<EntryModel>) -> int
    decreases entries.len(),
{
    if entries.len() == 0 {
        0
    } else {
        entries_cost(entries.drop_last()) + entries.last().content.len() + entries.last().section.len()
            + 8
    }
}

/// What showing memories costs together.
spec fn total_cost(items: Seq<ScoredMemory>, query: &BaselineQuery) -> int
    decreases items.len(),
{
    if items.len() == 0 {
        0
    } else {
        total_cost(items.drop_last(), query) + cost(items.last(), query)
    }
}

proof fn packed_is_counted(items: Seq<ScoredMemory>, query: &BaselineQuery)
    ensures
        packed(items, query).used == entries_cost(packed(items, query).entries),
    decreases items.len(),
{
    if items.len() > 0 {
        packed_is_counted(items.drop_last(), query);
        let before = packed(items.drop_last(), query);
        let more = entry_of(items.last(), query);
        assert(before.entries.push(more).drop_last() =~= before.entries);
    }
}

/// Whether a memory is left out because it does not fit beside the first `n` of those that are shown,
/// which all come before it.
spec fn skipped(
    items: Seq<ScoredMemory>,
    query: &BaselineQuery,
    picks: Seq<int>,
    k: int,
    n: int,
) -> bool {
    &&& 1 <= n <= picks.len()
    &&& forall|i: int| 0 <= i < n ==> #[trigger] picks[i] < k
    &&& forall|i: int| n <= i < picks.len() ==> k < #[trigger] picks[i]
    &&& entries_cost(packed(items, query).entries.take(n)) + cost(items[k], query) > query.room()
}

/// Whether a memory is shown, or does not fit.
spec fn settled(items: Seq<ScoredMemory>, query: &BaselineQuery, picks: Seq<int>, k: int) -> bool {
    picks.contains(k) || exists|n: int| skipped(items, query, picks, k, n)
}

/// Where the memories stand that are shown, in the order in which they are shown; what is not among
/// them does not fit beside those of them that come before it.
proof fn packed_picks(items: Seq<ScoredMemory>, query: &BaselineQuery) -> (picks: Seq<int>)
    ensures
        picks.len() == packed(items, query).entries.len(),
        forall|i: int|
            0 <= i < picks.len() ==> 0 <= #[trigger] picks[i] < items.len() && packed(
                items,
                query,
            ).entries[i] == entry_of(items[picks[i]], query),
        forall|i: int, j: int|
            0 <= i < j < picks.len() ==> #[trigger] picks[i] < #[trigger] picks[j],
        forall|k: int| 0 <= k < items.len() ==> #[trigger] settled(items, query, picks, k),
    decreases items.len(),
{
    if items.len() == 0 {
        Seq::empty()
    } else {
        let init = items.drop_last();
        let before = packed(init, query);
        let item = items.last();
        let old = packed_picks(init, query);
        let n = items.len() - 1;
        let more = packed(items, query).entries;
        packed_is_counted(init, query);
        let skip = before.entries.len() > 0 && before.used + cost(item, query) > query.room();
        let picks = if skip {
            old
        } else {
            old.push(n)
        };
        assert forall|i: int| 0 <= i < picks.len() implies 0 <= #[trigger] picks[i] < items.len()
            && more[i] == entry_of(items[picks[i]], query) by {
            if i < old.len() {
                assert(picks[i] == old[i]);
                assert(init[old[i]] == items[old[i]]);
            }
        }
        assert forall|i: int, j: int| 0 <= i < j < picks.len() implies #[trigger] picks[i]
            < #[trigger] picks[j] by {
            assert(picks[i] == old[i]);
            if j < old.len() {
                assert(picks[j] == old[j]);
            }
        }
        assert forall|k: int| 0 <= k < items.len() implies #[trigger] settled(
            items,
            query,
            picks,
            k,
        ) by {
            if k < n {
                assert(init[k] == items[k]);
                assert(settled(init, query, old, k));
                if old.contains(k) {
                    let i = choose|i: int| 0 <= i < old.len() && old[i] == k;
                    assert(picks[i] == k);
                } else {
                    let m = choose|m: int| skipped(init, query, old, k, m);
                    assert(more.take(m) =~= before.entries.take(m));
                    assert forall|i: int| 0 <= i < m implies #[trigger] picks[i] < k by {
                        assert(picks[i] == old[i]);
                    }
                    assert forall|i: int| m <= i < picks.len() implies k < #[trigger] picks[i] by {
                        if i < old.len() {
                            assert(picks[i] == old[i]);
                        }
                    }
                    assert(skipped(items, query, picks, k, m));
                }
            } else if skip {
                assert(more.take(old.len() as int) =~= before.entries);
                assert forall|i: int| 0 <= i < old.len() implies #[trigger] picks[i] < k by {
                    assert(old[i] < init.len());
                }
                assert(skipped(items, query, picks, k, old.len() as int));
            } else {
                assert(picks[old.len() as int] == k);
            }
        }
        picks
    }
}

/// Whether a memory comes before another one in a baseline: pinned ones before all others, then by
/// heading, then the higher score, then the later change, then the smaller identifier.
pub open spec fn comes_first(x: UsedMemory, y: UsedMemory, now: i64) -> bool {
    let a = x.memory@;
    let b = y.memory@;
    let p = baseline_worth(a, now, x.use_log).total();
    let q = baseline_worth(b, now, y.use_log).total();
    if a.pinned != b.pinned {
        a.pinned
    } else if section_rank(a.kind) != section_rank(b.kind) {
        section_rank(a.kind) < section_rank(b.kind)
    } else if p != q {
        p > q
    } else if a.updated_at != b.updated_at {
        a.updated_at > b.updated_at
    } else {
        text_less(a.id, b.id)
    }
}

/// A memory is left out of a baseline only where it does not fit into what the entries that were
/// chosen before it leave of the budget: its text, shortened as it would be, its heading and eight
/// characters. At least one entry was chosen before it, and it comes before none of these.
pub proof fn baseline_leaves_out_only_what_does_not_fit(
    r: MemoryBaseline,
    memories: Seq<UsedMemory>,
    query: BaselineQuery,
    now: i64,
    k: int,
) -> (n: int)
    requires
        baseline_of(r, memories, &query, now),
        memories.len() <= usize::MAX,
        0 <= k < memories.len(),
        query.admits(memories[k].memory@, now),
        forall|i: int|
            0 <= i < r.entries@.len() ==> (#[trigger] r.entries@[i]).memory_id@
                != memories[k].memory@.id,
    ensures
        1 <= n <= r.entries@.len(),
        entries_cost(entry_models(r.entries@).take(n)) + shortened(
            memories[k].memory@.content,
            query.entry_room(),
        ).len() + section_name(memories[k].memory@.kind).len() + 8 > 4 * r.max_tokens,
        forall|i: int|
            0 <= i < n ==> exists|a: int|
                0 <= a < memories.len() && shows(
                    (#[trigger] r.entries@[i])@,
                    #[trigger] memories[a],
                    &query,
                    now,
                ) && !comes_first(memories[k], memories[a], now),
{
    let items = scored_for_baseline(memories, now);
    let all = eligible(items, &query, now);
    let order = considered(items, &query, now);
    let p = |s: ScoredMemory| query.admits(s.memory@, now);
    let place = |s: ScoredMemory| baseline_place(s);
    items.lemma_filter_len(p);
    arranged_facts(all, baseline_places(all), place);
    filter_values(items, p, items[k]);
    assert(items.contains(items[k]));
    assert(order.contains(items[k]));
    let m = choose|m: int| 0 <= m < order.len() && order[m] == items[k];
    let picks = packed_picks(order, &query);
    if picks.contains(m) {
        let i = choose|i: int| 0 <= i < picks.len() && picks[i] == m;
        assert(entry_models(r.entries@)[i] == entry_of(order[m], &query));
        assert(entry_models(r.entries@)[i] == r.entries@[i]@);
        assert(r.entries@[i].memory_id@ == memories[k].memory@.id);
    }
    assert(settled(order, &query, picks, m));
    let n = choose|n: int| skipped(order, &query, picks, m, n);
    assert forall|i: int| 0 <= i < n implies exists|a: int|
        0 <= a < memories.len() && shows(
            (#[trigger] r.entries@[i])@,
            #[trigger] memories[a],
            &query,
            now,
        ) && !comes_first(memories[k], memories[a], now) by {
        let q = picks[i];
        assert(entry_models(r.entries@)[i] == r.entries@[i]@);
        assert(order.contains(order[q]));
        filter_values(items, p, order[q]);
        let a = choose|a: int| 0 <= a < items.len() && items[a] == order[q];
        assert(!place(order[m]).less(place(order[q])));
        assert(shows(r.entries@[i]@, memories[a], &query, now));
    }
    n
}

/// What it costs to show all that may be shown of the memories.
pub open spec fn showing_cost(memories: Seq<UsedMemory>, query: &BaselineQuery, now: i64) -> int
    decreases memories.len(),
{
    if memories.len() == 0 {
        0
    } else {
        let m = memories.last().memory@;
        showing_cost(memories.drop_last(), query, now) + if query.admits(m, now) {
            shortened(m.content, query.entry_room()).len() + section_name(m.kind).len() + 8
        } else {
            0
        }
    }
}

/// Where the costs of all that may be shown fit into the budget together, all of it is shown and
/// nothing is dropped.
pub proof fn baseline_shows_all_within_budget(
    r: MemoryBaseline,
    memories: Seq<UsedMemory>,
    query: BaselineQuery,
    now: i64,
)
    requires
        baseline_of(r, memories, &query, now),
        memories.len() <= usize::MAX,
        used_apart(memories),
        showing_cost(memories, &query, now) <= 4 * r.max_tokens,
    ensures
        r.dropped_count == 0,
        r.entries@.len() == memories.filter(
            |u: UsedMemory| query.admits(u.memory@, now),
        ).len(),
        entries_cost(entry_models(r.entries@)) == showing_cost(memories, &query, now),
{
    let items = scored_for_baseline(memories, now);
    let all = eligible(items, &query, now);
    let order = considered(items, &query, now);
    let place = |s: ScoredMemory| baseline_place(s);
    scoring_keeps_values(memories, memories, now);
    considered_strictly(items, query, now);
    assert forall|i: int, j: int| 0 <= i < order.len() && 0 <= j < order.len() && i != j implies
        order[i] != order[j] by {
        place_order(place(order[i]), place(order[i]), place(order[i]));
        if i < j {
            assert(place(order[i]).less(place(order[j])));
        } else {
            assert(place(order[j]).less(place(order[i])));
        }
    }
    assert(order.no_duplicates());
    assert forall|v: ScoredMemory| #[trigger] order.contains(v) implies all.contains(v) by {
    }
    totals_agree(order, all, &query);
    total_is_showing_cost(memories, &query, now);
    within_budget_all_are_packed(order, &query);
    packed_is_counted(order, &query);
    eligible_are_admitted(memories, &query, now);
    assert(entry_models(r.entries@).len() == r.entries@.len());
}

proof fn within_budget_all_are_packed(items: Seq<ScoredMemory>, query: &BaselineQuery)
    requires
        total_cost(items, query) <= query.room(),
    ensures
        packed(items, query).entries.len() == items.len(),
        packed(items, query).used == total_cost(items, query),
    decreases items.len(),
{
    if items.len() > 0 {
        cost_bound(items.last(), query);
        within_budget_all_are_packed(items.drop_last(), query);
    }
}

proof fn total_is_showing_cost(memories: Seq<UsedMemory>, query: &BaselineQuery, now: i64)
    ensures
        total_cost(eligible(scored_for_baseline(memories, now), query, now), query)
            == showing_cost(memories, query, now),
    decreases memories.len(),
{
    reveal(Seq::filter);
    if memories.len() > 0 {
        total_is_showing_cost(memories.drop_last(), query, now);
        let items = scored_for_baseline(memories, now);
        let init = scored_for_baseline(memories.drop_last(), now);
        assert(items.drop_last() =~= init);
        let before = eligible(init, query, now);
        assert(before.push(items.last()).drop_last() =~= before);
    }
}

proof fn total_without(items: Seq<ScoredMemory>, query: &BaselineQuery, k: int)
    requires
        0 <= k < items.len(),
    ensures
        total_cost(items.remove(k), query) + cost(items[k], query) == total_cost(items, query),
    decreases items.len(),
{
    if k < items.len() - 1 {
        let init = items.drop_last();
        total_without(init, query, k);
        assert(items.remove(k).drop_last() =~= init.remove(k));
    } else {
        assert(items.remove(k) =~= items.drop_last());
    }
}

/// The order in which memories are listed does not change what they cost together.
proof fn totals_agree(a: Seq<ScoredMemory>, b: Seq<ScoredMemory>, query: &BaselineQuery)
    requires
        a.no_duplicates(),
        a.len() == b.len(),
        forall|v: ScoredMemory| #[trigger] a.contains(v) ==> b.contains(v),
    ensures
        total_cost(a, query) == total_cost(b, query),
    decreases a.len(),
{
    if a.len() > 0 {
        let v = a.last();
        assert(a.contains(v));
        let k = choose|k: int| 0 <= k < b.len() && b[k] == v;
        let c = a.drop_last();
        let d = b.remove(k);
        assert forall|w: ScoredMemory| #[trigger] c.contains(w) implies d.contains(w) by {
            let i = choose|i: int| 0 <= i < c.len() && c[i] == w;
            assert(a[i] == w && w != v);
            assert(a.contains(w));
            let j = choose|j: int| 0 <= j < b.len() && b[j] == w;
            assert(d[if j < k {
                j
            } else {
                j - 1
            }] == w);
        }
        totals_agree(c, d, query);
        total_without(b, query, k);
    }
}

/// Where all that may be shown fits into the budget together, all of it is shown and nothing is
/// dropped: no more memories than the budget has room for at what the dearest of them costs.
pub proof fn baseline_shows_all_that_fits(
    r: MemoryBaseline,
    memories: Seq<UsedMemory>,
    query: BaselineQuery,
    now: i64,
    dearest: int,
)
    requires
        baseline_of(r, memories, &query, now),
        memories.len() <= usize::MAX,
        forall|k: int|
            0 <= k < memories.len() && query.admits((#[trigger] memories[k]).memory@, now)
                ==> shortened(memories[k].memory@.content, query.entry_room()).len()
                + section_name(memories[k].memory@.kind).len() + 8 <= dearest,
        dearest * memories.len() <= 4 * r.max_tokens,
    ensures
        r.dropped_count == 0,
        r.entries@.len() == memories.filter(
            |u: UsedMemory| query.admits(u.memory@, now),
        ).len(),
{
    let items = scored_for_baseline(memories, now);
    let all = eligible(items, &query, now);
    let order = considered(items, &query, now);
    let p = |s: ScoredMemory| query.admits(s.memory@, now);
    items.lemma_filter_len(p);
    arranged_facts(all, baseline_places(all), |s: ScoredMemory| baseline_place(s));
    assert forall|m: int| 0 <= m < order.len() implies cost(#[trigger] order[m], &query)
        <= dearest by {
        assert(order.contains(order[m]));
        assert(all.contains(order[m]));
        filter_values(items, p, order[m]);
        let k = choose|k: int| 0 <= k < items.len() && items[k] == order[m];
        assert(query.admits(memories[k].memory@, now));
    }
    if order.len() > 0 {
        cost_bound(order[0], &query);
        assert(cost(order[0], &query) <= dearest);
        assert(dearest * order.len() <= dearest * memories.len()) by (nonlinear_arith)
            requires
                0 <= dearest,
                order.len() <= memories.len(),
        ;
    }
    all_fit(order, &query, dearest);
    eligible_are_admitted(memories, &query, now);
    assert(entry_models(r.entries@).len() == r.entries@.len());
}

proof fn all_fit(items: Seq<ScoredMemory>, query: &BaselineQuery, dearest: int)
    requires
        forall|m: int| 0 <= m < items.len() ==> cost(#[trigger] items[m], query) <= dearest,
        items.len() > 0 ==> dearest * items.len() <= query.room(),
    ensures
        packed(items, query).entries.len() == items.len(),
        packed(items, query).used <= dearest * items.len(),
    decreases items.len(),
{
    if items.len() > 0 {
        let init = items.drop_last();
        let n = items.len() as int;
        cost_bound(items.last(), query);
        assert(cost(items[n - 1], query) <= dearest);
        assert forall|m: int| 0 <= m < init.len() implies cost(#[trigger] init[m], query)
            <= dearest by {
            assert(cost(items[m], query) <= dearest);
        }
        assert(dearest * (n - 1) + dearest == dearest * n) by (nonlinear_arith);
        all_fit(init, query, dearest);
    } else {
        assert(dearest * items.len() == 0) by (nonlinear_arith)
            requires
                items.len() == 0,
        ;
    }
}

proof fn eligible_are_admitted(memories: Seq<UsedMemory>, query: &BaselineQuery, now: i64)
    ensures
        eligible(scored_for_baseline(memories, now), query, now).len() == memories.filter(
            |u: UsedMemory| query.admits(u.memory@, now),
        ).len(),
    decreases memories.len(),
{
    reveal(Seq::filter);
    if memories.len() > 0 {
        eligible_are_admitted(memories.drop_last(), query, now);
        let items = scored_for_baseline(memories, now);
        assert(items.drop_last() =~= scored_for_baseline(memories.drop_last(), now));
    }
}

/// What is reported of a baseline belongs to its entries: their cost in tokens of four characters,
/// rounded up; the budget, between 32 and 16,384 tokens; and how many memories that might have been
/// shown are not.
pub proof fn baseline_reports_its_entries(
    r: MemoryBaseline,
    memories: Seq<UsedMemory>,
    query: BaselineQuery,
    now: i64,
)
    requires
        baseline_of(r, memories, &query, now),
        memories.len() <= usize::MAX,
    ensures
        4 * r.estimated_tokens >= entries_cost(entry_models(r.entries@)),
        4 * r.estimated_tokens < entries_cost(entry_models(r.entries@)) + 4,
        32 <= r.max_tokens <= 16_384,
        32 <= query.max_tokens <= 16_384 ==> r.max_tokens == query.max_tokens,
        query.max_tokens < 32 ==> r.max_tokens == 32,
        query.max_tokens > 16_384 ==> r.max_tokens == 16_384,
        r.dropped_count + r.entries@.len() == memories.filter(
            |u: UsedMemory| query.admits(u.memory@, now),
        ).len(),
        r.budget_pressure == share(r.estimated_tokens as int, r.max_tokens as int),
{
    let items = scored_for_baseline(memories, now);
    let order = considered(items, &query, now);
    packed_is_counted(order, &query);
    packed_bound(order, &query);
    eligible_are_admitted(memories, &query, now);
    baseline_fits_budget(items, query, now);
    assert(entry_models(r.entries@).len() == r.entries@.len());
}

/// Every entry of a baseline shows one of the memories that may be shown: its identifier, its heading,
/// its pin, its text up to its share of the room, and its score. Of two entries, the later one does
/// not belong before the earlier one: not for its pin, nor, pinned alike, for its heading, nor, under
/// one heading, for its score, nor for the time of its last change.
pub proof fn baseline_entries_are_ordered(
    r: MemoryBaseline,
    memories: Seq<UsedMemory>,
    query: BaselineQuery,
    now: i64,
    i: int,
    j: int,
)
    requires
        baseline_of(r, memories, &query, now),
        memories.len() <= usize::MAX,
        0 <= i < j < r.entries@.len(),
    ensures
        exists|a: int, b: int|
            {
                let x = #[trigger] memories[a];
                let y = #[trigger] memories[b];
                &&& 0 <= a < memories.len() && 0 <= b < memories.len()
                &&& shows(r.entries@[i]@, x, &query, now)
                &&& shows(r.entries@[j]@, y, &query, now)
                &&& y.memory@.pinned ==> x.memory@.pinned
                &&& x.memory@.pinned == y.memory@.pinned ==> section_rank(x.memory@.kind)
                    <= section_rank(y.memory@.kind)
                &&& x.memory@.pinned == y.memory@.pinned && section_rank(x.memory@.kind)
                    == section_rank(y.memory@.kind) ==> r.entries@[i].score.total()
                    >= r.entries@[j].score.total()
                &&& x.memory@.pinned == y.memory@.pinned && section_rank(x.memory@.kind)
                    == section_rank(y.memory@.kind) && r.entries@[i].score == r.entries@[j].score
                    ==> x.memory@.updated_at >= y.memory@.updated_at
                &&& !comes_first(y, x, now)
            },
{
    let items = scored_for_baseline(memories, now);
    let all = eligible(items, &query, now);
    let order = considered(items, &query, now);
    let p = |s: ScoredMemory| query.admits(s.memory@, now);
    let place = |s: ScoredMemory| baseline_place(s);
    items.lemma_filter_len(p);
    arranged_facts(all, baseline_places(all), place);
    let picks = packed_picks(order, &query);
    assert(entry_models(r.entries@)[i] == r.entries@[i]@);
    assert(entry_models(r.entries@)[j] == r.entries@[j]@);
    let m = picks[i];
    let n = picks[j];
    assert(order.contains(order[m]) && order.contains(order[n]));
    filter_values(items, p, order[m]);
    filter_values(items, p, order[n]);
    let a = choose|a: int| 0 <= a < items.len() && items[a] == order[m];
    let b = choose|b: int| 0 <= b < items.len() && items[b] == order[n];
    assert(!place(order[n]).less(place(order[m])));
    assert(shows(r.entries@[i]@, memories[a], &query, now));
    assert(shows(r.entries@[j]@, memories[b], &query, now));
}

/// Whether an entry shows a memory as it may be shown.
pub open spec fn shows(e: EntryModel, u: UsedMemory, query: &BaselineQuery, now: i64) -> bool {
    let m = u.memory@;
    &&& query.admits(m, now)
    &&& e.memory_id == m.id
    &&& e.section == section_name(m.kind)
    &&& e.pinned == m.pinned
    &&& e.score == baseline_worth(m, now, u.use_log)
    &&& m.content.len() <= query.entry_room() ==> e.content == m.content
    &&& m.content.len() > query.entry_room() ==> e.content == m.content.take(
        query.entry_room() - 3,
    ) + "..."@
}

/// Every entry of a baseline shows one of the memories.
pub proof fn baseline_entries_show_memories(
    r: MemoryBaseline,
    memories: Seq<UsedMemory>,
    query: BaselineQuery,
    now: i64,
    i: int,
)
    requires
        baseline_of(r, memories, &query, now),
        memories.len() <= usize::MAX,
        0 <= i < r.entries@.len(),
    ensures
        exists|a: int|
            0 <= a < memories.len() && shows(r.entries@[i]@, #[trigger] memories[a], &query, now),
{
    let items = scored_for_baseline(memories, now);
    let all = eligible(items, &query, now);
    let order = considered(items, &query, now);
    let p = |s: ScoredMemory| query.admits(s.memory@, now);
    items.lemma_filter_len(p);
    arranged_facts(all, baseline_places(all), |s: ScoredMemory| baseline_place(s));
    let picks = packed_picks(order, &query);
    assert(entry_models(r.entries@)[i] == r.entries@[i]@);
    let m = picks[i];
    assert(order.contains(order[m]));
    filter_values(items, p, order[m]);
    let a = choose|a: int| 0 <= a < items.len() && items[a] == order[m];
    cost_bound(items[a], &query);
    assert(shows(r.entries@[i]@, memories[a], &query, now));
}

/// A baseline may show a memory exactly where it is active, belongs to the workspace or to the whole
/// namespace, is valid at the time, and its sensitivity is permitted. One entry has a third of the
/// room, but 120 characters at least and 1,200 at most.
pub proof fn baseline_admits_what_is_live_and_permitted(
    query: BaselineQuery,
    m: MemoryModel,
    now: i64,
)
    ensures
        query.admits(m, now) <==> {
            &&& m.status == MemoryStatus::Active
            &&& m.namespace == query.namespace@
            &&& m.workspace_id == query.workspace_id@ || m.scope == MemoryScope::Global
            &&& m.valid_from <= now
            &&& m.valid_until is None || now < m.valid_until->Some_0
            &&& m.sensitivity != Sensitivity::Ephemeral
            &&& m.sensitivity == Sensitivity::Private ==> query.allow_private
            &&& m.sensitivity == Sensitivity::Secret ==> query.allow_secret
        },
        query.entry_room() == (if 4 * query.budget() < 360 {
            120
        } else if 4 * query.budget() > 3_600 {
            1_200
        } else {
            4 * query.budget() / 3
        }),
{
}

/// The score of a memory in a baseline is its retention, 0.4 more where it is pinned, 0.2 more for a
/// rule or a decision and 0.15 more for a preference.
pub proof fn baseline_scores_weigh_pins_and_kinds(m: MemoryModel, now: i64, use_log: Single)
    ensures
        ({
            let retained = m.retention(now, use_log);
            let none = Single { bits: 0 };
            let pinned = if m.pinned {
                sum(retained, Single { bits: 0x3ecc_cccd })
            } else {
                sum(retained, none)
            };
            baseline_worth(m, now, use_log) == sum(
                pinned,
                if m.kind == MemoryKind::ProjectRule || m.kind == MemoryKind::ArchitectureDecision {
                    Single { bits: 0x3e4c_cccd }
                } else if m.kind == MemoryKind::UserPreference {
                    Single { bits: 0x3e19_999a }
                } else {
                    none
                },
            )
        }),
{
}

/// What is said of the user stands first, then the rules of the project, then its architecture, then
/// its present state, then what happened; kinds of one group share a heading, and others do not.
pub proof fn headings_group_kinds(a: MemoryKind, b: MemoryKind)
    ensures
        section_rank(MemoryKind::UserPreference) < section_rank(MemoryKind::ProjectRule),
        section_rank(MemoryKind::ProjectRule) < section_rank(MemoryKind::ArchitectureDecision),
        section_rank(MemoryKind::ArchitectureDecision) < section_rank(MemoryKind::ProjectState),
        section_rank(MemoryKind::ProjectState) < section_rank(MemoryKind::Episodic),
        section_rank(MemoryKind::PersonalFact) == section_rank(MemoryKind::UserPreference),
        section_rank(MemoryKind::Routine) == section_rank(MemoryKind::UserPreference),
        section_rank(MemoryKind::WorkingPattern) == section_rank(MemoryKind::ProjectRule),
        section_rank(MemoryKind::TechnicalFact) == section_rank(MemoryKind::ArchitectureDecision),
        section_rank(MemoryKind::OpenIssue) == section_rank(MemoryKind::ProjectState),
        section_rank(MemoryKind::FailedApproach) == section_rank(MemoryKind::ProjectState),
        section_name(MemoryKind::UserPreference) == "User baseline"@,
        section_name(MemoryKind::ProjectRule) == "Project guardrails"@,
        section_name(MemoryKind::ArchitectureDecision) == "Architecture knowledge"@,
        section_name(MemoryKind::ProjectState) == "Current project state"@,
        section_name(MemoryKind::Episodic) == "Recent durable context"@,
        section_rank(a) == section_rank(b) <==> section_name(a) == section_name(b),
{
    reveal_strlit("User baseline");
    reveal_strlit("Project guardrails");
    reveal_strlit("Architecture knowledge");
    reveal_strlit("Current project state");
    reveal_strlit("Recent durable context");
    assert("User baseline"@.len() == 13);
    assert("Project guardrails"@.len() == 18);
    assert("Architecture knowledge"@.len() == 22);
    assert("Current project state"@.len() == 21);
    assert("Recent durable context"@.len() == 22);
    assert("Architecture knowledge"@[0] != "Recent durable context"@[0]);
}

} // verus!
